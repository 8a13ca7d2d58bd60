//! Root set of the collector.
//!
//! The roots are a fixed set of value locations outside the dynamic heap
//! that anchor reachability: the static variables array and the other
//! runtime anchors of the embedder. The collector marks every root that
//! points into the dynamic heap at mark phase start and rewrites the roots
//! through the forwarding resolution during the update phase.

use vstd::prelude::*;

use crate::types::Value;

verus! {

/// The root locations, held by the embedder and handed to every GC
/// increment.
pub struct RootSet {
    pub locations: Vec<Value>,
}

impl RootSet {
    pub open spec fn view(self) -> Seq<Value> {
        self.locations@
    }

    /// Create a root set with the given number of locations, all
    /// initialized to the null value.
    pub fn new(count: usize) -> (roots: RootSet)
        ensures
            roots@.len() == count,
            forall|i: int| 0 <= i < count ==> (#[trigger] roots@[i]).spec_is_null(),
    {
        let mut locations: Vec<Value> = Vec::new();
        let mut filled: usize = 0;
        while filled < count
            invariant
                locations@.len() == filled,
                filled <= count,
                forall|i: int| 0 <= i < filled ==> (#[trigger] locations@[i]).spec_is_null(),
            decreases count - filled,
        {
            locations.push(Value::null_value());
            filled = filled + 1;
        }
        RootSet { locations }
    }

    /// The number of root locations.
    pub fn count(&self) -> (count: usize)
        ensures
            count == self@.len(),
    {
        self.locations.len()
    }

    /// Read a root location.
    pub fn get(&self, index: usize) -> (value: Value)
        requires
            index < self@.len(),
        ensures
            value == self@[index as int],
    {
        self.locations[index]
    }

    /// Overwrite a root location.
    pub fn set(&mut self, index: usize, value: Value)
        requires
            index < old(self)@.len(),
        ensures
            final(self)@ == old(self)@.update(index as int, value),
    {
        self.locations.set(index, value);
    }
}

} // verus!
