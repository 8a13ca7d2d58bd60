//! Committed-memory accounting.
//!
//! The collector requests memory growth from its embedder before it touches
//! addresses beyond the committed size; growing memory is the sole blocking
//! call of the design. An embedder provides the [`Memory`] trait;
//! [`ModelMemory`] is the plain realization that simply tracks the largest
//! committed address.

use vstd::prelude::*;

verus! {

/// Heap memory of the embedder: tracks up to which address memory is
/// committed and grows the committed range on request.
pub trait Memory {
    /// The end address (exclusive) of the committed memory.
    spec fn spec_committed(&self) -> int;

    /// Grow the committed memory to cover at least the address `to`.
    fn grow_memory(&mut self, to: u64)
        ensures
            final(self).spec_committed() >= to,
            final(self).spec_committed() >= old(self).spec_committed(),
    ;
}

/// Committed-memory tracker: remembers the largest requested address.
pub struct ModelMemory {
    committed: u64,
}

impl ModelMemory {
    pub fn new() -> (memory: ModelMemory)
        ensures
            memory.spec_committed() == 0,
    {
        ModelMemory { committed: 0 }
    }

    pub fn committed(&self) -> (size: u64)
        ensures
            size == self.spec_committed(),
    {
        self.committed
    }
}

impl Memory for ModelMemory {
    closed spec fn spec_committed(&self) -> int {
        self.committed as int
    }

    fn grow_memory(&mut self, to: u64) {
        if to > self.committed {
            self.committed = to;
        }
    }
}

} // verus!
