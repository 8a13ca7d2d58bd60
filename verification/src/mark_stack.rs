//! Extendable mark stack of the incremental GC.
//!
//! The mark stack cannot grow contiguously, because new objects are
//! allocated while the mark phase is in progress. It is therefore a list of
//! stack tables of fixed capacity, each holding a series of entries. Only
//! the last active table has free entry space. Whenever that table is full
//! and an entry is pushed, the stack advances into an already existing
//! successor table, or extends the list by a fresh one. Tables are never
//! released while the garbage collection run is active: a table that runs
//! empty is kept as a successor for later regrowth and is only abandoned,
//! with the whole stack, at the end of the run.
//!
//! The entries are non-null pointer values denoting objects that still have
//! to be visited by the mark phase, the gray objects of the tri-color
//! marking scheme.

use vstd::prelude::*;

use crate::types::Value;

verus! {

/// Number of entries in each stack table.
pub const STACK_TABLE_CAPACITY: usize = 256 * 1024;

/// The concatenation of a list of stack tables.
pub open spec fn flatten_tables(tables: Seq<Seq<Value>>) -> Seq<Value>
    decreases tables.len(),
{
    if tables.len() == 0 {
        Seq::empty()
    } else {
        flatten_tables(tables.drop_last()) + tables.last()
    }
}

/// In-progress mark stack: the fully occupied predecessor tables, the table
/// currently pushed into and popped from, and the retained successor tables
/// that are currently empty.
pub struct MarkStack {
    allocated: bool,
    previous: Vec<Vec<Value>>,
    current: Vec<Value>,
    successors: Vec<Vec<Value>>,
}

impl MarkStack {
    /// The stack has its tables allocated and is ready for use.
    pub closed spec fn spec_allocated(self) -> bool {
        self.allocated
    }

    /// The stacked values, bottom first.
    pub closed spec fn view(self) -> Seq<Value> {
        flatten_tables(self.previous@.map(|i: int, table: Vec<Value>| table@)) + self.current@
    }

    /// Structural invariant: every predecessor table is full, the active
    /// table is at most full, and every entry is a non-null pointer.
    pub closed spec fn wf(self) -> bool {
        &&& forall|i: int|
            0 <= i < self.previous@.len() ==> (#[trigger] self.previous@[i])@.len()
                == STACK_TABLE_CAPACITY
        &&& self.current@.len() <= STACK_TABLE_CAPACITY
        &&& forall|i: int|
            0 <= i < self.view().len() ==> ((#[trigger] self.view()[i]).spec_is_ptr()
                && !(self.view()[i]).spec_is_null())
    }

    /// Create an empty mark stack whose tables are not yet allocated.
    pub fn new() -> (stack: MarkStack)
        ensures
            !stack.spec_allocated(),
    {
        MarkStack {
            allocated: false,
            previous: Vec::new(),
            current: Vec::new(),
            successors: Vec::new(),
        }
    }

    /// Allocate the table list before use.
    pub fn allocate(&mut self)
        requires
            !old(self).spec_allocated(),
        ensures
            final(self).spec_allocated(),
            final(self).wf(),
            final(self).view().len() == 0,
    {
        self.allocated = true;
        self.previous = Vec::new();
        self.current = Vec::new();
        self.successors = Vec::new();
        proof {
            assert(self.previous@.map(|i: int, table: Vec<Value>| table@).len() == 0);
        }
    }

    /// Release the mark stack after the run; its tables become garbage.
    pub fn free(&mut self)
        requires
            old(self).spec_allocated(),
            old(self).view().len() == 0,
        ensures
            !final(self).spec_allocated(),
    {
        self.allocated = false;
        self.previous = Vec::new();
        self.current = Vec::new();
        self.successors = Vec::new();
    }

    pub fn is_allocated(&self) -> (allocated: bool)
        ensures
            allocated == self.spec_allocated(),
    {
        self.allocated
    }

    /// Push an object value. If the active table is full, the stack advances
    /// into a retained successor table or extends the list by a new one.
    pub fn push(&mut self, object: Value)
        requires
            old(self).spec_allocated(),
            old(self).wf(),
            object.spec_is_ptr(),
            !object.spec_is_null(),
        ensures
            final(self).spec_allocated(),
            final(self).wf(),
            final(self).view() == old(self).view().push(object),
    {
        if self.current.len() == STACK_TABLE_CAPACITY {
            let mut next: Vec<Value> = if self.successors.len() > 0 {
                let mut table = self.successors.pop().unwrap();
                table.clear();
                table
            } else {
                Vec::new()
            };
            core::mem::swap(&mut next, &mut self.current);
            self.previous.push(next);
            proof {
                let tables = self.previous@.map(|i: int, table: Vec<Value>| table@);
                assert(tables.drop_last() =~= old(self).previous@.map(
                    |i: int, table: Vec<Value>| table@,
                ));
                assert(self.view() =~= old(self).view());
            }
        }
        self.current.push(object);
        proof {
            assert(self.view() =~= old(self).view().push(object));
        }
    }

    /// Pop the topmost value, backing up into the predecessor table when the
    /// active table is empty. Returns the null value on an empty stack.
    pub fn pop(&mut self) -> (top: Value)
        requires
            old(self).spec_allocated(),
            old(self).wf(),
        ensures
            final(self).spec_allocated(),
            final(self).wf(),
            old(self).view().len() == 0 ==> top.spec_is_null() && final(self).view() == old(
                self,
            ).view(),
            old(self).view().len() > 0 ==> top == old(self).view().last() && final(self).view()
                == old(self).view().drop_last() && top.spec_is_ptr() && !top.spec_is_null(),
    {
        if self.current.len() == 0 {
            if self.previous.len() == 0 {
                proof {
                    assert(self.view() =~= old(self).view());
                }
                return Value::null_value();
            }
            let mut refilled = self.previous.pop().unwrap();
            core::mem::swap(&mut refilled, &mut self.current);
            self.successors.push(refilled);
            proof {
                let old_tables = old(self).previous@.map(|i: int, table: Vec<Value>| table@);
                assert(self.previous@.map(|i: int, table: Vec<Value>| table@)
                    =~= old_tables.drop_last());
                assert(self.view() =~= old(self).view());
            }
        }
        let top = self.current.pop().unwrap();
        proof {
            assert(self.view() =~= old(self).view().drop_last());
            assert(old(self).view().last() == top);
        }
        top
    }

    /// Whether no value is left on the stack.
    pub fn is_empty(&self) -> (empty: bool)
        requires
            self.spec_allocated(),
            self.wf(),
        ensures
            empty == (self.view().len() == 0),
    {
        self.current.len() == 0 && self.previous.len() == 0
    }
}

} // verus!
