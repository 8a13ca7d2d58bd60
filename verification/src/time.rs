//! Bounded time of a GC increment, deterministically measured in synthetic
//! steps. Every scan loop of the collector advances the counter and breaks
//! when the budget is exhausted, which bounds the pause of one increment.

use vstd::prelude::*;

verus! {

pub struct BoundedTime {
    steps: usize,
    limit: usize,
}

impl BoundedTime {
    pub closed spec fn spec_steps(self) -> int {
        self.steps as int
    }

    pub closed spec fn spec_limit(self) -> int {
        self.limit as int
    }

    pub fn new(limit: usize) -> (time: BoundedTime)
        ensures
            time.spec_steps() == 0,
            time.spec_limit() == limit,
    {
        BoundedTime { steps: 0, limit }
    }

    /// Charge one synthetic step; the counter saturates at its maximum.
    pub fn tick(&mut self)
        ensures
            final(self).spec_steps() == if old(self).spec_steps() < usize::MAX {
                old(self).spec_steps() + 1
            } else {
                usize::MAX as int
            },
            old(self).spec_steps() <= final(self).spec_steps() <= usize::MAX,
            final(self).spec_limit() == old(self).spec_limit(),
    {
        self.steps = self.steps.saturating_add(1);
    }

    /// Charge `amount` synthetic steps; the counter saturates at its maximum.
    pub fn advance(&mut self, amount: usize)
        ensures
            final(self).spec_steps() == if old(self).spec_steps() + amount <= usize::MAX {
                old(self).spec_steps() + amount
            } else {
                usize::MAX as int
            },
            old(self).spec_steps() <= final(self).spec_steps() <= usize::MAX,
            final(self).spec_limit() == old(self).spec_limit(),
    {
        self.steps = self.steps.saturating_add(amount);
    }

    /// The step counter and the limit are machine words.
    pub proof fn lemma_bounds(&self)
        ensures
            0 <= self.spec_steps() <= usize::MAX,
            0 <= self.spec_limit() <= usize::MAX,
    {
    }

    /// The increment budget is exhausted once the counter exceeds the limit.
    pub fn is_over(&self) -> (over: bool)
        ensures
            over == (self.spec_steps() > self.spec_limit()),
    {
        self.steps > self.limit
    }
}

} // verus!
