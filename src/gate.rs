use vstd::prelude::*;

verus! {

/// A counting pool of permits that bounds how many hash operations run at once.
pub struct ConcurrencyGate {
    limit: usize,
    in_use: usize,
}

impl ConcurrencyGate {
    pub closed spec fn spec_limit(&self) -> nat {
        self.limit as nat
    }

    pub closed spec fn spec_in_use(&self) -> nat {
        self.in_use as nat
    }

    /// Never more permits are held than the pool was created with.
    pub open spec fn wf(&self) -> bool {
        self.spec_in_use() <= self.spec_limit()
    }

    /// A pool of `limit` permits, none of them held.
    pub fn new(limit: usize) -> (g: ConcurrencyGate)
        ensures
            g.wf(),
            g.spec_limit() == limit,
            g.spec_in_use() == 0,
    {
        ConcurrencyGate { limit, in_use: 0 }
    }

    pub fn limit(&self) -> (r: usize)
        ensures
            r == self.spec_limit(),
    {
        self.limit
    }

    /// How many permits are currently held.
    pub fn in_use(&self) -> (r: usize)
        ensures
            r == self.spec_in_use(),
    {
        self.in_use
    }

    /// How many permits are free.
    pub fn available(&self) -> (r: usize)
        requires
            self.wf(),
        ensures
            r == self.spec_limit() - self.spec_in_use(),
    {
        self.limit - self.in_use
    }

    /// Takes one permit if one is free; a full pool is left alone and answers
    /// `false`, and the caller waits for a release.
    pub fn try_acquire(&mut self) -> (granted: bool)
        requires
            old(self).wf(),
        ensures
            final(self).wf(),
            final(self).spec_limit() == old(self).spec_limit(),
            granted == (old(self).spec_in_use() < old(self).spec_limit()),
            granted ==> final(self).spec_in_use() == old(self).spec_in_use() + 1,
            !granted ==> final(self).spec_in_use() == old(self).spec_in_use(),
    {
        if self.in_use < self.limit {
            self.in_use = self.in_use + 1;
            true
        } else {
            false
        }
    }

    /// Returns one held permit to the pool.
    pub fn release(&mut self)
        requires
            old(self).wf(),
            old(self).spec_in_use() > 0,
        ensures
            final(self).wf(),
            final(self).spec_limit() == old(self).spec_limit(),
            final(self).spec_in_use() == old(self).spec_in_use() - 1,
    {
        self.in_use = self.in_use - 1;
    }
}

} // verus!
