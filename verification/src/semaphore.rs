//! The count behind a semaphore.

use vstd::prelude::*;

verus! {

/// A number of permits, some of them taken.
#[derive(Debug)]
pub struct Semaphore {
    free: usize,
    taken: usize,
}

/// How many permits are free, and how many are taken.
#[verifier::ext_equal]
pub struct PermitsModel {
    pub free: nat,
    pub taken: nat,
}

impl View for Semaphore {
    type V = PermitsModel;

    closed spec fn view(&self) -> PermitsModel {
        PermitsModel { free: self.free as nat, taken: self.taken as nat }
    }
}

/// The permits after one was asked for; one is taken if any is free.
pub open spec fn after_acquire(p: PermitsModel) -> PermitsModel {
    if p.free > 0 {
        PermitsModel { free: (p.free - 1) as nat, taken: p.taken + 1 }
    } else {
        p
    }
}

/// The permits after one came back.
pub open spec fn after_release(p: PermitsModel) -> PermitsModel {
    PermitsModel { free: p.free + 1, taken: (p.taken - 1) as nat }
}

impl Semaphore {
    /// Whether all permits can be counted.
    pub open spec fn wf(&self) -> bool {
        self@.free + self@.taken <= usize::MAX
    }

    /// So many permits, all of them free.
    pub fn new(permits: usize) -> (s: Self)
        ensures
            s.wf(),
            s@ == (PermitsModel { free: permits as nat, taken: 0 }),
    {
        Semaphore { free: permits, taken: 0 }
    }

    /// Takes a permit if one is free; without one the caller has to wait.
    pub fn acquire(&mut self) -> (got: bool)
        requires
            old(self).wf(),
        ensures
            final(self).wf(),
            got == (old(self)@.free > 0),
            final(self)@ == after_acquire(old(self)@),
    {
        if self.free == 0 {
            return false;
        }
        self.free = self.free - 1;
        self.taken = self.taken + 1;
        true
    }

    /// Gives a permit back; one waiting caller can then take it.
    pub fn release(&mut self)
        requires
            old(self).wf(),
            old(self)@.taken > 0,
        ensures
            final(self).wf(),
            final(self)@ == after_release(old(self)@),
    {
        self.taken = self.taken - 1;
        self.free = self.free + 1;
    }
}

/// No more permits are taken than there are: taking and giving back leave their
/// number as it is.
pub proof fn law_permits_are_kept(p: PermitsModel)
    ensures
        after_acquire(p).free + after_acquire(p).taken == p.free + p.taken,
        p.taken > 0 ==> after_release(p).free + after_release(p).taken == p.free + p.taken,
        p.free > 0 ==> after_release(after_acquire(p)) == p,
{
}

} // verus!
