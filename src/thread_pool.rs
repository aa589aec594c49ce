//! The counting gate behind the bounded parallel map: a worker enters before
//! it runs its unit of work and leaves after, and a gate never lets more
//! than its limit be inside at once. The threads, the lock around a gate
//! and the waiting are the caller's.
use vstd::prelude::*;

verus! {

pub struct ConcurrencyGate {
    active: u32,
    limit: u32,
    peak: u32,
}

impl ConcurrencyGate {
    /// Workers inside now.
    pub closed spec fn active(&self) -> nat {
        self.active as nat
    }

    /// The most workers that may be inside at once.
    pub closed spec fn limit(&self) -> nat {
        self.limit as nat
    }

    /// The most workers that have been inside at once so far.
    pub closed spec fn peak(&self) -> nat {
        self.peak as nat
    }

    /// Nobody entered uncounted, and the count never
    /// passed the limit.
    pub closed spec fn wf(&self) -> bool {
        1 <= self.limit && self.active <= self.peak <= self.limit
    }

    /// However the workers entered and left, no more than the limit have
    /// ever been inside at once.
    pub proof fn lemma_bounded(&self)
        requires
            self.wf(),
        ensures
            self.limit() >= 1,
            self.active() <= self.peak(),
            self.peak() <= self.limit(),
    {
    }

    /// A gate with one place lets one worker in at a time: the work runs as
    /// a plain sequence.
    pub proof fn lemma_one_at_a_time(&self)
        requires
            self.wf(),
            self.limit() == 1,
        ensures
            self.active() <= 1,
            self.peak() <= 1,
    {
    }

    /// A gate letting in at most `limit` workers at once.
    pub fn new(limit: u32) -> (r: ConcurrencyGate)
        requires
            limit >= 1,
        ensures
            r.wf(),
            r.active() == 0,
            r.peak() == 0,
            r.limit() == limit,
    {
        ConcurrencyGate { active: 0, limit, peak: 0 }
    }

    /// Lets a worker in if there is room; a worker turned away waits for a
    /// `leave` and asks again.
    pub fn try_enter(&mut self) -> (entered: bool)
        requires
            old(self).wf(),
        ensures
            final(self).wf(),
            entered == (old(self).active() < old(self).limit()),
            final(self).limit() == old(self).limit(),
            entered ==> final(self).active() == old(self).active() + 1,
            !entered ==> final(self).active() == old(self).active(),
            final(self).peak() == if final(self).active() > old(self).peak() {
                final(self).active()
            } else {
                old(self).peak()
            },
    {
        if self.active >= self.limit {
            return false;
        }
        self.active = self.active + 1;
        if self.active > self.peak {
            self.peak = self.active;
        }
        true
    }

    /// A worker that entered leaves; every waiting worker may then ask again.
    pub fn leave(&mut self)
        requires
            old(self).wf(),
            old(self).active() > 0,
        ensures
            final(self).wf(),
            final(self).active() == old(self).active() - 1,
            final(self).limit() == old(self).limit(),
            final(self).peak() == old(self).peak(),
    {
        self.active = self.active - 1;
    }

    /// Workers inside now.
    pub fn active_count(&self) -> (r: u32)
        ensures
            r == self.active(),
    {
        self.active
    }

    /// The most workers that have been inside at once so far.
    pub fn peak_count(&self) -> (r: u32)
        ensures
            r == self.peak(),
    {
        self.peak
    }
}

} // verus!
