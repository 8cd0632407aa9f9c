//! Bounded-concurrency admission of segment fetches.
//!
//! One fetch task per selected segment, at most `limit` of them in flight at
//! once. The scheduler only decides; the caller performs the fetches: it
//! asks [`FetchScheduler::start_next`] which segment to start, and reports
//! every completion (success or failure) through
//! [`FetchScheduler::on_complete`]. Starting hands out the sequence indices
//! `0, 1, 2, ...` in order, each exactly once, which is what entitles the
//! reassembly stage to its at-most-once-per-index precondition.

use vstd::prelude::*;

verus! {

/// Decision state of the bounded-parallel fetch phase of one session.
pub struct FetchScheduler {
    total: usize,
    limit: usize,
    started: usize,
    completed: usize,
}

impl FetchScheduler {
    /// How many segments this session schedules in all.
    pub closed spec fn spec_total(self) -> nat {
        self.total as nat
    }

    /// The concurrency limit the session was configured with.
    pub closed spec fn spec_limit(self) -> nat {
        self.limit as nat
    }

    /// How many fetches have been started so far; the indices handed out
    /// are exactly `0 .. spec_started()`.
    pub closed spec fn spec_started(self) -> nat {
        self.started as nat
    }

    /// How many started fetches have completed or failed.
    pub closed spec fn spec_completed(self) -> nat {
        self.completed as nat
    }

    /// Fetches started and not yet reported back: the in-flight count.
    pub open spec fn spec_in_flight(self) -> int {
        self.spec_started() - self.spec_completed()
    }

    /// Structural invariant. Its last clause is the concurrency bound: at no
    /// reachable state are more than `spec_limit()` fetches in flight.
    pub open spec fn wf(self) -> bool {
        &&& self.spec_completed() <= self.spec_started() <= self.spec_total()
        &&& self.spec_in_flight() <= self.spec_limit()
    }

    pub fn new(total: usize, limit: usize) -> (r: Self)
        ensures
            r.wf(),
            r.spec_total() == total,
            r.spec_limit() == limit,
            r.spec_started() == 0,
            r.spec_completed() == 0,
    {
        FetchScheduler { total, limit, started: 0, completed: 0 }
    }

    /// Whether a further fetch may start now: segments remain and a
    /// concurrency slot is free.
    pub fn can_start(&self) -> (r: bool)
        requires
            self.wf(),
        ensures
            r == (self.spec_started() < self.spec_total() && self.spec_in_flight()
                < self.spec_limit()),
    {
        self.started < self.total && self.started - self.completed < self.limit
    }

    /// Start the next fetch and say which segment it is for.
    ///
    /// Indices come out dense and in order — the call returns
    /// `spec_started()` and increments it — so no index is ever handed out
    /// twice. The bound
    /// holds afterwards as well: at most `spec_limit()` in flight.
    pub fn start_next(&mut self) -> (index: usize)
        requires
            old(self).wf(),
            old(self).spec_started() < old(self).spec_total(),
            old(self).spec_in_flight() < old(self).spec_limit(),
        ensures
            final(self).wf(),
            index as nat == old(self).spec_started(),
            final(self).spec_started() == old(self).spec_started() + 1,
            final(self).spec_completed() == old(self).spec_completed(),
            final(self).spec_total() == old(self).spec_total(),
            final(self).spec_limit() == old(self).spec_limit(),
            final(self).spec_in_flight() == old(self).spec_in_flight() + 1,
            final(self).spec_in_flight() <= final(self).spec_limit(),
    {
        let index = self.started;
        self.started = self.started + 1;
        index
    }

    /// One started fetch has completed or failed, freeing its slot.
    pub fn on_complete(&mut self)
        requires
            old(self).wf(),
            old(self).spec_in_flight() > 0,
        ensures
            final(self).wf(),
            final(self).spec_completed() == old(self).spec_completed() + 1,
            final(self).spec_started() == old(self).spec_started(),
            final(self).spec_total() == old(self).spec_total(),
            final(self).spec_limit() == old(self).spec_limit(),
            final(self).spec_in_flight() == old(self).spec_in_flight() - 1,
    {
        self.completed = self.completed + 1;
    }

    /// Every segment has been started and every fetch has reported back.
    pub fn is_done(&self) -> (r: bool)
        requires
            self.wf(),
        ensures
            r == (self.spec_started() == self.spec_total() && self.spec_in_flight() == 0),
    {
        self.started == self.total && self.completed == self.started
    }

    /// The current in-flight count, for observation.
    pub fn in_flight(&self) -> (r: usize)
        requires
            self.wf(),
        ensures
            r as int == self.spec_in_flight(),
            r as nat <= self.spec_limit(),
    {
        self.started - self.completed
    }
}

} // verus!
