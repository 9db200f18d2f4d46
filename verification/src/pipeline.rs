//! The decision core of the download pipeline: which episode a free worker
//! slot takes next, whether a fetch is needed at all, and what the commit
//! step does with a fetched payload. The surrounding process performs the
//! fetches and the file writes and feeds every completion back here; these
//! decisions hold for any completion order.

use vstd::prelude::*;
use crate::episode::Episode;

verus! {

/// Whether an episode's media must be fetched: always when replacement is
/// forced, otherwise only when no file stands at its final name yet. This
/// skip is what makes repeated runs idempotent.
pub fn should_fetch(replace_existing: bool, exists: bool) -> (r: bool)
    ensures
        r == (replace_existing || !exists),
{
    replace_existing || !exists
}

/// What the commit step does with one completed fetch.
#[derive(Clone, Copy, Debug, PartialEq, Eq, Structural)]
pub enum CommitAction {
    /// The worker skipped the fetch and handed back no bytes; an empty
    /// payload is never written out as if it were content.
    SkipEmpty,
    /// A file already stands at the final name and replacement is off; the
    /// payload is dropped without touching the directory.
    SkipExists,
    /// Write the payload to the temporary name, then rename it onto the
    /// final name.
    Write,
}

/// The commit decision as a function of the payload size, the flag, and the
/// recheck of the final name's existence at commit time.
pub open spec fn spec_plan_commit(data_len: int, replace_existing: bool, exists: bool) -> CommitAction {
    if data_len == 0 {
        CommitAction::SkipEmpty
    } else if replace_existing || !exists {
        CommitAction::Write
    } else {
        CommitAction::SkipExists
    }
}

/// Decides the commit step for one completed fetch. `exists` is the result
/// of re-checking the final name at commit time, which defends against a
/// file that appeared between the worker's check and its commit.
pub fn plan_commit(data_len: usize, replace_existing: bool, exists: bool) -> (r: CommitAction)
    ensures
        r == spec_plan_commit(data_len as int, replace_existing, exists),
{
    if data_len == 0 {
        CommitAction::SkipEmpty
    } else if replace_existing || !exists {
        CommitAction::Write
    } else {
        CommitAction::SkipExists
    }
}

/// The admission state of the bounded worker pool: episodes are handed out in
/// document order and at most `cap` of them are in flight at any instant.
pub struct Orchestrator {
    pub episodes: Vec<Episode>,
    pub cap: usize,
    pub replace_existing: bool,
    pub next: usize,
    pub in_flight: usize,
}

impl Orchestrator {
    /// The pool's invariant: a positive cap that `in_flight` never exceeds,
    /// and no more slots occupied than episodes handed out.
    pub open spec fn wf(self) -> bool {
        &&& self.cap >= 1
        &&& self.next <= self.episodes@.len()
        &&& self.in_flight <= self.cap
        &&& self.in_flight <= self.next
    }

    /// A fresh pool over the parsed episode sequence.
    pub fn new(episodes: Vec<Episode>, cap: usize, replace_existing: bool) -> (r: Orchestrator)
        requires
            cap >= 1,
        ensures
            r.wf(),
            r.episodes@ == episodes@,
            r.cap == cap,
            r.replace_existing == replace_existing,
            r.next == 0,
            r.in_flight == 0,
    {
        Orchestrator { episodes, cap, replace_existing, next: 0, in_flight: 0 }
    }

    /// Hands out the next pending episode when a worker slot is free: exactly
    /// when the cap is not reached and episodes remain. Selection follows
    /// document order.
    pub fn take_next(&mut self) -> (r: Option<usize>)
        requires
            old(self).wf(),
        ensures
            final(self).wf(),
            final(self).episodes@ == old(self).episodes@,
            final(self).cap == old(self).cap,
            final(self).replace_existing == old(self).replace_existing,
            match r {
                Some(i) => old(self).in_flight < old(self).cap
                    && old(self).next < old(self).episodes@.len()
                    && i == old(self).next
                    && final(self).next == old(self).next + 1
                    && final(self).in_flight == old(self).in_flight + 1,
                None => (old(self).in_flight == old(self).cap
                    || old(self).next == old(self).episodes@.len())
                    && final(self).next == old(self).next
                    && final(self).in_flight == old(self).in_flight,
            },
    {
        if self.in_flight < self.cap && self.next < self.episodes.len() {
            let i = self.next;
            self.next = self.next + 1;
            self.in_flight = self.in_flight + 1;
            Some(i)
        } else {
            None
        }
    }

    /// One in-flight fetch finished — success, failure and abort alike free
    /// the slot; a failure never blocks or cancels sibling workers.
    pub fn complete(&mut self)
        requires
            old(self).wf(),
            old(self).in_flight > 0,
        ensures
            final(self).wf(),
            final(self).episodes@ == old(self).episodes@,
            final(self).cap == old(self).cap,
            final(self).replace_existing == old(self).replace_existing,
            final(self).next == old(self).next,
            final(self).in_flight == old(self).in_flight - 1,
    {
        self.in_flight = self.in_flight - 1;
    }

    /// Borrow of the episode under index `i`.
    pub fn episode(&self, i: usize) -> (r: &Episode)
        requires
            i < self.episodes@.len(),
        ensures
            *r == self.episodes@[i as int],
    {
        &self.episodes[i]
    }

    /// The run is over once every episode was handed out and every slot is
    /// free again.
    pub fn done(&self) -> (r: bool)
        ensures
            r == (self.next == self.episodes@.len() && self.in_flight == 0),
    {
        self.next == self.episodes.len() && self.in_flight == 0
    }
}

/// The concurrency cap holds in every reachable pool state: each operation
/// above preserves `wf`, and `wf` bounds the in-flight count by the cap, so
/// at no instant are more than `cap` fetches in flight.
pub proof fn lemma_cap_never_exceeded(o: Orchestrator)
    requires
        o.wf(),
    ensures
        o.in_flight <= o.cap,
{
}

} // verus!
