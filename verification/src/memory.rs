//! The in-memory stage variant: a bounded FIFO queue of capacity
//! `max_events`, with accounting for in-flight and dropped events.
//!
//! The stage's view is a mathematical model (`MemModel`); each exec
//! operation is proved to implement a spec-level transition function on that
//! model (`push_tr`, `pop_tr`, `ack_tr`), and the laws about the stage
//! (conservation, FIFO order, ack additivity) are proof functions over those
//! transitions.

use vstd::prelude::*;
use crate::{Event, Outcome, WhenFull};

verus! {

/// The mathematical state of a memory stage.
pub struct MemModel {
    /// Capacity watermark, in events.
    pub max_events: int,
    /// The policy applied when a push meets the watermark.
    pub policy: WhenFull,
    /// Enqueued events, oldest first.
    pub queue: Seq<Event>,
    /// Pushes that returned `Accepted`.
    pub accepted: int,
    /// Pops that returned an event.
    pub popped: int,
    /// Events released by acknowledgement.
    pub acked: int,
    /// Events discarded under `drop_newest`.
    pub dropped: int,
}

impl MemModel {
    /// The stage's invariant: the watermark is honored and the counters
    /// conserve events.
    pub open spec fn wf(self) -> bool {
        &&& 1 <= self.max_events
        &&& self.queue.len() <= self.max_events
        &&& self.accepted == self.popped + self.queue.len()
        &&& 0 <= self.acked <= self.popped
        &&& 0 <= self.dropped
    }

    /// Events popped but not yet acknowledged.
    pub open spec fn in_flight(self) -> int {
        self.popped - self.acked
    }

    /// What a push does to the stage, and what it returns.
    pub open spec fn push_tr(self, e: Event) -> (MemModel, Outcome) {
        if self.queue.len() < self.max_events {
            (
                MemModel { queue: self.queue.push(e), accepted: self.accepted + 1, ..self },
                Outcome::Accepted,
            )
        } else if self.policy is DropNewest {
            (MemModel { dropped: self.dropped + 1, ..self }, Outcome::Dropped)
        } else {
            (self, Outcome::Full)
        }
    }

    /// What a pop does to the stage, and what it returns.
    pub open spec fn pop_tr(self) -> (MemModel, Option<Event>) {
        if self.queue.len() == 0 {
            (self, None)
        } else {
            (
                MemModel { queue: self.queue.drop_first(), popped: self.popped + 1, ..self },
                Some(self.queue[0]),
            )
        }
    }

    /// What an acknowledgement of `n` events does: it releases the `n`
    /// oldest in-flight events, and never more than are in flight.
    pub open spec fn ack_tr(self, n: int) -> MemModel {
        MemModel { acked: self.acked + vstd::math::min(n, self.in_flight()), ..self }
    }
}

/// A bounded FIFO queue of events plus the counters that account for them.
#[derive(Debug)]
pub struct MemoryStage {
    max_events: usize,
    when_full: WhenFull,
    queue: Vec<Event>,
    accepted: u64,
    popped: u64,
    acked: u64,
    dropped: u64,
}

impl View for MemoryStage {
    type V = MemModel;

    closed spec fn view(&self) -> MemModel {
        MemModel {
            max_events: self.max_events as int,
            policy: self.when_full,
            queue: self.queue@,
            accepted: self.accepted as int,
            popped: self.popped as int,
            acked: self.acked as int,
            dropped: self.dropped as int,
        }
    }
}

impl MemoryStage {
    /// The exec stage is well formed when its model is.
    pub open spec fn wf(self) -> bool {
        self@.wf()
    }

    /// Room for the counters to advance: a machine limit, not a policy.
    pub open spec fn counters_ok(self) -> bool {
        &&& self@.accepted < u64::MAX
        &&& self@.dropped < u64::MAX
    }

    /// Creates an empty stage with the given watermark and policy.
    pub fn new(max_events: usize, when_full: WhenFull) -> (r: MemoryStage)
        requires
            max_events >= 1,
        ensures
            r.wf(),
            r@.queue =~= Seq::<Event>::empty(),
            r@.max_events == max_events,
            r@.policy == when_full,
            r@.accepted == 0,
            r@.popped == 0,
            r@.acked == 0,
            r@.dropped == 0,
    {
        MemoryStage {
            max_events,
            when_full,
            queue: Vec::new(),
            accepted: 0,
            popped: 0,
            acked: 0,
            dropped: 0,
        }
    }

    /// Pushes one event.  It is accepted exactly when the stage is below its
    /// watermark; at the watermark the outcome follows the stage's policy.
    pub fn push(&mut self, e: Event) -> (r: Outcome)
        requires
            old(self).wf(),
            old(self).counters_ok(),
        ensures
            final(self).wf(),
            (final(self)@, r) == old(self)@.push_tr(e),
            r == Outcome::Accepted <==> old(self)@.queue.len() < old(self)@.max_events,
            r == Outcome::Full ==> *final(self) == *old(self),
    {
        if self.queue.len() < self.max_events {
            self.queue.push(e);
            self.accepted = self.accepted + 1;
            Outcome::Accepted
        } else if matches!(self.when_full, WhenFull::DropNewest) {
            self.dropped = self.dropped + 1;
            Outcome::Dropped
        } else {
            Outcome::Full
        }
    }

    /// Pops the oldest enqueued event, moving it to in-flight; `None` when
    /// the queue is empty.
    pub fn pop(&mut self) -> (r: Option<Event>)
        requires
            old(self).wf(),
        ensures
            final(self).wf(),
            (final(self)@, r) == old(self)@.pop_tr(),
            r is Some <==> old(self)@.queue.len() > 0,
            r is None ==> *final(self) == *old(self),
    {
        if self.queue.len() == 0 {
            None
        } else {
            self.popped = self.popped + 1;
            let e = self.queue.remove(0);
            assert(self@.queue =~= old(self)@.queue.drop_first());
            Some(e)
        }
    }

    /// Releases the `n` oldest in-flight events; purely accounting for a
    /// memory stage.  `ack(0)` changes nothing.
    pub fn ack(&mut self, n: u64)
        requires
            old(self).wf(),
        ensures
            final(self).wf(),
            final(self)@ == old(self)@.ack_tr(n as int),
    {
        let in_flight = self.popped - self.acked;
        let k = if n < in_flight {
            n
        } else {
            in_flight
        };
        self.acked = self.acked + k;
    }

    /// How many events are enqueued.
    pub fn len_events(&self) -> (r: usize)
        ensures
            r == self@.queue.len(),
    {
        self.queue.len()
    }

    /// The stage's `when_full` policy.
    pub fn policy(&self) -> (r: WhenFull)
        ensures
            r == self@.policy,
    {
        self.when_full
    }

    /// How many events are in flight: popped but not acknowledged.
    pub fn in_flight(&self) -> (r: u64)
        requires
            self.wf(),
        ensures
            r == self@.in_flight(),
    {
        self.popped - self.acked
    }

    /// How many events the stage has discarded under `drop_newest`.
    pub fn drop_count(&self) -> (r: u64)
        ensures
            r == self@.dropped,
    {
        self.dropped
    }

    /// How many pushes have been accepted.
    pub fn accepted_count(&self) -> (r: u64)
        ensures
            r == self@.accepted,
    {
        self.accepted
    }

    /// How many events have been released by acknowledgement.
    pub fn acked_count(&self) -> (r: u64)
        ensures
            r == self@.acked,
    {
        self.acked
    }
}

/// Conservation: every accepted push is accounted for, as released, in
/// flight, or still enqueued.  Events dropped under `drop_newest` were never
/// accepted; they stand under their own counter.
pub proof fn lemma_conservation(s: MemModel)
    requires
        s.wf(),
    ensures
        s.accepted == s.acked + s.in_flight() + s.queue.len(),
{
}

/// No spurious reorder within a stage: if `push(a)` completes before
/// `push(b)` and both are accepted, `a` stands nearer the head of the queue
/// than `b`.  Pops return the queue head (`pop_tr`), so `a` is popped before
/// `b`.
pub proof fn lemma_fifo(s0: MemModel, a: Event, b: Event)
    requires
        s0.push_tr(a).1 == Outcome::Accepted,
        s0.push_tr(a).0.push_tr(b).1 == Outcome::Accepted,
    ensures
        ({
            let q = s0.push_tr(a).0.push_tr(b).0.queue;
            &&& q.len() >= 2
            &&& q[q.len() - 2] == a
            &&& q[q.len() - 1] == b
        }),
{
}

/// Pop order: popping a non-empty stage returns the oldest enqueued event
/// and leaves the rest in order, so repeated pops return the queue in index
/// order.
pub proof fn lemma_pop_order(s: MemModel)
    requires
        s.queue.len() > 0,
    ensures
        s.pop_tr().1 == Some(s.queue[0]),
        s.pop_tr().0.queue =~= s.queue.drop_first(),
{
}

/// `ack(0)` is a no-op.
pub proof fn lemma_ack_zero(s: MemModel)
    requires
        s.wf(),
    ensures
        s.ack_tr(0) == s,
{
}

/// Acknowledgement batches always chain: releasing `n` then `m` is
/// releasing `n + m`, since each batch is clamped to what is in flight.
pub proof fn lemma_ack_chain(s: MemModel, n: int, m: int)
    requires
        s.wf(),
        0 <= n,
        0 <= m,
    ensures
        s.ack_tr(n).ack_tr(m) == s.ack_tr(n + m),
{
}

/// `ack(n)` then `ack(m)` is equivalent to `ack(n + m)`, provided `n + m`
/// does not exceed the events currently in flight.
pub proof fn lemma_ack_additive(s: MemModel, n: int, m: int)
    requires
        s.wf(),
        0 <= n,
        0 <= m,
        n + m <= s.in_flight(),
    ensures
        s.ack_tr(n).ack_tr(m) == s.ack_tr(n + m),
{
}

} // verus!
