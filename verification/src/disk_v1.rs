//! The first disk-backed stage variant: a log-structured queue over an
//! ordered key-value store, one key per event, keys monotonically
//! increasing.  Writes are durable before a push returns `Accepted`;
//! acknowledgement deletes every key at or below the acknowledged-through
//! cursor and reclaims its space.
//!
//! The store itself is modeled by the stage's state: the key cursors are the
//! event counters (`acked` is the smallest retained key, `popped` the read
//! cursor, `accepted` the write cursor), and the retained values are the
//! popped-but-unacknowledged events followed by the enqueued events.

use vstd::prelude::*;
use crate::{Event, Outcome, WhenFull};

verus! {

/// The summed payload bytes of a sequence of events.
pub open spec fn seq_bytes(q: Seq<Event>) -> int
    decreases q.len(),
{
    if q.len() == 0 {
        0
    } else {
        q[0]@.len() + seq_bytes(q.drop_first())
    }
}

pub proof fn lemma_seq_bytes_nonneg(q: Seq<Event>)
    ensures
        seq_bytes(q) >= 0,
    decreases q.len(),
{
    if q.len() > 0 {
        lemma_seq_bytes_nonneg(q.drop_first());
    }
}

pub proof fn lemma_seq_bytes_push(q: Seq<Event>, e: Event)
    ensures
        seq_bytes(q.push(e)) == seq_bytes(q) + e@.len(),
    decreases q.len(),
{
    assert(seq_bytes(q.push(e)) == q.push(e)[0]@.len() + seq_bytes(q.push(e).drop_first()));
    if q.len() == 0 {
        assert(q.push(e).drop_first() =~= Seq::<Event>::empty());
        assert(q.push(e)[0] == e);
        assert(seq_bytes(Seq::<Event>::empty()) == 0);
    } else {
        assert(q.push(e).drop_first() =~= q.drop_first().push(e));
        assert(q.push(e)[0] == q[0]);
        lemma_seq_bytes_push(q.drop_first(), e);
        assert(seq_bytes(q) == q[0]@.len() + seq_bytes(q.drop_first()));
    }
}

/// The mathematical state of the key-value disk stage.
pub struct DiskV1Model {
    /// Capacity watermark, in bytes of retained payload.
    pub max_size: int,
    /// The policy applied when a push meets the watermark.
    pub policy: WhenFull,
    /// Popped but unacknowledged events: keys `acked .. popped`.
    pub unacked: Seq<Event>,
    /// Enqueued events: keys `popped .. accepted`.
    pub queue: Seq<Event>,
    /// Pushes that returned `Accepted`; also the write cursor key.
    pub accepted: int,
    /// Pops that returned an event; also the read cursor key.
    pub popped: int,
    /// Events whose keys have been deleted; also the smallest retained key.
    pub acked: int,
    /// Events discarded under `drop_newest`.
    pub dropped: int,
}

impl DiskV1Model {
    /// Bytes of unacknowledged payload on disk.
    pub open spec fn disk_bytes(self) -> int {
        seq_bytes(self.unacked) + seq_bytes(self.queue)
    }

    /// The stage's invariant: the watermark is honored and the key cursors
    /// conserve events.
    pub open spec fn wf(self) -> bool {
        &&& 1 <= self.max_size
        &&& self.disk_bytes() <= self.max_size
        &&& self.accepted == self.popped + self.queue.len()
        &&& self.popped == self.acked + self.unacked.len()
        &&& 0 <= self.acked
        &&& 0 <= self.dropped
    }

    /// Events popped but not yet acknowledged.
    pub open spec fn in_flight(self) -> int {
        self.popped - self.acked
    }

    /// Whether one more event of the given payload size fits under the
    /// watermark.
    pub open spec fn fits(self, e: Event) -> bool {
        self.disk_bytes() + e@.len() <= self.max_size
    }

    /// What a push does to the stage, and what it returns.  An accepted
    /// event is durably written before the push returns.
    pub open spec fn push_tr(self, e: Event) -> (DiskV1Model, Outcome) {
        if self.fits(e) {
            (
                DiskV1Model { queue: self.queue.push(e), accepted: self.accepted + 1, ..self },
                Outcome::Accepted,
            )
        } else if self.policy is DropNewest {
            (DiskV1Model { dropped: self.dropped + 1, ..self }, Outcome::Dropped)
        } else {
            (self, Outcome::Full)
        }
    }

    /// What a pop does: the read cursor advances past the oldest enqueued
    /// event, which stays on disk, in flight, until acknowledged.
    pub open spec fn pop_tr(self) -> (DiskV1Model, Option<Event>) {
        if self.queue.len() == 0 {
            (self, None)
        } else {
            (
                DiskV1Model {
                    unacked: self.unacked.push(self.queue[0]),
                    queue: self.queue.drop_first(),
                    popped: self.popped + 1,
                    ..self
                },
                Some(self.queue[0]),
            )
        }
    }

    /// What acknowledging one event does: the oldest in-flight key is
    /// deleted and its space reclaimed.  Nothing happens when nothing is in
    /// flight.
    pub open spec fn ack1_tr(self) -> DiskV1Model {
        if self.unacked.len() == 0 {
            self
        } else {
            DiskV1Model { unacked: self.unacked.drop_first(), acked: self.acked + 1, ..self }
        }
    }

    /// `n` single-event acknowledgements in a row.
    pub open spec fn ack_tr(self, n: int) -> DiskV1Model
        decreases n,
    {
        if n <= 0 {
            self
        } else {
            self.ack1_tr().ack_tr(n - 1)
        }
    }

    /// What reopening the store after a shutdown yields: every retained key
    /// in key order, all of it enqueued again, with fresh cursors.
    pub open spec fn reopen_tr(self) -> DiskV1Model {
        DiskV1Model {
            unacked: Seq::empty(),
            queue: self.unacked + self.queue,
            accepted: self.unacked.len() + self.queue.len() as int,
            popped: 0,
            acked: 0,
            dropped: 0,
            ..self
        }
    }
}

/// Acknowledging in two batches equals acknowledging once with their sum.
pub proof fn lemma_ack_additive_v1(s: DiskV1Model, n: int, m: int)
    requires
        0 <= n,
        0 <= m,
    ensures
        s.ack_tr(n).ack_tr(m) == s.ack_tr(n + m),
    decreases n,
{
    if n > 0 {
        lemma_ack_additive_v1(s.ack1_tr(), n - 1, m);
    }
}

/// `ack(0)` is a no-op.
pub proof fn lemma_ack_zero_v1(s: DiskV1Model)
    ensures
        s.ack_tr(0) == s,
{
}

/// The watermark is honored: a well-formed stage never retains more than
/// `max_size` bytes of unacknowledged payload.
pub proof fn lemma_watermark_v1(s: DiskV1Model)
    requires
        s.wf(),
    ensures
        s.disk_bytes() <= s.max_size,
{
}

/// No spurious reorder within the stage: two accepted pushes stand in the
/// queue in push order, and pops return the queue head.
pub proof fn lemma_fifo_v1(s0: DiskV1Model, a: Event, b: Event)
    requires
        s0.push_tr(a).1 == Outcome::Accepted,
        s0.push_tr(a).0.push_tr(b).1 == Outcome::Accepted,
    ensures
        ({
            let q = s0.push_tr(a).0.push_tr(b).0.queue;
            &&& q.len() >= 2
            &&& q[q.len() - 2] == a
            &&& q[q.len() - 1] == b
        }),
{
}

/// Conservation for the key-value stage: accepted pushes are released, in
/// flight, or enqueued.
pub proof fn lemma_conservation_v1(s: DiskV1Model)
    requires
        s.wf(),
    ensures
        s.accepted == s.acked + s.in_flight() + s.queue.len(),
{
}

/// Reopening redelivers the retained events in key order: the events that
/// were in flight, then the enqueued ones, nothing else and nothing
/// reordered.
pub proof fn lemma_reopen_order_v1(s: DiskV1Model)
    requires
        s.wf(),
    ensures
        s.reopen_tr().wf(),
        s.reopen_tr().queue == s.unacked + s.queue,
        s.reopen_tr().in_flight() == 0,
{
    lemma_seq_bytes_concat(s.unacked, s.queue);
}

pub proof fn lemma_seq_bytes_concat(a: Seq<Event>, b: Seq<Event>)
    ensures
        seq_bytes(a + b) == seq_bytes(a) + seq_bytes(b),
    decreases a.len(),
{
    if a.len() == 0 {
        assert(a + b =~= b);
    } else {
        assert((a + b).drop_first() =~= a.drop_first() + b);
        assert((a + b)[0] == a[0]);
        lemma_seq_bytes_concat(a.drop_first(), b);
    }
}

/// A bounded, durable FIFO queue over an ordered key-value store.
#[derive(Debug)]
pub struct DiskV1Stage {
    max_size: u64,
    when_full: WhenFull,
    unacked: Vec<Event>,
    queue: Vec<Event>,
    disk_bytes: u64,
    accepted: u64,
    popped: u64,
    acked: u64,
    dropped: u64,
}

impl View for DiskV1Stage {
    type V = DiskV1Model;

    closed spec fn view(&self) -> DiskV1Model {
        DiskV1Model {
            max_size: self.max_size as int,
            policy: self.when_full,
            unacked: self.unacked@,
            queue: self.queue@,
            accepted: self.accepted as int,
            popped: self.popped as int,
            acked: self.acked as int,
            dropped: self.dropped as int,
        }
    }
}

impl DiskV1Stage {
    /// The exec stage is well formed when its model is and its byte counter
    /// matches the model's retained bytes.
    pub open spec fn wf(self) -> bool {
        &&& self@.wf()
        &&& self.tracked_bytes() == self@.disk_bytes()
    }

    /// The byte counter the stage maintains alongside the store.
    pub closed spec fn tracked_bytes(self) -> int {
        self.disk_bytes as int
    }

    /// Room for the counters to advance: a machine limit, not a policy.
    pub open spec fn counters_ok(self) -> bool {
        &&& self@.accepted < u64::MAX
        &&& self@.dropped < u64::MAX
    }

    /// Creates an empty stage with the given watermark and policy, opening a
    /// fresh store.
    pub fn new(max_size: u64, when_full: WhenFull) -> (r: DiskV1Stage)
        requires
            max_size >= 1,
        ensures
            r.wf(),
            r@.queue =~= Seq::<Event>::empty(),
            r@.unacked =~= Seq::<Event>::empty(),
            r@.max_size == max_size,
            r@.policy == when_full,
            r@.accepted == 0,
            r@.popped == 0,
            r@.acked == 0,
            r@.dropped == 0,
    {
        DiskV1Stage {
            max_size,
            when_full,
            unacked: Vec::new(),
            queue: Vec::new(),
            disk_bytes: 0,
            accepted: 0,
            popped: 0,
            acked: 0,
            dropped: 0,
        }
    }

    /// Pushes one event.  It is accepted, and durably written, exactly when
    /// its payload fits under the byte watermark; otherwise the outcome
    /// follows the stage's policy.
    pub fn push(&mut self, e: Event) -> (r: Outcome)
        requires
            old(self).wf(),
            old(self).counters_ok(),
        ensures
            final(self).wf(),
            (final(self)@, r) == old(self)@.push_tr(e),
            r == Outcome::Accepted <==> old(self)@.fits(e),
            r == Outcome::Full ==> *final(self) == *old(self),
    {
        proof {
            lemma_seq_bytes_nonneg(self.unacked@);
            lemma_seq_bytes_nonneg(self.queue@);
        }
        let sz = e.byte_size() as u64;
        if sz <= self.max_size - self.disk_bytes {
            proof {
                lemma_seq_bytes_push(self.queue@, e);
            }
            self.disk_bytes = self.disk_bytes + sz;
            self.queue.push(e);
            self.accepted = self.accepted + 1;
            Outcome::Accepted
        } else if matches!(self.when_full, WhenFull::DropNewest) {
            self.dropped = self.dropped + 1;
            Outcome::Dropped
        } else {
            Outcome::Full
        }
    }

    /// Pops the oldest enqueued event.  It stays on disk, in flight, until
    /// acknowledged.
    pub fn pop(&mut self) -> (r: Option<Event>)
        requires
            old(self).wf(),
        ensures
            final(self).wf(),
            final(self)@ == old(self)@.pop_tr().0,
            r is Some <==> old(self)@.queue.len() > 0,
            r matches Some(ev) ==> ev@ == old(self)@.queue[0]@,
            r is None ==> *final(self) == *old(self),
    {
        if self.queue.len() == 0 {
            None
        } else {
            let e = self.queue.remove(0);
            let copy = e.duplicate();
            self.unacked.push(e);
            self.popped = self.popped + 1;
            proof {
                assert(self.queue@ =~= old(self)@.queue.drop_first());
                lemma_seq_bytes_push(old(self)@.unacked, old(self)@.queue[0]);
                assert(old(self)@.queue.drop_first() =~= old(self)@.queue.subrange(
                    1,
                    old(self)@.queue.len() as int,
                ));
                lemma_seq_bytes_first(old(self)@.queue);
            }
            Some(copy)
        }
    }

    /// Releases the `n` oldest in-flight events: their keys are deleted and
    /// their space reclaimed.  `ack(0)` changes nothing, and no more than
    /// the in-flight events are released.
    pub fn ack(&mut self, n: u64)
        requires
            old(self).wf(),
        ensures
            final(self).wf(),
            final(self)@ == old(self)@.ack_tr(n as int),
    {
        let mut j: u64 = 0;
        while j < n
            invariant
                j <= n,
                self.wf(),
                self@ == old(self)@.ack_tr(j as int),
            decreases n - j,
        {
            let ghost s_j = old(self)@.ack_tr(j as int);
            proof {
                lemma_ack_additive_v1(old(self)@, j as int, 1);
                assert(s_j.ack_tr(1) == s_j.ack1_tr().ack_tr(0));
                assert(s_j.ack1_tr().ack_tr(0) == s_j.ack1_tr());
                assert(old(self)@.ack_tr(j as int + 1) == s_j.ack1_tr());
            }
            if self.unacked.len() > 0 {
                proof {
                    lemma_seq_bytes_first(self.unacked@);
                    lemma_seq_bytes_nonneg(self.unacked@.drop_first());
                    lemma_seq_bytes_nonneg(self.queue@);
                }
                let e = self.unacked.remove(0);
                self.disk_bytes = self.disk_bytes - e.byte_size() as u64;
                self.acked = self.acked + 1;
                proof {
                    assert(self.unacked@ =~= s_j.unacked.drop_first());
                }
            }
            j = j + 1;
        }
    }

    /// Reopens the store after a shutdown: every retained key is enqueued
    /// again, in key order.
    pub fn reopen(self) -> (r: DiskV1Stage)
        requires
            self.wf(),
        ensures
            r.wf(),
            r@ == self@.reopen_tr(),
    {
        proof {
            lemma_seq_bytes_concat(self@.unacked, self@.queue);
            lemma_seq_bytes_nonneg(self@.unacked);
            lemma_seq_bytes_nonneg(self@.queue);
        }
        let DiskV1Stage { max_size, when_full, mut unacked, mut queue, disk_bytes, .. } = self;
        let n = unacked.len() as u64 + queue.len() as u64;
        unacked.append(&mut queue);
        DiskV1Stage {
            max_size,
            when_full,
            unacked: Vec::new(),
            queue: unacked,
            disk_bytes,
            accepted: n,
            popped: 0,
            acked: 0,
            dropped: 0,
        }
    }

    /// How many events are enqueued.
    pub fn len_events(&self) -> (r: usize)
        ensures
            r == self@.queue.len(),
    {
        self.queue.len()
    }

    /// The stage's `when_full` policy.
    pub fn policy(&self) -> (r: WhenFull)
        ensures
            r == self@.policy,
    {
        self.when_full
    }

    /// Bytes of unacknowledged payload on disk.
    pub fn len_bytes(&self) -> (r: u64)
        requires
            self.wf(),
        ensures
            r == self@.disk_bytes(),
    {
        self.disk_bytes
    }

    /// How many events are in flight: popped but not acknowledged.
    pub fn in_flight(&self) -> (r: u64)
        requires
            self.wf(),
        ensures
            r == self@.in_flight(),
    {
        self.popped - self.acked
    }

    /// How many events the stage has discarded under `drop_newest`.
    pub fn drop_count(&self) -> (r: u64)
        ensures
            r == self@.dropped,
    {
        self.dropped
    }

    /// How many pushes have been accepted.
    pub fn accepted_count(&self) -> (r: u64)
        ensures
            r == self@.accepted,
    {
        self.accepted
    }
}

/// The bytes of a non-empty sequence are its head's plus its tail's.
pub proof fn lemma_seq_bytes_first(q: Seq<Event>)
    requires
        q.len() > 0,
    ensures
        seq_bytes(q) == q[0]@.len() + seq_bytes(q.drop_first()),
{
}

} // verus!
