//! The composed buffer topology: the closed variant over the three stage
//! kinds, the builder that validates a stage list and instantiates it, and
//! the composed send / receive / acknowledge surface.
//!
//! Overflow composition: a push tries the first stage; when that stage is
//! full and its policy is `overflow`, the event is pushed into the next
//! stage under that stage's own policy, recursively.  The receive side
//! always drains an earlier stage before a later one.  Acknowledgements are
//! routed to whichever stage produced each popped event, in pop order.

use vstd::prelude::*;
use crate::{Event, Outcome, WhenFull};
use crate::config::{BufferType, TopologyError};
use crate::memory::MemoryStage;
use crate::disk_v1::DiskV1Stage;
use crate::disk_v2::DiskV2Stage;

verus! {

/// One instantiated buffer stage: a closed variant of the three kinds.
#[derive(Debug)]
pub enum Stage {
    Memory(MemoryStage),
    DiskV1(DiskV1Stage),
    DiskV2(DiskV2Stage),
}

/// The payload views of a run of events.
pub open spec fn payloads(q: Seq<Event>) -> Seq<Seq<u8>> {
    Seq::new(q.len(), |i: int| q[i]@)
}

impl Stage {
    pub open spec fn wf(self) -> bool {
        match self {
            Stage::Memory(m) => m.wf(),
            Stage::DiskV1(d) => d.wf(),
            Stage::DiskV2(d) => d.wf(),
        }
    }

    /// Room for the stage's counters to advance, stated over the same
    /// accessors the operation contracts speak of, so a caller can chain
    /// calls from the growth bounds alone.
    pub open spec fn counters_ok(self) -> bool {
        &&& self.accepted() < u64::MAX
        &&& self.dropped() < u64::MAX
        &&& self.next_id_c() < u64::MAX
    }

    /// The stage's `when_full` policy.
    pub open spec fn policy(self) -> WhenFull {
        match self {
            Stage::Memory(m) => m@.policy,
            Stage::DiskV1(d) => d@.policy,
            Stage::DiskV2(d) => d@.policy,
        }
    }

    /// The enqueued payloads, oldest first.
    pub open spec fn queue_p(self) -> Seq<Seq<u8>> {
        match self {
            Stage::Memory(m) => payloads(m@.queue),
            Stage::DiskV1(d) => payloads(d@.queue),
            Stage::DiskV2(d) => d@.queue(),
        }
    }

    /// Bytes of unacknowledged payload the stage retains on disk; zero for
    /// a memory stage, whose watermark counts events.
    pub open spec fn stored_bytes(self) -> int {
        match self {
            Stage::Memory(_) => 0,
            Stage::DiskV1(d) => d@.disk_bytes(),
            Stage::DiskV2(d) => crate::disk_v2::disk_bytes(d@.segs),
        }
    }

    /// What accepting this payload adds to the stage's stored bytes: the
    /// payload for the key-value log, header and payload for the segmented
    /// log, nothing for a memory stage.
    pub open spec fn stored_cost(self, p: Seq<u8>) -> int {
        match self {
            Stage::Memory(_) => 0,
            Stage::DiskV1(_) => p.len() as int,
            Stage::DiskV2(_) => 8 + p.len() as int,
        }
    }

    /// Whether a push of this payload is accepted: the stage stands below
    /// its watermark with room for it — enqueued events against the
    /// capacity for a memory stage, stored bytes plus the record's cost
    /// against the capacity for a disk stage (whose payload must also fit
    /// the record format's length field).
    pub open spec fn can_accept(self, p: Seq<u8>) -> bool {
        match self {
            Stage::Memory(_) => self.queue_p().len() < self.capacity(),
            Stage::DiskV1(_) => self.stored_bytes() + self.stored_cost(p) <= self.capacity(),
            Stage::DiskV2(_) => crate::record::payload_fits(p) && self.stored_bytes()
                + self.stored_cost(p) <= self.capacity(),
        }
    }

    pub open spec fn accepted(self) -> int {
        match self {
            Stage::Memory(m) => m@.accepted,
            Stage::DiskV1(d) => d@.accepted,
            Stage::DiskV2(d) => d@.accepted,
        }
    }

    pub open spec fn dropped(self) -> int {
        match self {
            Stage::Memory(m) => m@.dropped,
            Stage::DiskV1(d) => d@.dropped,
            Stage::DiskV2(d) => d@.dropped,
        }
    }

    pub open spec fn acked(self) -> int {
        match self {
            Stage::Memory(m) => m@.acked,
            Stage::DiskV1(d) => d@.acked,
            Stage::DiskV2(d) => d@.acked,
        }
    }

    pub open spec fn in_flight(self) -> int {
        match self {
            Stage::Memory(m) => m@.in_flight(),
            Stage::DiskV1(d) => d@.in_flight(),
            Stage::DiskV2(d) => d@.in_flight(),
        }
    }

    /// Which of the three kinds the stage is.
    pub open spec fn kind(self) -> int {
        match self {
            Stage::Memory(_) => 0,
            Stage::DiskV1(_) => 1,
            Stage::DiskV2(_) => 2,
        }
    }

    /// The stage's watermark: events for a memory stage, bytes for a disk
    /// stage.
    pub open spec fn capacity(self) -> int {
        match self {
            Stage::Memory(m) => m@.max_events,
            Stage::DiskV1(d) => d@.max_size,
            Stage::DiskV2(d) => d@.max_size,
        }
    }

    /// The stage's fixed shape: kind, policy and watermark.  Pushes, pops
    /// and acks never change it.
    pub open spec fn shape(self) -> (int, WhenFull, int) {
        (self.kind(), self.policy(), self.capacity())
    }

    /// The segment numbering cursor, for the one stage kind that has one:
    /// a machine-limited counter like `accepted` and `dropped`.
    pub open spec fn next_id_c(self) -> int {
        match self {
            Stage::Memory(_) => 0,
            Stage::DiskV1(_) => 0,
            Stage::DiskV2(d) => d@.next_id,
        }
    }

    /// Pushes one event: accepted exactly when the stage has room, and
    /// otherwise resolved by the stage's policy.
    pub fn push(&mut self, e: Event) -> (r: Outcome)
        requires
            old(self).wf(),
            old(self).counters_ok(),
        ensures
            final(self).wf(),
            final(self).shape() == old(self).shape(),
            r == Outcome::Accepted <==> old(self).can_accept(e@),
            r == Outcome::Accepted ==> {
                &&& final(self).queue_p() == old(self).queue_p().push(e@)
                &&& final(self).accepted() == old(self).accepted() + 1
                &&& final(self).dropped() == old(self).dropped()
                &&& final(self).in_flight() == old(self).in_flight()
                &&& final(self).acked() == old(self).acked()
            },
            r == Outcome::Full ==> {
                &&& final(self).queue_p() == old(self).queue_p()
                &&& final(self).accepted() == old(self).accepted()
                &&& final(self).dropped() == old(self).dropped()
                &&& final(self).in_flight() == old(self).in_flight()
                &&& final(self).acked() == old(self).acked()
                &&& !(old(self).policy() is DropNewest)
                &&& *final(self) == *old(self)
            },
            r == Outcome::Dropped ==> {
                &&& final(self).queue_p() == old(self).queue_p()
                &&& final(self).accepted() == old(self).accepted()
                &&& final(self).dropped() == old(self).dropped() + 1
                &&& final(self).in_flight() == old(self).in_flight()
                &&& final(self).acked() == old(self).acked()
                &&& old(self).policy() is DropNewest
            },
            final(self).accepted() <= old(self).accepted() + 1,
            final(self).dropped() <= old(self).dropped() + 1,
            final(self).next_id_c() <= old(self).next_id_c() + 1,
            r == Outcome::Accepted ==> final(self).stored_bytes() == old(self).stored_bytes()
                + old(self).stored_cost(e@),
            r != Outcome::Accepted ==> final(self).stored_bytes() == old(self).stored_bytes(),
    {
        match self {
            Stage::Memory(m) => {
                let r = m.push(e);
                proof {
                    if r == Outcome::Accepted {
                        assert(final(self).queue_p() =~~= old(self).queue_p().push(e@));
                    } else {
                        assert(final(self).queue_p() =~~= old(self).queue_p());
                    }
                }
                r
            },
            Stage::DiskV1(d) => {
                let ghost pre = d@;
                let r = d.push(e);
                proof {
                    if r == Outcome::Accepted {
                        assert(final(self).queue_p() =~~= old(self).queue_p().push(e@));
                        crate::disk_v1::lemma_seq_bytes_push(pre.queue, e);
                    } else {
                        assert(final(self).queue_p() =~~= old(self).queue_p());
                    }
                }
                r
            },
            Stage::DiskV2(d) => {
                let ghost pre = d@;
                let r = d.push(e);
                proof {
                    if r == Outcome::Accepted {
                        assert(final(self).queue_p() =~~= old(self).queue_p().push(e@));
                        if pre.rolls(e@) {
                            crate::disk_v2::lemma_disk_bytes_snoc(
                                pre.segs,
                                crate::disk_v2::SegModel { id: pre.next_id, records: seq![e@] },
                            );
                            assert(crate::disk_v2::recs_bytes(seq![e@])
                                == crate::disk_v2::rec_bytes(seq![e@][0])
                                + crate::disk_v2::recs_bytes(seq![e@].drop_first()));
                            assert(seq![e@][0] == e@);
                            assert(seq![e@].drop_first() =~= Seq::<Seq<u8>>::empty());
                            assert(crate::disk_v2::recs_bytes(Seq::<Seq<u8>>::empty()) == 0);
                        } else {
                            let upd = crate::disk_v2::SegModel {
                                id: pre.segs.last().id,
                                records: pre.segs.last().records.push(e@),
                            };
                            crate::disk_v2::lemma_recs_bytes_push(pre.segs.last().records, e@);
                            crate::disk_v2::lemma_disk_bytes_update_last(pre.segs, upd);
                        }
                    } else {
                        assert(final(self).queue_p() =~~= old(self).queue_p());
                    }
                }
                r
            },
        }
    }

    /// Pops the oldest enqueued event, moving it to in-flight.
    pub fn pop(&mut self) -> (r: Option<Event>)
        requires
            old(self).wf(),
        ensures
            final(self).wf(),
            final(self).shape() == old(self).shape(),
            r is Some <==> old(self).queue_p().len() > 0,
            r matches Some(ev) ==> {
                &&& ev@ == old(self).queue_p()[0]
                &&& final(self).queue_p() == old(self).queue_p().drop_first()
                &&& final(self).in_flight() == old(self).in_flight() + 1
            },
            r is None ==> *final(self) == *old(self),
            final(self).accepted() == old(self).accepted(),
            final(self).dropped() == old(self).dropped(),
            final(self).acked() == old(self).acked(),
            final(self).next_id_c() == old(self).next_id_c(),
            final(self).stored_bytes() == old(self).stored_bytes(),
    {
        match self {
            Stage::Memory(m) => {
                let r = m.pop();
                proof {
                    if r is Some {
                        assert(final(self).queue_p() =~~= old(self).queue_p().drop_first());
                    }
                }
                r
            },
            Stage::DiskV1(d) => {
                let ghost pre = d@;
                let r = d.pop();
                proof {
                    if r is Some {
                        assert(final(self).queue_p() =~~= old(self).queue_p().drop_first());
                        crate::disk_v1::lemma_seq_bytes_push(pre.unacked, pre.queue[0]);
                        crate::disk_v1::lemma_seq_bytes_first(pre.queue);
                        assert(pre.queue.drop_first() =~= pre.queue.subrange(
                            1,
                            pre.queue.len() as int,
                        ));
                    }
                }
                r
            },
            Stage::DiskV2(d) => {
                let r = d.pop();
                proof {
                    if r is Some {
                        assert(final(self).queue_p() =~~= old(self).queue_p().drop_first());
                    }
                }
                r
            },
        }
    }

    /// Releases the oldest in-flight event, if any.
    pub fn ack_one(&mut self)
        requires
            old(self).wf(),
        ensures
            final(self).wf(),
            final(self).shape() == old(self).shape(),
            old(self).in_flight() > 0 ==> {
                &&& final(self).in_flight() == old(self).in_flight() - 1
                &&& final(self).acked() == old(self).acked() + 1
            },
            old(self).in_flight() == 0 ==> {
                &&& final(self).in_flight() == 0
                &&& final(self).acked() == old(self).acked()
            },
            final(self).accepted() == old(self).accepted(),
            final(self).dropped() == old(self).dropped(),
            final(self).next_id_c() == old(self).next_id_c(),
            0 <= final(self).stored_bytes() <= old(self).stored_bytes(),
            stage_acked(*old(self), *final(self), 1),
    {
        match self {
            Stage::Memory(m) => {
                m.ack(1);
            },
            Stage::DiskV1(d) => {
                let ghost pre = *d;
                d.ack(1);
                proof {
                    assert(pre@.ack_tr(1) == pre@.ack1_tr().ack_tr(0));
                    assert(pre@.ack1_tr().ack_tr(0) == pre@.ack1_tr());
                    crate::disk_v1::lemma_seq_bytes_nonneg(pre@.queue);
                    crate::disk_v1::lemma_seq_bytes_nonneg(pre@.unacked);
                    crate::disk_v1::lemma_seq_bytes_nonneg(d@.unacked);
                    crate::disk_v1::lemma_seq_bytes_nonneg(d@.queue);
                    if pre@.unacked.len() > 0 {
                        crate::disk_v1::lemma_seq_bytes_first(pre@.unacked);
                    }
                }
            },
            Stage::DiskV2(d) => {
                let ghost pre = *d;
                d.ack(1);
                proof {
                    assert(pre@.ack_tr(1) == pre@.ack1_tr().ack_tr(0));
                    assert(pre@.ack1_tr().ack_tr(0) == pre@.ack1_tr());
                    crate::disk_v2::lemma_disk_bytes_nonneg(pre@.segs);
                    crate::disk_v2::lemma_disk_bytes_nonneg(d@.segs);
                    if pre@.segs.len() > 0 {
                        crate::disk_v2::lemma_recs_bytes_nonneg(pre@.segs[0].records);
                    }
                }
            },
        }
    }
}

/// Where a push of this payload resolves in the chain, starting at stage
/// `i`: the first stage that either has room, or is full without handing
/// the event onward — its policy is not `overflow`, or no stage follows.
pub open spec fn resolve_from(stages: Seq<Stage>, p: Seq<u8>, i: int) -> int
    decreases stages.len() - i,
{
    if i < 0 || i >= stages.len() {
        0
    } else if stages[i].can_accept(p) || !(stages[i].policy() is Overflow) || i + 1
        >= stages.len() {
        i
    } else {
        resolve_from(stages, p, i + 1)
    }
}

pub proof fn lemma_resolve_bounds(stages: Seq<Stage>, p: Seq<u8>, i: int)
    requires
        0 <= i < stages.len(),
    ensures
        i <= resolve_from(stages, p, i) < stages.len(),
    decreases stages.len() - i,
{
    if !(stages[i].can_accept(p) || !(stages[i].policy() is Overflow) || i + 1 >= stages.len()) {
        lemma_resolve_bounds(stages, p, i + 1);
    }
}

/// A stage after `k` single-event acknowledgements.
pub open spec fn stage_acked(pre: Stage, post: Stage, k: int) -> bool {
    match (pre, post) {
        (Stage::Memory(a), Stage::Memory(b)) => b@ == a@.ack_tr(k),
        (Stage::DiskV1(a), Stage::DiskV1(b)) => b@ == a@.ack_tr(k),
        (Stage::DiskV2(a), Stage::DiskV2(b)) => b@ == a@.ack_tr(k),
        _ => false,
    }
}

/// Two acknowledgement runs on one stage compose into their sum.
pub proof fn lemma_stage_acked_chain(a: Stage, b: Stage, c: Stage, k: int, m: int)
    requires
        a.wf(),
        stage_acked(a, b, k),
        stage_acked(b, c, m),
        0 <= k,
        0 <= m,
    ensures
        stage_acked(a, c, k + m),
{
    match (a, b, c) {
        (Stage::Memory(x), Stage::Memory(y), Stage::Memory(z)) => {
            crate::memory::lemma_ack_chain(x@, k, m);
        },
        (Stage::DiskV1(x), Stage::DiskV1(y), Stage::DiskV1(z)) => {
            crate::disk_v1::lemma_ack_additive_v1(x@, k, m);
        },
        (Stage::DiskV2(x), Stage::DiskV2(y), Stage::DiskV2(z)) => {
            crate::disk_v2::lemma_ack_additive_v2(x@, k, m);
        },
        _ => {},
    }
}

pub proof fn lemma_count_val_concat(a: Seq<usize>, b: Seq<usize>, v: usize)
    ensures
        count_val(a + b, v) == count_val(a, v) + count_val(b, v),
    decreases a.len(),
{
    if a.len() == 0 {
        assert(a + b =~= b);
    } else {
        assert((a + b)[0] == a[0]);
        assert((a + b).drop_first() =~= a.drop_first() + b);
        lemma_count_val_concat(a.drop_first(), b, v);
    }
}

/// Acknowledging in two batches equals acknowledging once with their sum,
/// at the whole topology: from `ack`'s contract alone, the stage states
/// after `ack(n)` then `ack(m)` are the states after one `ack(n + m)`, and
/// the released origins agree (`lemma_ack_origins_additive`).
pub proof fn lemma_ack_batches_compose(
    ss: Seq<Stage>,
    o: Seq<usize>,
    mid: Seq<Stage>,
    fin: Seq<Stage>,
    n: int,
    m: int,
)
    requires
        0 <= n,
        0 <= m,
        mid.len() == ss.len(),
        fin.len() == ss.len(),
        forall|i: int| 0 <= i < ss.len() ==> (#[trigger] ss[i]).wf(),
        forall|s: usize| s < ss.len() ==> stage_acked(
            ss[s as int],
            (#[trigger] mid[s as int]),
            count_val(o.take(vstd::math::min(n, o.len() as int)), s),
        ),
        forall|s: usize| s < ss.len() ==> stage_acked(
            mid[s as int],
            (#[trigger] fin[s as int]),
            count_val(
                o.skip(vstd::math::min(n, o.len() as int)).take(
                    vstd::math::min(
                        m,
                        o.skip(vstd::math::min(n, o.len() as int)).len() as int,
                    ),
                ),
                s,
            ),
        ),
    ensures
        forall|s: usize| s < ss.len() ==> stage_acked(
            ss[s as int],
            (#[trigger] fin[s as int]),
            count_val(o.take(vstd::math::min(n + m, o.len() as int)), s),
        ),
{
    let k1 = vstd::math::min(n, o.len() as int);
    let rest = o.skip(k1);
    let k2 = vstd::math::min(m, rest.len() as int);
    assert(o.take(k1 + k2) =~= o.take(k1) + rest.take(k2));
    assert(k1 + k2 == vstd::math::min(n + m, o.len() as int));
    assert forall|s: usize| s < ss.len() implies stage_acked(
        ss[s as int],
        (#[trigger] fin[s as int]),
        count_val(o.take(vstd::math::min(n + m, o.len() as int)), s),
    ) by {
        lemma_count_val_concat(o.take(k1), rest.take(k2), s);
        lemma_count_val_nonneg(o.take(k1), s);
        lemma_count_val_nonneg(rest.take(k2), s);
        lemma_stage_acked_chain(
            ss[s as int],
            mid[s as int],
            fin[s as int],
            count_val(o.take(k1), s),
            count_val(rest.take(k2), s),
        );
    }
}

/// How many entries of `o` hold the value `v`.
pub open spec fn count_val(o: Seq<usize>, v: usize) -> int
    decreases o.len(),
{
    if o.len() == 0 {
        0
    } else {
        (if o[0] == v {
            1int
        } else {
            0int
        }) + count_val(o.drop_first(), v)
    }
}

pub proof fn lemma_count_val_nonneg(o: Seq<usize>, v: usize)
    ensures
        count_val(o, v) >= 0,
    decreases o.len(),
{
    if o.len() > 0 {
        lemma_count_val_nonneg(o.drop_first(), v);
    }
}

pub proof fn lemma_count_val_push(o: Seq<usize>, v: usize, x: usize)
    ensures
        count_val(o.push(x), v) == count_val(o, v) + (if x == v {
            1int
        } else {
            0int
        }),
    decreases o.len(),
{
    assert(count_val(o.push(x), v) == (if o.push(x)[0] == v {
        1int
    } else {
        0int
    }) + count_val(o.push(x).drop_first(), v));
    if o.len() == 0 {
        assert(o.push(x)[0] == x);
        assert(o.push(x).drop_first() =~= Seq::<usize>::empty());
    } else {
        assert(o.push(x)[0] == o[0]);
        assert(o.push(x).drop_first() =~= o.drop_first().push(x));
        lemma_count_val_push(o.drop_first(), v, x);
    }
}

/// The composed buffer topology: the ordered chain of stages, with the
/// origin bookkeeping that routes acknowledgements back to the stage each
/// popped event came from.
#[derive(Debug)]
pub struct BufferTopology {
    stages: Vec<Stage>,
    /// The stage index each in-flight event was popped from, in pop order.
    origins: Vec<usize>,
}

impl BufferTopology {
    /// The stage models, in order.
    pub closed spec fn stages_view(self) -> Seq<Stage> {
        self.stages@
    }

    /// The origin bookkeeping, in pop order.
    pub closed spec fn origins_view(self) -> Seq<usize> {
        self.origins@
    }

    /// The topology's invariant: a non-empty chain of well-formed stages,
    /// no `overflow` on the terminal stage, and an origin entry per
    /// in-flight event of each stage, in pop order.
    pub open spec fn wf(self) -> bool {
        &&& self.stages_view().len() >= 1
        &&& (forall|i: int| 0 <= i < self.stages_view().len() ==> (
        #[trigger] self.stages_view()[i]).wf())
        &&& !(self.stages_view().last().policy() is Overflow)
        &&& (forall|i: int| 0 <= i < self.origins_view().len() ==> (
        #[trigger] self.origins_view()[i]) < self.stages_view().len())
        &&& (forall|s: usize| s < self.stages_view().len() ==> count_val(self.origins_view(), s)
            == (#[trigger] self.stages_view()[s as int]).in_flight())
    }

    /// Room for every stage's counters to advance.
    pub open spec fn counters_ok(self) -> bool {
        &&& (forall|i: int| 0 <= i < self.stages_view().len() ==> (
        #[trigger] self.stages_view()[i]).counters_ok())
        &&& self.origins_view().len() < usize::MAX
    }

    /// Sends one event into the topology.  The push resolves at the first
    /// stage with room, or at the first full stage that does not hand it
    /// onward (`resolve_from`): with room it is accepted there; without,
    /// `drop_newest` discards it and counts the drop, and any other policy
    /// reports `Full`, on which the producer suspends until room appears.
    /// Every other stage is left exactly as it was, and each counter of the
    /// resolving stage grows by at most one.
    pub fn send(&mut self, e: Event) -> (r: Outcome)
        requires
            old(self).wf(),
            old(self).counters_ok(),
        ensures
            final(self).wf(),
            final(self).stages_view().len() == old(self).stages_view().len(),
            final(self).origins_view() == old(self).origins_view(),
            ({
                let ss = old(self).stages_view();
                let k = resolve_from(ss, e@, 0);
                let post = final(self).stages_view()[k];
                &&& 0 <= k < ss.len()
                &&& (r == Outcome::Accepted <==> ss[k].can_accept(e@))
                &&& (r == Outcome::Dropped <==> !ss[k].can_accept(e@) && ss[k].policy()
                    is DropNewest)
                &&& (r == Outcome::Full <==> !ss[k].can_accept(e@) && !(ss[k].policy()
                    is DropNewest))
                &&& (forall|j: int| 0 <= j < ss.len() && j != k ==> (
                #[trigger] final(self).stages_view()[j]) == ss[j])
                &&& post.shape() == ss[k].shape()
                &&& (r == Outcome::Accepted ==> post.queue_p() == ss[k].queue_p().push(e@)
                    && post.accepted() == ss[k].accepted() + 1 && post.dropped() == ss[k].dropped()
                    && post.in_flight() == ss[k].in_flight() && post.acked() == ss[k].acked())
                &&& (r == Outcome::Dropped ==> post.queue_p() == ss[k].queue_p() && post.dropped()
                    == ss[k].dropped() + 1 && post.accepted() == ss[k].accepted()
                    && post.in_flight() == ss[k].in_flight() && post.acked() == ss[k].acked())
                &&& (r == Outcome::Full ==> post == ss[k])
                &&& post.accepted() <= ss[k].accepted() + 1
                &&& post.dropped() <= ss[k].dropped() + 1
                &&& post.next_id_c() <= ss[k].next_id_c() + 1
                &&& (r == Outcome::Accepted ==> post.stored_bytes() == ss[k].stored_bytes()
                    + ss[k].stored_cost(e@))
                &&& (r != Outcome::Accepted ==> post.stored_bytes() == ss[k].stored_bytes())
            }),
    {
        let ghost ss = old(self).stages_view();
        let n = self.stages.len();
        let mut i: usize = 0;
        let mut ev = e;
        proof {
            lemma_resolve_bounds(ss, e@, 0);
        }
        while i < n
            invariant
                self.wf(),
                self.counters_ok(),
                i < n,
                n == self.stages_view().len(),
                ss == old(self).stages_view(),
                self.stages_view() == ss,
                self.origins_view() == old(self).origins_view(),
                ev@ == e@,
                resolve_from(ss, e@, 0) == resolve_from(ss, e@, i as int),
            decreases n - i,
        {
            let ghost pre = *self;
            let attempt = ev.duplicate();
            let outcome = {
                let st = &mut self.stages[i];
                st.push(attempt)
            };
            proof {
                assert forall|s: usize| s < self.stages_view().len() implies count_val(
                    self.origins_view(),
                    s,
                ) == (#[trigger] self.stages_view()[s as int]).in_flight() by {
                    assert(pre.stages_view()[s as int].in_flight() == self.stages_view()[s
                        as int].in_flight());
                }
            }
            match outcome {
                Outcome::Accepted => {
                    proof {
                        assert(ss[i as int].can_accept(e@));
                        assert(resolve_from(ss, e@, i as int) == i);
                        assert(forall|j: int| 0 <= j < n && j != i ==> (
                        #[trigger] self.stages_view()[j]) == ss[j]);
                    }
                    return Outcome::Accepted;
                },
                Outcome::Dropped => {
                    proof {
                        assert(!ss[i as int].can_accept(e@));
                        assert(ss[i as int].policy() is DropNewest);
                        assert(resolve_from(ss, e@, i as int) == i);
                        assert(forall|j: int| 0 <= j < n && j != i ==> (
                        #[trigger] self.stages_view()[j]) == ss[j]);
                    }
                    return Outcome::Dropped;
                },
                Outcome::Full => {
                    let is_overflow = {
                        let st = &self.stages[i];
                        match st {
                            Stage::Memory(m) => matches!(m.policy(), WhenFull::Overflow),
                            Stage::DiskV1(d) => matches!(d.policy(), WhenFull::Overflow),
                            Stage::DiskV2(d) => matches!(d.policy(), WhenFull::Overflow),
                        }
                    };
                    proof {
                        assert(self.stages_view() =~= pre.stages_view());
                        assert(!ss[i as int].can_accept(e@));
                    }
                    if is_overflow && i + 1 < n {
                        proof {
                            assert(resolve_from(ss, e@, i as int) == resolve_from(
                                ss,
                                e@,
                                i as int + 1,
                            ));
                        }
                        i = i + 1;
                    } else {
                        proof {
                            assert(resolve_from(ss, e@, i as int) == i);
                            assert(!(ss[i as int].policy() is DropNewest));
                            assert(forall|j: int| 0 <= j < n && j != i ==> (
                            #[trigger] self.stages_view()[j]) == ss[j]);
                        }
                        return Outcome::Full;
                    }
                },
            }
        }
        // Unreachable: the loop advances only into a further stage, and the
        // last stage never forwards, so every path returns inside the loop.
        proof {
            assert(false);
        }
        Outcome::Full
    }

    /// Receives the next event: the oldest event of the first non-empty
    /// stage, which moves to in-flight.  `None` when every stage is empty.
    pub fn recv(&mut self) -> (r: Option<Event>)
        requires
            old(self).wf(),
            old(self).counters_ok(),
        ensures
            final(self).wf(),
            final(self).stages_view().len() == old(self).stages_view().len(),
            r is None ==> forall|j: int| 0 <= j < old(self).stages_view().len() ==> (
            #[trigger] old(self).stages_view()[j]).queue_p().len() == 0,
            r is None ==> *final(self) == *old(self),
            final(self).origins_view().len() <= old(self).origins_view().len() + 1,
            r matches Some(ev) ==> exists|k: int|
                {
                    let pre = old(self).stages_view()[k];
                    let post = final(self).stages_view()[k];
                    &&& 0 <= k < old(self).stages_view().len()
                    &&& pre.queue_p().len() > 0
                    &&& ev@ == (#[trigger] old(self).stages_view()[k]).queue_p()[0]
                    &&& post.queue_p() == pre.queue_p().drop_first()
                    &&& post.in_flight() == pre.in_flight() + 1
                    &&& post.accepted() == pre.accepted()
                    &&& post.dropped() == pre.dropped()
                    &&& post.acked() == pre.acked()
                    &&& post.shape() == pre.shape()
                    &&& (forall|j: int| 0 <= j < old(self).stages_view().len() && j != k ==> (
                    #[trigger] final(self).stages_view()[j]) == old(self).stages_view()[j])
                    &&& forall|j: int| 0 <= j < k ==> (#[trigger] old(
                        self,
                    ).stages_view()[j]).queue_p().len() == 0
                    &&& final(self).origins_view() == old(self).origins_view().push(k as usize)
                },
    {
        let n = self.stages.len();
        let mut i: usize = 0;
        while i < n
            invariant
                self.wf(),
                self.counters_ok(),
                i <= n,
                n == self.stages_view().len(),
                n == old(self).stages_view().len(),
                *self == *old(self),
                forall|j: int| 0 <= j < i ==> (#[trigger] self.stages_view()[j]).queue_p().len()
                    == 0,
            decreases n - i,
        {
            let has_events = {
                let st = &self.stages[i];
                match st {
                    Stage::Memory(m) => m.len_events() > 0,
                    Stage::DiskV1(d) => d.len_events() > 0,
                    Stage::DiskV2(d) => d.len_events() > 0,
                }
            };
            if has_events {
                let ghost pre = *self;
                let r = {
                    let st = &mut self.stages[i];
                    st.pop()
                };
                let ev = match r {
                    Some(ev) => ev,
                    None => {
                        proof {
                            assert(false);
                        }
                        return None;
                    },
                };
                self.origins.push(i);
                proof {
                    assert forall|s: usize| s < self.stages_view().len() implies count_val(
                        self.origins_view(),
                        s,
                    ) == (#[trigger] self.stages_view()[s as int]).in_flight() by {
                        lemma_count_val_push(pre.origins_view(), s, i);
                    }
                    assert(forall|j: int| 0 <= j < n && j != i ==> (
                    #[trigger] self.stages_view()[j]) == old(self).stages_view()[j]);
                }
                return Some(ev);
            }
            i = i + 1;
        }
        None
    }

    /// Releases the `n` oldest in-flight events, each against the stage it
    /// was popped from, in pop order.  Non-suspending; `ack(0)` is a no-op,
    /// no more than the in-flight events are released, and each stage ends
    /// as its own acknowledgement transition leaves it after releasing
    /// exactly its share of the batch — so batches compose, and a batch of
    /// zero changes nothing.
    pub fn ack(&mut self, n: u64)
        requires
            old(self).wf(),
        ensures
            final(self).wf(),
            final(self).stages_view().len() == old(self).stages_view().len(),
            final(self).origins_view() == old(self).origins_view().skip(
                vstd::math::min(n as int, old(self).origins_view().len() as int),
            ),
            forall|s: usize| s < old(self).stages_view().len() ==> stage_acked(
                old(self).stages_view()[s as int],
                (#[trigger] final(self).stages_view()[s as int]),
                count_val(
                    old(self).origins_view().take(
                        vstd::math::min(n as int, old(self).origins_view().len() as int),
                    ),
                    s,
                ),
            ),
    {
        let ghost o0 = self.origins_view();
        let ghost ss = old(self).stages_view();
        proof {
            assert(o0.skip(0) =~= o0);
            assert(o0.take(0) =~= Seq::<usize>::empty());
            assert forall|s: usize| s < ss.len() implies stage_acked(
                ss[s as int],
                (#[trigger] self.stages_view()[s as int]),
                count_val(o0.take(0), s),
            ) by {
                assert(count_val(Seq::<usize>::empty(), s) == 0);
            }
        }
        let mut j: u64 = 0;
        while j < n
            invariant
                self.wf(),
                j <= n,
                o0 == old(self).origins_view(),
                ss == old(self).stages_view(),
                forall|i: int| 0 <= i < ss.len() ==> (#[trigger] ss[i]).wf(),
                self.stages_view().len() == ss.len(),
                j <= o0.len(),
                self.origins_view() == o0.skip(j as int),
                forall|s: usize| s < ss.len() ==> stage_acked(
                    ss[s as int],
                    (#[trigger] self.stages_view()[s as int]),
                    count_val(o0.take(j as int), s),
                ),
            decreases n - j,
        {
            if self.origins.len() == 0 {
                proof {
                    assert(self.origins_view().len() == 0);
                    assert(o0.skip(j as int).len() == o0.len() - j);
                    assert(o0.len() == j);
                    assert(vstd::math::min(n as int, o0.len() as int) == j as int);
                    assert(o0.skip(vstd::math::min(n as int, o0.len() as int)) =~= self
                        .origins_view());
                }
                return ;
            }
            let ghost prev = self.origins_view();
            let o = self.origins.remove(0);
            let ghost mid = *self;
            proof {
                lemma_count_val_nonneg(prev.drop_first(), o);
                assert(count_val(prev, o) == 1 + count_val(prev.drop_first(), o));
                assert(self.origins_view() =~= prev.drop_first());
                assert(o0[j as int] == o);
            }
            {
                let st = &mut self.stages[o];
                st.ack_one();
            }
            proof {
                assert forall|s: usize| s < self.stages_view().len() implies count_val(
                    self.origins_view(),
                    s,
                ) == (#[trigger] self.stages_view()[s as int]).in_flight() by {
                    assert(count_val(prev, s) == (if prev[0] == s {
                        1int
                    } else {
                        0int
                    }) + count_val(prev.drop_first(), s));
                    if s != o {
                        assert(self.stages_view()[s as int] == mid.stages_view()[s as int]);
                    }
                }
                assert(self.origins_view() =~= o0.skip(j as int + 1));
                assert(o0.take(j as int + 1) =~= o0.take(j as int).push(o));
                assert forall|s: usize| s < ss.len() implies stage_acked(
                    ss[s as int],
                    (#[trigger] self.stages_view()[s as int]),
                    count_val(o0.take(j as int + 1), s),
                ) by {
                    lemma_count_val_push(o0.take(j as int), s, o);
                    lemma_count_val_nonneg(o0.take(j as int), s);
                    if s == o {
                        lemma_stage_acked_chain(
                            ss[s as int],
                            mid.stages_view()[s as int],
                            self.stages_view()[s as int],
                            count_val(o0.take(j as int), s),
                            1,
                        );
                    } else {
                        assert(self.stages_view()[s as int] == mid.stages_view()[s as int]);
                    }
                }
            }
            j = j + 1;
        }
        proof {
            assert(self.origins_view() =~= o0.skip(vstd::math::min(n as int, o0.len() as int)));
            assert(o0.take(vstd::math::min(n as int, o0.len() as int)) =~= o0.take(j as int));
        }
    }

    /// How many stages the topology chains.
    pub fn stage_count(&self) -> (r: usize)
        ensures
            r == self.stages_view().len(),
    {
        self.stages.len()
    }

    /// The drop counter of the stage at `i`.
    pub fn stage_drop_count(&self, i: usize) -> (r: u64)
        requires
            i < self.stages_view().len(),
        ensures
            r == self.stages_view()[i as int].dropped(),
    {
        let st = &self.stages[i];
        match st {
            Stage::Memory(m) => m.drop_count(),
            Stage::DiskV1(d) => d.drop_count(),
            Stage::DiskV2(d) => d.drop_count(),
        }
    }

    /// How many events are enqueued in the stage at `i`.
    pub fn stage_len_events(&self, i: usize) -> (r: u64)
        requires
            i < self.stages_view().len(),
            self.wf(),
        ensures
            r == self.stages_view()[i as int].queue_p().len(),
    {
        let st = &self.stages[i];
        match st {
            Stage::Memory(m) => m.len_events() as u64,
            Stage::DiskV1(d) => d.len_events() as u64,
            Stage::DiskV2(d) => d.len_events(),
        }
    }
}

/// Acknowledging in two batches releases the same origins as one batch
/// with their sum: with each stage's own acknowledgement additive
/// (`lemma_ack_additive`, and its disk counterparts), `ack(n)` then
/// `ack(m)` is equivalent to `ack(n + m)`, and `ack(0)` is a no-op.
pub proof fn lemma_ack_origins_additive(o: Seq<usize>, n: int, m: int)
    requires
        0 <= n,
        0 <= m,
    ensures
        ({
            let k1 = vstd::math::min(n, o.len() as int);
            let rest = o.skip(k1);
            let k2 = vstd::math::min(m, rest.len() as int);
            rest.skip(k2) =~= o.skip(vstd::math::min(n + m, o.len() as int))
        }),
{
    let k1 = vstd::math::min(n, o.len() as int);
    let rest = o.skip(k1);
    let k2 = vstd::math::min(m, rest.len() as int);
    assert(rest.skip(k2) =~= o.skip(k1 + k2));
    assert(k1 + k2 == vstd::math::min(n + m, o.len() as int));
}

/// Accepts stage descriptors in order and assembles the topology.
#[derive(Debug)]
pub struct TopologyBuilder {
    stages: Vec<BufferType>,
}

impl Default for TopologyBuilder {
    /// A builder with no stages yet.
    fn default() -> (r: TopologyBuilder)
        ensures
            r.descriptors() =~= Seq::<BufferType>::empty(),
    {
        TopologyBuilder { stages: Vec::new() }
    }
}

impl TopologyBuilder {
    /// The descriptors added so far, in order.
    pub closed spec fn descriptors(self) -> Seq<BufferType> {
        self.stages@
    }

    /// Adds one validated stage descriptor.
    pub fn stage(&mut self, descriptor: BufferType)
        requires
            descriptor.valid(),
        ensures
            final(self).descriptors() == old(self).descriptors().push(descriptor),
    {
        self.stages.push(descriptor);
    }

    /// Whether a descriptor list repeats a disk variant: two stages of the
    /// same disk variant would contend for the same files.
    pub open spec fn has_duplicate_disk(ds: Seq<BufferType>) -> bool {
        exists|i: int, j: int|
            0 <= i < j < ds.len() && ((ds[i] is DiskV1 && ds[j] is DiskV1) || (ds[i] is DiskV2
                && ds[j] is DiskV2))
    }

    /// The descriptor list with the terminal stage's `overflow` degraded to
    /// `block`: the last stage has nothing to overflow into.
    pub open spec fn degraded(ds: Seq<BufferType>) -> Seq<BufferType> {
        if ds.len() > 0 && ds.last().spec_policy() is Overflow {
            ds.update(
                ds.len() - 1,
                match ds.last() {
                    BufferType::Memory { max_events, .. } => BufferType::Memory {
                        max_events,
                        when_full: WhenFull::Block,
                    },
                    BufferType::DiskV1 { max_size, .. } => BufferType::DiskV1 {
                        max_size,
                        when_full: WhenFull::Block,
                    },
                    BufferType::DiskV2 { max_size, .. } => BufferType::DiskV2 {
                        max_size,
                        when_full: WhenFull::Block,
                    },
                },
            )
        } else {
            ds
        }
    }

    /// A fresh stage built from a descriptor.
    pub open spec fn stage_matches(s: Stage, d: BufferType) -> bool {
        &&& (match d {
            BufferType::Memory { max_events, when_full } => s.shape() == (
                0int,
                when_full,
                max_events as int,
            ),
            BufferType::DiskV1 { max_size, when_full } => s.shape() == (
                1int,
                when_full,
                max_size as int,
            ),
            BufferType::DiskV2 { max_size, when_full } => s.shape() == (
                2int,
                when_full,
                max_size as int,
            ),
        })
        &&& s.queue_p().len() == 0
        &&& s.in_flight() == 0
        &&& s.accepted() == 0
        &&& s.dropped() == 0
        &&& s.next_id_c() == 0
        &&& s.stored_bytes() == 0
    }

    /// Builds the topology: validates that the list is non-empty and
    /// repeats no disk variant, degrades a terminal `overflow` to `block`,
    /// and instantiates each stage, empty.
    pub fn build(self) -> (r: Result<BufferTopology, TopologyError>)
        requires
            forall|i: int| 0 <= i < self.descriptors().len() ==> (
            #[trigger] self.descriptors()[i]).valid(),
        ensures
            self.descriptors().len() == 0 <==> r == Err::<BufferTopology, TopologyError>(
                TopologyError::EmptyTopology,
            ),
            self.descriptors().len() > 0 ==> (Self::has_duplicate_disk(self.descriptors()) <==> r
                == Err::<BufferTopology, TopologyError>(TopologyError::DuplicateDiskStage)),
            r matches Ok(t) ==> {
                &&& t.wf()
                &&& t.counters_ok()
                &&& t.stages_view().len() == self.descriptors().len()
                &&& t.origins_view() == Seq::<usize>::empty()
                &&& forall|i: int| 0 <= i < t.stages_view().len() ==> Self::stage_matches(
                    #[trigger] t.stages_view()[i],
                    Self::degraded(self.descriptors())[i],
                )
            },
    {
        let n = self.stages.len();
        if n == 0 {
            return Err(TopologyError::EmptyTopology);
        }
        let mut seen_v1 = false;
        let mut seen_v2 = false;
        let mut i: usize = 0;
        while i < n
            invariant
                n == self.descriptors().len(),
                i <= n,
                seen_v1 == exists|k: int| 0 <= k < i && (#[trigger] self.descriptors()[k])
                    is DiskV1,
                seen_v2 == exists|k: int| 0 <= k < i && (#[trigger] self.descriptors()[k])
                    is DiskV2,
                forall|a: int, b: int|
                    0 <= a < b < i ==> !((self.descriptors()[a] is DiskV1
                        && self.descriptors()[b] is DiskV1) || (self.descriptors()[a] is DiskV2
                        && self.descriptors()[b] is DiskV2)),
            decreases n - i,
        {
            let d = &self.stages[i];
            match d {
                BufferType::DiskV1 { .. } => {
                    if seen_v1 {
                        return Err(TopologyError::DuplicateDiskStage);
                    }
                    seen_v1 = true;
                },
                BufferType::DiskV2 { .. } => {
                    if seen_v2 {
                        return Err(TopologyError::DuplicateDiskStage);
                    }
                    seen_v2 = true;
                },
                BufferType::Memory { .. } => {},
            }
            i = i + 1;
        }
        proof {
            assert(!Self::has_duplicate_disk(self.descriptors()));
        }
        let mut stages: Vec<Stage> = Vec::new();
        let mut i: usize = 0;
        while i < n
            invariant
                n == self.descriptors().len(),
                n >= 1,
                i <= n,
                stages@.len() == i,
                forall|k: int| 0 <= k < self.descriptors().len() ==> (
                #[trigger] self.descriptors()[k]).valid(),
                forall|k: int| 0 <= k < i ==> (#[trigger] stages@[k]).wf() && stages@[k].counters_ok(),
                forall|k: int| 0 <= k < i ==> Self::stage_matches(
                    #[trigger] stages@[k],
                    Self::degraded(self.descriptors())[k],
                ),
            decreases n - i,
        {
            let d = self.stages[i];
            let terminal = i + 1 == n;
            let policy = {
                let p = match &d {
                    BufferType::Memory { when_full, .. } => *when_full,
                    BufferType::DiskV1 { when_full, .. } => *when_full,
                    BufferType::DiskV2 { when_full, .. } => *when_full,
                };
                if terminal && matches!(p, WhenFull::Overflow) {
                    WhenFull::Block
                } else {
                    p
                }
            };
            let st = match d {
                BufferType::Memory { max_events, .. } => Stage::Memory(
                    MemoryStage::new(max_events, policy),
                ),
                BufferType::DiskV1 { max_size, .. } => Stage::DiskV1(
                    DiskV1Stage::new(max_size, policy),
                ),
                BufferType::DiskV2 { max_size, .. } => Stage::DiskV2(
                    DiskV2Stage::new(max_size, policy),
                ),
            };
            stages.push(st);
            proof {
                assert(Self::stage_matches(stages@[i as int], Self::degraded(self.descriptors())[
                    i as int]));
            }
            i = i + 1;
        }
        let t = BufferTopology { stages, origins: Vec::new() };
        proof {
            assert forall|s: usize| s < t.stages_view().len() implies count_val(
                t.origins_view(),
                s,
            ) == (#[trigger] t.stages_view()[s as int]).in_flight() by {
                assert(count_val(Seq::<usize>::empty(), s) == 0);
            }
            assert(!(t.stages_view().last().policy() is Overflow));
        }
        Ok(t)
    }
}

} // verus!
