//! The second disk-backed stage variant: a segmented log.  The on-disk
//! representation is a sequence of segment files; writes append records to
//! the tail segment, rolling to a new segment when the tail would exceed its
//! target size.  A segment is immutable once rolled, and deleted only when
//! every record in it has been acknowledged.
//!
//! The stage here is the log's state machine over plain byte payloads; the
//! actual files are written from `dump` and read back through `recover`,
//! whose contracts rest on the record codec in `record`.

use vstd::prelude::*;
use crate::{Event, Outcome, WhenFull};
use crate::record::{
    all_fit, encode_all, encode_record, lemma_encode_all_snoc, lemma_parse_fits, parse_records,
    parse_segment, payload_fits,
};

verus! {

/// The target byte size of one segment file; the tail rolls when a record
/// would push it past this.
pub const SEGMENT_TARGET_BYTES: u64 = 65536;

/// One segment of the log: a monotonically numbered, append-only run of
/// records.
pub struct SegModel {
    /// The segment's file number.
    pub id: int,
    /// The payloads of the records in the segment, oldest first.
    pub records: Seq<Seq<u8>>,
}

/// The encoded size of one record: header plus payload.
pub open spec fn rec_bytes(p: Seq<u8>) -> int {
    8 + p.len() as int
}

/// The summed encoded size of a run of records.
pub open spec fn recs_bytes(ps: Seq<Seq<u8>>) -> int
    decreases ps.len(),
{
    if ps.len() == 0 {
        0
    } else {
        rec_bytes(ps[0]) + recs_bytes(ps.drop_first())
    }
}

pub proof fn lemma_recs_bytes_nonneg(ps: Seq<Seq<u8>>)
    ensures
        recs_bytes(ps) >= 0,
    decreases ps.len(),
{
    if ps.len() > 0 {
        lemma_recs_bytes_nonneg(ps.drop_first());
    }
}

pub proof fn lemma_recs_bytes_push(ps: Seq<Seq<u8>>, p: Seq<u8>)
    ensures
        recs_bytes(ps.push(p)) == recs_bytes(ps) + rec_bytes(p),
    decreases ps.len(),
{
    assert(recs_bytes(ps.push(p)) == rec_bytes(ps.push(p)[0]) + recs_bytes(
        ps.push(p).drop_first(),
    ));
    if ps.len() == 0 {
        assert(ps.push(p)[0] == p);
        assert(ps.push(p).drop_first() =~= Seq::<Seq<u8>>::empty());
    } else {
        assert(ps.push(p)[0] == ps[0]);
        assert(ps.push(p).drop_first() =~= ps.drop_first().push(p));
        lemma_recs_bytes_push(ps.drop_first(), p);
    }
}

/// The summed encoded size of the retained segments.
pub open spec fn disk_bytes(segs: Seq<SegModel>) -> int
    decreases segs.len(),
{
    if segs.len() == 0 {
        0
    } else {
        recs_bytes(segs[0].records) + disk_bytes(segs.drop_first())
    }
}

pub proof fn lemma_disk_bytes_nonneg(segs: Seq<SegModel>)
    ensures
        disk_bytes(segs) >= 0,
    decreases segs.len(),
{
    if segs.len() > 0 {
        lemma_recs_bytes_nonneg(segs[0].records);
        lemma_disk_bytes_nonneg(segs.drop_first());
    }
}

/// Every record of every retained segment, oldest first.
pub open spec fn all_events(segs: Seq<SegModel>) -> Seq<Seq<u8>>
    decreases segs.len(),
{
    if segs.len() == 0 {
        Seq::empty()
    } else {
        segs[0].records + all_events(segs.drop_first())
    }
}

/// How many records stand in the first `k` segments.
pub open spec fn prefix_records(segs: Seq<SegModel>, k: int) -> int
    decreases k,
{
    if k <= 0 || segs.len() == 0 {
        0
    } else {
        segs[0].records.len() + prefix_records(segs.drop_first(), k - 1)
    }
}

pub proof fn lemma_prefix_records_all(segs: Seq<SegModel>)
    ensures
        prefix_records(segs, segs.len() as int) == all_events(segs).len(),
    decreases segs.len(),
{
    if segs.len() > 0 {
        lemma_prefix_records_all(segs.drop_first());
    }
}

pub proof fn lemma_prefix_records_le(segs: Seq<SegModel>, k: int)
    requires
        0 <= k <= segs.len(),
    ensures
        0 <= prefix_records(segs, k) <= all_events(segs).len(),
        k < segs.len() ==> prefix_records(segs, k) + segs[k].records.len() <= all_events(
            segs,
        ).len(),
    decreases k,
{
    if segs.len() == 0 {
    } else if k == 0 {
        assert(all_events(segs) == segs[0].records + all_events(segs.drop_first()));
    } else {
        lemma_prefix_records_le(segs.drop_first(), k - 1);
        assert(all_events(segs) == segs[0].records + all_events(segs.drop_first()));
        if k < segs.len() {
            assert(segs.drop_first()[k - 1] == segs[k]);
        }
    }
}

/// The record at global position `prefix_records(segs, k) + off` is record
/// `off` of segment `k`.
pub proof fn lemma_all_events_index(segs: Seq<SegModel>, k: int, off: int)
    requires
        0 <= k < segs.len(),
        0 <= off < segs[k].records.len(),
    ensures
        prefix_records(segs, k) + off < all_events(segs).len(),
        all_events(segs)[prefix_records(segs, k) + off] == segs[k].records[off],
    decreases k,
{
    lemma_prefix_records_le(segs, k);
    let a = segs[0].records;
    let rest = all_events(segs.drop_first());
    assert(all_events(segs) == a + rest);
    if k == 0 {
        assert((a + rest)[off] == a[off]);
    } else {
        lemma_all_events_index(segs.drop_first(), k - 1, off);
        lemma_prefix_records_le(segs.drop_first(), k - 1);
        assert(segs.drop_first()[k - 1] == segs[k]);
        let i = prefix_records(segs, k) + off;
        assert(prefix_records(segs, k) == a.len() + prefix_records(segs.drop_first(), k - 1));
        assert((a + rest)[i] == rest[i - a.len()]);
    }
}

/// The mathematical state of the segmented-log stage.
pub struct DiskV2Model {
    /// Capacity watermark: the summed size of retained segments never
    /// exceeds it.
    pub max_size: int,
    /// The policy applied when a push meets the watermark.
    pub policy: WhenFull,
    /// The target size at which the tail segment rolls.
    pub target_bytes: int,
    /// The retained segments, oldest first.
    pub segs: Seq<SegModel>,
    /// Records already popped, counted from the retained head.
    pub read_pos: int,
    /// Records already acknowledged, counted from the retained head.
    pub acked_pos: int,
    /// The number the next segment file will get.
    pub next_id: int,
    /// Pushes that returned `Accepted`.
    pub accepted: int,
    /// Pops that returned an event.
    pub popped: int,
    /// Events released by acknowledgement.
    pub acked: int,
    /// Events discarded under `drop_newest`.
    pub dropped: int,
    /// Events lost to on-disk corruption, counted at recovery.
    pub lost: int,
}

impl DiskV2Model {
    /// The enqueued records: retained, beyond the read cursor.
    pub open spec fn queue(self) -> Seq<Seq<u8>> {
        all_events(self.segs).skip(self.read_pos)
    }

    /// Events popped but not yet acknowledged.
    pub open spec fn in_flight(self) -> int {
        self.read_pos - self.acked_pos
    }

    /// The stage's invariant.
    pub open spec fn wf(self) -> bool {
        &&& 1 <= self.max_size
        &&& 1 <= self.target_bytes
        &&& disk_bytes(self.segs) <= self.max_size
        &&& 0 <= self.acked_pos <= self.read_pos <= all_events(self.segs).len()
        &&& (forall|i: int| 0 <= i < self.segs.len() ==> (#[trigger] self.segs[i]).records.len()
            > 0)
        &&& (forall|i: int| 0 <= i < self.segs.len() ==> all_fit(
            (#[trigger] self.segs[i]).records,
        ))
        &&& (forall|i: int, j: int|
            0 <= i < j < self.segs.len() ==> (#[trigger] self.segs[i]).id < (
            #[trigger] self.segs[j]).id)
        &&& (forall|i: int| 0 <= i < self.segs.len() ==> 0 <= (#[trigger] self.segs[i]).id
            < self.next_id)
        &&& 0 <= self.next_id
        &&& self.segs.len() > 0 ==> self.acked_pos < self.segs[0].records.len()
        &&& self.accepted == self.popped + (all_events(self.segs).len() - self.read_pos)
        &&& self.popped == self.acked + self.in_flight()
        &&& self.acked_pos <= self.acked
        &&& 0 <= self.acked
        &&& 0 <= self.dropped
        &&& 0 <= self.lost
    }

    /// Whether one more record of this payload fits: its length fits the
    /// record format and its encoded size fits under the watermark.
    pub open spec fn fits(self, p: Seq<u8>) -> bool {
        &&& payload_fits(p)
        &&& disk_bytes(self.segs) + rec_bytes(p) <= self.max_size
    }

    /// Whether the record starts a new segment: the log is empty, or the
    /// tail would exceed its target size.
    pub open spec fn rolls(self, p: Seq<u8>) -> bool {
        ||| self.segs.len() == 0
        ||| recs_bytes(self.segs.last().records) + rec_bytes(p) > self.target_bytes
    }

    /// What a push does to the stage, and what it returns.  An accepted
    /// record is written to the tail segment, durably, before the push
    /// returns.
    pub open spec fn push_tr(self, p: Seq<u8>) -> (DiskV2Model, Outcome) {
        if self.fits(p) {
            let segs = if self.rolls(p) {
                self.segs.push(SegModel { id: self.next_id, records: seq![p] })
            } else {
                self.segs.update(
                    self.segs.len() - 1,
                    SegModel {
                        id: self.segs.last().id,
                        records: self.segs.last().records.push(p),
                    },
                )
            };
            let next_id = if self.rolls(p) {
                self.next_id + 1
            } else {
                self.next_id
            };
            (
                DiskV2Model { segs, next_id, accepted: self.accepted + 1, ..self },
                Outcome::Accepted,
            )
        } else if self.policy is DropNewest {
            (DiskV2Model { dropped: self.dropped + 1, ..self }, Outcome::Dropped)
        } else {
            (self, Outcome::Full)
        }
    }

    /// What a pop does: the read cursor advances past the oldest enqueued
    /// record, which stays on disk, in flight, until acknowledged.
    pub open spec fn pop_tr(self) -> (DiskV2Model, Option<Seq<u8>>) {
        if self.read_pos == all_events(self.segs).len() {
            (self, None)
        } else {
            (
                DiskV2Model { read_pos: self.read_pos + 1, popped: self.popped + 1, ..self },
                Some(all_events(self.segs)[self.read_pos]),
            )
        }
    }

    /// What acknowledging one record does: the acknowledged-through
    /// position advances, and the head segment is deleted once every record
    /// in it is acknowledged.
    pub open spec fn ack1_tr(self) -> DiskV2Model {
        if self.acked_pos >= self.read_pos {
            self
        } else {
            let m = DiskV2Model { acked_pos: self.acked_pos + 1, acked: self.acked + 1, ..self };
            if m.segs.len() > 0 && m.segs[0].records.len() <= m.acked_pos {
                let n0 = m.segs[0].records.len() as int;
                DiskV2Model {
                    segs: m.segs.drop_first(),
                    read_pos: m.read_pos - n0,
                    acked_pos: m.acked_pos - n0,
                    ..m
                }
            } else {
                m
            }
        }
    }

    /// `n` single-record acknowledgements in a row.
    pub open spec fn ack_tr(self, n: int) -> DiskV2Model
        decreases n,
    {
        if n <= 0 {
            self
        } else {
            self.ack1_tr().ack_tr(n - 1)
        }
    }
}

/// Acknowledging in two batches equals acknowledging once with their sum.
pub proof fn lemma_ack_additive_v2(s: DiskV2Model, n: int, m: int)
    requires
        0 <= n,
        0 <= m,
    ensures
        s.ack_tr(n).ack_tr(m) == s.ack_tr(n + m),
    decreases n,
{
    if n > 0 {
        lemma_ack_additive_v2(s.ack1_tr(), n - 1, m);
    }
}

/// `ack(0)` is a no-op.
pub proof fn lemma_ack_zero_v2(s: DiskV2Model)
    ensures
        s.ack_tr(0) == s,
{
}

/// The watermark is honored: a well-formed stage never retains more than
/// `max_size` bytes of segments on disk.
pub proof fn lemma_watermark_v2(s: DiskV2Model)
    requires
        s.wf(),
    ensures
        disk_bytes(s.segs) <= s.max_size,
{
}

/// An accepted push appends its record to the log, whether it rolled a new
/// segment or extended the tail, and moves no cursor.
pub proof fn lemma_push_appends(s: DiskV2Model, p: Seq<u8>)
    requires
        s.wf(),
        s.fits(p),
    ensures
        s.push_tr(p).1 == Outcome::Accepted,
        all_events(s.push_tr(p).0.segs) == all_events(s.segs) + seq![p],
        s.push_tr(p).0.read_pos == s.read_pos,
        s.push_tr(p).0.acked_pos == s.acked_pos,
        s.push_tr(p).0.wf(),
{
    let s1 = s.push_tr(p).0;
    if s.rolls(p) {
        let seg = SegModel { id: s.next_id, records: seq![p] };
        lemma_all_events_snoc(s.segs, seg);
        lemma_disk_bytes_snoc(s.segs, seg);
        assert(recs_bytes(seq![p]) == rec_bytes(seq![p][0]) + recs_bytes(seq![p].drop_first()));
        assert(seq![p][0] == p);
        assert(seq![p].drop_first() =~= Seq::<Seq<u8>>::empty());
        assert(all_events(s1.segs) =~= all_events(s.segs) + seg.records);
        assert(seg.records =~= seq![p]);
        assert forall|i: int, j: int| 0 <= i < j < s1.segs.len() implies (
        #[trigger] s1.segs[i]).id < (#[trigger] s1.segs[j]).id by {
            if j < s1.segs.len() - 1 {
                assert(s1.segs[i] == s.segs[i] && s1.segs[j] == s.segs[j]);
            } else {
                assert(s1.segs[i] == s.segs[i]);
            }
        }
        assert(all_fit(seq![p]));
        assert forall|i: int| 0 <= i < s1.segs.len() implies (#[trigger] s1.segs[i]).records.len()
            > 0 by {
            if i < s1.segs.len() - 1 {
                assert(s1.segs[i] == s.segs[i]);
            }
        }
        assert forall|i: int| 0 <= i < s1.segs.len() implies 0 <= (#[trigger] s1.segs[i]).id
            < s1.next_id by {
            if i < s1.segs.len() - 1 {
                assert(s1.segs[i] == s.segs[i]);
            }
        }
        assert forall|i: int| 0 <= i < s1.segs.len() implies all_fit(
            (#[trigger] s1.segs[i]).records,
        ) by {
            if i < s1.segs.len() - 1 {
                assert(s1.segs[i] == s.segs[i]);
            }
        }
    } else {
        let upd = SegModel { id: s.segs.last().id, records: s.segs.last().records.push(p) };
        lemma_recs_bytes_push(s.segs.last().records, p);
        lemma_disk_bytes_update_last(s.segs, upd);
        assert(upd.records.subrange(0, s.segs.last().records.len() as int) =~= s.segs.last()
            .records);
        lemma_all_events_update_last(s.segs, upd);
        assert(upd.records.skip(s.segs.last().records.len() as int) =~= seq![p]);
        assert(all_events(s1.segs) =~= all_events(s.segs) + seq![p]);
        assert forall|i: int, j: int| 0 <= i < j < s1.segs.len() implies (
        #[trigger] s1.segs[i]).id < (#[trigger] s1.segs[j]).id by {
            assert(s.segs[i].id < s.segs[j].id);
        }
        assert(all_fit(upd.records)) by {
            assert forall|i: int| 0 <= i < upd.records.len() implies payload_fits(
                #[trigger] upd.records[i],
            ) by {
                if i < s.segs.last().records.len() {
                    assert(all_fit(s.segs.last().records));
                    assert(upd.records[i] == s.segs.last().records[i]);
                }
            }
        }
        assert forall|i: int| 0 <= i < s1.segs.len() implies (#[trigger] s1.segs[i]).records.len()
            > 0 by {
            if i < s1.segs.len() - 1 {
                assert(s1.segs[i] == s.segs[i]);
            }
        }
        assert forall|i: int| 0 <= i < s1.segs.len() implies 0 <= (#[trigger] s1.segs[i]).id
            < s1.next_id by {
            if i < s1.segs.len() - 1 {
                assert(s1.segs[i] == s.segs[i]);
            }
        }
        assert forall|i: int| 0 <= i < s1.segs.len() implies all_fit(
            (#[trigger] s1.segs[i]).records,
        ) by {
            if i < s1.segs.len() - 1 {
                assert(s1.segs[i] == s.segs[i]);
            }
        }
        if s.segs.len() > 1 {
            assert(s1.segs[0] == s.segs[0]);
        }
    }
}

/// No spurious reorder within the stage: two accepted pushes stand at the
/// end of the enqueued records in push order, and pops return the head.
pub proof fn lemma_fifo_v2(s0: DiskV2Model, a: Seq<u8>, b: Seq<u8>)
    requires
        s0.wf(),
        s0.fits(a),
        s0.push_tr(a).0.fits(b),
    ensures
        ({
            let q = s0.push_tr(a).0.push_tr(b).0.queue();
            &&& q.len() >= 2
            &&& q[q.len() - 2] == a
            &&& q[q.len() - 1] == b
        }),
{
    let s1 = s0.push_tr(a).0;
    let s2 = s1.push_tr(b).0;
    lemma_push_appends(s0, a);
    lemma_push_appends(s1, b);
    let all2 = all_events(s2.segs);
    assert(all2 =~= all_events(s0.segs) + seq![a] + seq![b]);
    let q = s2.queue();
    assert(q[q.len() - 2] == all2[all2.len() - 2]);
    assert(q[q.len() - 1] == all2[all2.len() - 1]);
}

/// Acknowledgement never touches the enqueued records: it advances the
/// acknowledged-through position and deletes fully acknowledged head
/// segments, both below the read cursor.
pub proof fn lemma_ack1_preserves_queue(s: DiskV2Model)
    requires
        s.wf(),
    ensures
        s.ack1_tr().queue() == s.queue(),
{
    if s.acked_pos < s.read_pos {
        let m = DiskV2Model { acked_pos: s.acked_pos + 1, acked: s.acked + 1, ..s };
        if m.segs.len() > 0 && m.segs[0].records.len() <= m.acked_pos {
            let n0 = m.segs[0].records.len() as int;
            assert(all_events(s.segs) == s.segs[0].records + all_events(s.segs.drop_first()));
            assert(s.ack1_tr().queue() =~= all_events(s.segs.drop_first()).skip(s.read_pos - n0));
            assert(all_events(s.segs.drop_first()).skip(s.read_pos - n0) =~= all_events(
                s.segs,
            ).skip(s.read_pos));
        }
    }
}

/// Conservation for the segmented-log stage: accepted pushes are released,
/// in flight, or enqueued.
pub proof fn lemma_conservation_v2(s: DiskV2Model)
    requires
        s.wf(),
    ensures
        s.accepted == s.acked + s.in_flight() + s.queue().len(),
{
}

/// Round trip: every retained segment's bytes, as `dump` writes them,
/// parse back to exactly its records, with nothing lost.  Disk durability
/// rests on this: after a clean shutdown the records whose writes completed
/// come back in write order.
pub proof fn lemma_dump_parses_back(s: DiskV2Model)
    requires
        s.wf(),
    ensures
        forall|i: int| 0 <= i < s.segs.len() ==> parse_records(
            encode_all((#[trigger] s.segs[i]).records),
        ) == (s.segs[i].records, false),
{
    assert forall|i: int| 0 <= i < s.segs.len() implies parse_records(
        encode_all((#[trigger] s.segs[i]).records),
    ) == (s.segs[i].records, false) by {
        crate::record::lemma_parse_encode_all(s.segs[i].records);
    }
}

/// One on-disk segment of the stage.
#[derive(Debug)]
struct Segment {
    id: u64,
    events: Vec<Event>,
    bytes: u64,
}

impl View for Segment {
    type V = SegModel;

    closed spec fn view(&self) -> SegModel {
        SegModel {
            id: self.id as int,
            records: Seq::new(self.events@.len(), |i: int| self.events@[i]@),
        }
    }
}

/// A bounded, durable FIFO queue over a segmented log.
#[derive(Debug)]
pub struct DiskV2Stage {
    max_size: u64,
    when_full: WhenFull,
    target_bytes: u64,
    segs: Vec<Segment>,
    total_bytes: u64,
    read_pos: u64,
    acked_pos: u64,
    next_id: u64,
    accepted: u64,
    popped: u64,
    acked: u64,
    dropped: u64,
    lost: u64,
}

impl View for DiskV2Stage {
    type V = DiskV2Model;

    closed spec fn view(&self) -> DiskV2Model {
        DiskV2Model {
            max_size: self.max_size as int,
            policy: self.when_full,
            target_bytes: self.target_bytes as int,
            segs: Seq::new(self.segs@.len(), |i: int| self.segs@[i]@),
            read_pos: self.read_pos as int,
            acked_pos: self.acked_pos as int,
            next_id: self.next_id as int,
            accepted: self.accepted as int,
            popped: self.popped as int,
            acked: self.acked as int,
            dropped: self.dropped as int,
            lost: self.lost as int,
        }
    }
}

impl DiskV2Stage {
    /// The per-segment byte counters match the records they hold, and the
    /// stage's byte counter matches their sum.
    pub closed spec fn phys_ok(self) -> bool {
        &&& (forall|i: int| 0 <= i < self.segs@.len() ==> (#[trigger] self.segs@[i]).bytes
            == recs_bytes(self.segs@[i]@.records))
        &&& self.total_bytes == disk_bytes(self@.segs)
    }

    /// The exec stage is well formed when its model is and its byte
    /// counters agree with the model.
    pub open spec fn wf(self) -> bool {
        &&& self@.wf()
        &&& self.phys_ok()
    }

    /// Room for the counters to advance: a machine limit, not a policy.
    pub open spec fn counters_ok(self) -> bool {
        &&& self@.accepted < u64::MAX
        &&& self@.dropped < u64::MAX
        &&& self@.next_id < u64::MAX
    }

    /// Creates an empty stage with the given watermark and policy, with a
    /// fresh log.
    pub fn new(max_size: u64, when_full: WhenFull) -> (r: DiskV2Stage)
        requires
            max_size >= 1,
        ensures
            r.wf(),
            r@.segs =~= Seq::<SegModel>::empty(),
            r@.max_size == max_size,
            r@.policy == when_full,
            r@.target_bytes == SEGMENT_TARGET_BYTES,
            r@.accepted == 0,
            r@.popped == 0,
            r@.acked == 0,
            r@.dropped == 0,
            r@.lost == 0,
            r@.read_pos == 0,
            r@.next_id == 0,
    {
        let r = DiskV2Stage {
            max_size,
            when_full,
            target_bytes: SEGMENT_TARGET_BYTES,
            segs: Vec::new(),
            total_bytes: 0,
            read_pos: 0,
            acked_pos: 0,
            next_id: 0,
            accepted: 0,
            popped: 0,
            acked: 0,
            dropped: 0,
            lost: 0,
        };
        proof {
            assert(r@.segs =~= Seq::<SegModel>::empty());
        }
        r
    }

    /// Pushes one event.  It is accepted, and its record durably appended
    /// to the tail segment, exactly when its encoded size fits under the
    /// byte watermark and the length field; otherwise the outcome follows
    /// the stage's policy.
    pub fn push(&mut self, e: Event) -> (r: Outcome)
        requires
            old(self).wf(),
            old(self).counters_ok(),
        ensures
            final(self).wf(),
            (final(self)@, r) == old(self)@.push_tr(e@),
            r == Outcome::Accepted <==> old(self)@.fits(e@),
            r == Outcome::Accepted ==> all_events(final(self)@.segs) == all_events(
                old(self)@.segs,
            ) + seq![e@],
            r == Outcome::Accepted ==> final(self)@.next_id <= old(self)@.next_id + 1,
            r == Outcome::Full ==> *final(self) == *old(self),
    {
        proof {
            lemma_disk_bytes_nonneg(self@.segs);
        }
        let n = e.byte_size() as u64;
        if n > 0xFFFF_FFFFu64 || 8 + n > self.max_size - self.total_bytes {
            if matches!(self.when_full, WhenFull::DropNewest) {
                self.dropped = self.dropped + 1;
                Outcome::Dropped
            } else {
                Outcome::Full
            }
        } else {
            let sz = 8 + n;
            let ghost pre = self@;
            let roll = if self.segs.len() == 0 {
                true
            } else {
                proof {
                    lemma_seg_bytes_le_total(self@.segs, self@.segs.len() - 1);
                }
                let tl = self.segs.len() - 1;
                self.segs[tl].bytes + sz > self.target_bytes
            };
            if roll {
                let seg = Segment { id: self.next_id, events: vec![e], bytes: sz };
                proof {
                    assert(seg@.records =~= seq![e@]);
                    assert(recs_bytes(seq![e@]) == rec_bytes(seq![e@][0]) + recs_bytes(
                        seq![e@].drop_first(),
                    ));
                    assert(seq![e@][0] == e@);
                    assert(seq![e@].drop_first() =~= Seq::<Seq<u8>>::empty());
                    assert(recs_bytes(Seq::<Seq<u8>>::empty()) == 0);
                }
                self.segs.push(seg);
                self.next_id = self.next_id + 1;
                proof {
                    assert(self@.segs =~~= pre.segs.push(
                        SegModel { id: pre.next_id, records: seq![e@] },
                    ));
                    lemma_disk_bytes_snoc(pre.segs, SegModel { id: pre.next_id, records: seq![e@] });
                    lemma_all_events_snoc(pre.segs, SegModel { id: pre.next_id, records: seq![e@] });
                }
            } else {
                let tl = self.segs.len() - 1;
                proof {
                    lemma_seg_bytes_le_total(self@.segs, tl as int);
                }
                let tail = &mut self.segs[tl];
                tail.events.push(e);
                tail.bytes = tail.bytes + sz;
                proof {
                    let upd = SegModel {
                        id: pre.segs.last().id,
                        records: pre.segs.last().records.push(e@),
                    };
                    assert(self.segs@[tl as int]@.records =~~= upd.records);
                    assert(self@.segs =~~= pre.segs.update(pre.segs.len() - 1, upd));
                    lemma_recs_bytes_push(pre.segs.last().records, e@);
                    lemma_disk_bytes_update_last(pre.segs, upd);
                    assert(upd.records.subrange(0, pre.segs.last().records.len() as int)
                        =~= pre.segs.last().records);
                    lemma_all_events_update_last(pre.segs, upd);
                    assert(upd.records.skip(pre.segs.last().records.len() as int) =~~= seq![e@]);
                }
            }
            self.total_bytes = self.total_bytes + sz;
            self.accepted = self.accepted + 1;
            proof {
                assert(self@ =~~= pre.push_tr(e@).0);
            }
            Outcome::Accepted
        }
    }

    /// Pops the oldest enqueued record.  It stays on disk, in flight, until
    /// acknowledged.
    pub fn pop(&mut self) -> (r: Option<Event>)
        requires
            old(self).wf(),
        ensures
            final(self).wf(),
            final(self)@ == old(self)@.pop_tr().0,
            r is Some <==> old(self)@.queue().len() > 0,
            r matches Some(ev) ==> Some(ev@) == old(self)@.pop_tr().1,
            r is None ==> *final(self) == *old(self),
    {
        proof {
            lemma_prefix_records_all(self@.segs);
        }
        let total = self.accepted - self.popped + self.read_pos;
        if self.read_pos == total {
            proof {
                assert(old(self)@.queue() =~= Seq::<Seq<u8>>::empty());
            }
            return None;
        }
        proof {
            if self@.segs.len() == 0 {
                assert(all_events(self@.segs).len() == 0);
                assert(false);
            }
        }
        let n_segs = self.segs.len();
        let mut k: usize = 0;
        let mut skipped: u64 = 0;
        loop
            invariant
                self.wf(),
                n_segs == self.segs@.len(),
                k < n_segs,
                skipped == prefix_records(self@.segs, k as int),
                skipped <= self.read_pos,
                self@.read_pos < all_events(self@.segs).len(),
            ensures
                k < self.segs@.len(),
                skipped == prefix_records(self@.segs, k as int),
                skipped <= self.read_pos,
                self.read_pos - skipped < self@.segs[k as int].records.len(),
            decreases self.segs@.len() - k,
        {
            let seg_len = self.segs[k].events.len();
            if self.read_pos - skipped < seg_len as u64 {
                break ;
            }
            proof {
                lemma_prefix_records_step(self@.segs, k as int);
                if k + 1 == self.segs@.len() {
                    lemma_prefix_records_all(self@.segs);
                    assert(false);
                }
            }
            skipped = skipped + seg_len as u64;
            k = k + 1;
        }
        let seg_len = self.segs[k].events.len();
        let off = (self.read_pos - skipped) as usize;
        proof {
            lemma_all_events_index(self@.segs, k as int, off as int);
            assert(all_events(self@.segs)[self@.read_pos] == self@.segs[k as int].records[off
                as int]);
        }
        let ev = self.segs[k].events[off].duplicate();
        proof {
            assert(ev@ == self@.segs[k as int].records[off as int]);
        }
        self.read_pos = self.read_pos + 1;
        self.popped = self.popped + 1;
        proof {
            assert(self@ =~~= old(self)@.pop_tr().0);
            assert(Some(ev@) == old(self)@.pop_tr().1);
        }
        Some(ev)
    }

    /// Acknowledges one record, deleting the head segment once every record
    /// in it is acknowledged.  Nothing happens when nothing is in flight.
    fn ack_one(&mut self)
        requires
            old(self).wf(),
        ensures
            final(self).wf(),
            final(self)@ == old(self)@.ack1_tr(),
    {
        if self.acked_pos >= self.read_pos {
            return ;
        }
        self.acked_pos = self.acked_pos + 1;
        self.acked = self.acked + 1;
        proof {
            lemma_prefix_records_all(self@.segs);
            if self@.segs.len() == 0 {
                assert(false);
            }
        }
        let head_len = self.segs[0].events.len() as u64;
        if head_len <= self.acked_pos {
            let seg = self.segs.remove(0);
            proof {
                lemma_recs_bytes_nonneg(seg@.records);
                lemma_disk_bytes_nonneg(self@.segs);
                assert(self@.segs =~~= old(self)@.segs.drop_first());
                lemma_prefix_records_all(old(self)@.segs);
                assert(all_events(old(self)@.segs) =~= old(self)@.segs[0].records + all_events(
                    old(self)@.segs.drop_first(),
                ));
            }
            self.total_bytes = self.total_bytes - seg.bytes;
            self.read_pos = self.read_pos - head_len;
            self.acked_pos = self.acked_pos - head_len;
            proof {
                assert(self@ =~~= old(self)@.ack1_tr());
            }
        } else {
            proof {
                assert(self@ =~~= old(self)@.ack1_tr());
            }
        }
    }

    /// Releases the `n` oldest in-flight records: the acknowledged-through
    /// position advances, and fully acknowledged head segments are deleted.
    /// `ack(0)` changes nothing, and no more than the in-flight records are
    /// released.
    pub fn ack(&mut self, n: u64)
        requires
            old(self).wf(),
        ensures
            final(self).wf(),
            final(self)@ == old(self)@.ack_tr(n as int),
    {
        let mut j: u64 = 0;
        while j < n
            invariant
                j <= n,
                self.wf(),
                self@ == old(self)@.ack_tr(j as int),
            decreases n - j,
        {
            let ghost s_j = old(self)@.ack_tr(j as int);
            proof {
                lemma_ack_additive_v2(old(self)@, j as int, 1);
                assert(s_j.ack_tr(1) == s_j.ack1_tr().ack_tr(0));
                assert(s_j.ack1_tr().ack_tr(0) == s_j.ack1_tr());
            }
            self.ack_one();
            j = j + 1;
        }
    }

    /// How many records are enqueued.
    pub fn len_events(&self) -> (r: u64)
        requires
            self.wf(),
        ensures
            r == self@.queue().len(),
    {
        self.accepted - self.popped
    }

    /// The stage's `when_full` policy.
    pub fn policy(&self) -> (r: WhenFull)
        ensures
            r == self@.policy,
    {
        self.when_full
    }

    /// Bytes of retained segments on disk.
    pub fn len_bytes(&self) -> (r: u64)
        requires
            self.wf(),
        ensures
            r == disk_bytes(self@.segs),
    {
        self.total_bytes
    }

    /// How many records are in flight: popped but not acknowledged.
    pub fn in_flight(&self) -> (r: u64)
        requires
            self.wf(),
        ensures
            r == self@.in_flight(),
    {
        self.read_pos - self.acked_pos
    }

    /// How many records the stage has discarded under `drop_newest`.
    pub fn drop_count(&self) -> (r: u64)
        ensures
            r == self@.dropped,
    {
        self.dropped
    }

    /// How many pushes have been accepted.
    pub fn accepted_count(&self) -> (r: u64)
        ensures
            r == self@.accepted,
    {
        self.accepted
    }

    /// The acknowledged-through position within the retained head: what
    /// the metadata file records, so that a reopened stage can skip the
    /// records a consumer had already released.
    pub fn acked_position(&self) -> (r: u64)
        ensures
            r == self@.acked_pos,
    {
        self.acked_pos
    }

    /// Skips the `n` oldest enqueued records, as consumed and released
    /// before a shutdown: each is popped and acknowledged, and no more than
    /// are enqueued.  A reopened stage applies the metadata's
    /// acknowledged-through position this way.
    pub fn skip_acknowledged(&mut self, n: u64)
        requires
            old(self).wf(),
        ensures
            final(self).wf(),
            final(self)@.queue() == old(self)@.queue().skip(
                vstd::math::min(n as int, old(self)@.queue().len() as int),
            ),
    {
        let ghost q0 = old(self)@.queue();
        let mut j: u64 = 0;
        proof {
            assert(q0.skip(0) =~= q0);
        }
        while j < n
            invariant
                self.wf(),
                j <= n,
                j <= q0.len(),
                q0 == old(self)@.queue(),
                self@.queue() == q0.skip(j as int),
            decreases n - j,
        {
            let ghost pre = self@;
            let r = self.pop();
            if matches!(r, None) {
                proof {
                    assert(q0.len() == j);
                    assert(q0.skip(vstd::math::min(n as int, q0.len() as int)) =~= self@.queue());
                }
                return ;
            }
            proof {
                assert(self@.queue() =~= pre.queue().drop_first());
                assert(pre.queue().drop_first() =~= q0.skip(j as int + 1));
            }
            let ghost mid = self@;
            self.ack(1);
            proof {
                assert(mid.ack_tr(1) == mid.ack1_tr().ack_tr(0));
                assert(mid.ack1_tr().ack_tr(0) == mid.ack1_tr());
                lemma_ack1_preserves_queue(mid);
            }
            j = j + 1;
        }
        proof {
            assert(self@.queue() =~= q0.skip(vstd::math::min(n as int, q0.len() as int)));
        }
    }

    /// How many records were lost to corruption at recovery.
    pub fn lost_count(&self) -> (r: u64)
        ensures
            r == self@.lost,
    {
        self.lost
    }
}

/// The records parsed from a run of segment byte buffers, from index `i`
/// on, concatenated in order.
pub open spec fn parsed_flat_from(d: Seq<Vec<u8>>, i: int) -> Seq<Seq<u8>>
    decreases d.len() - i,
{
    if i < 0 || i >= d.len() {
        Seq::empty()
    } else {
        parse_records(d[i]@).0 + parsed_flat_from(d, i + 1)
    }
}

/// Every complete record recovered from the segment byte buffers, in
/// file-name order.
pub open spec fn parsed_flat(d: Seq<Vec<u8>>) -> Seq<Seq<u8>> {
    parsed_flat_from(d, 0)
}

/// How many of the buffers from index `i` on end in a truncated or corrupt
/// record.
pub open spec fn lost_from(d: Seq<Vec<u8>>, i: int) -> int
    decreases d.len() - i,
{
    if i < 0 || i >= d.len() {
        0
    } else {
        (if parse_records(d[i]@).1 {
            1int
        } else {
            0int
        }) + lost_from(d, i + 1)
    }
}

/// How many segments lost a partial or corrupt tail.
pub open spec fn parsed_lost(d: Seq<Vec<u8>>) -> int {
    lost_from(d, 0)
}

pub proof fn lemma_recs_bytes_concat(a: Seq<Seq<u8>>, b: Seq<Seq<u8>>)
    ensures
        recs_bytes(a + b) == recs_bytes(a) + recs_bytes(b),
    decreases a.len(),
{
    if a.len() == 0 {
        assert(a + b =~= b);
    } else {
        assert((a + b)[0] == a[0]);
        assert((a + b).drop_first() =~= a.drop_first() + b);
        lemma_recs_bytes_concat(a.drop_first(), b);
    }
}

/// The summed size of the retained segments is the summed size of every
/// retained record.
pub proof fn lemma_disk_bytes_flat(segs: Seq<SegModel>)
    ensures
        disk_bytes(segs) == recs_bytes(all_events(segs)),
    decreases segs.len(),
{
    if segs.len() > 0 {
        lemma_disk_bytes_flat(segs.drop_first());
        lemma_recs_bytes_concat(segs[0].records, all_events(segs.drop_first()));
    }
}

/// Each record takes at least its header's bytes.
pub proof fn lemma_recs_bytes_lower(ps: Seq<Seq<u8>>)
    ensures
        recs_bytes(ps) >= 8 * ps.len(),
    decreases ps.len(),
{
    if ps.len() > 0 {
        lemma_recs_bytes_lower(ps.drop_first());
    }
}

impl DiskV2Stage {
    /// The durable image of the stage: for each retained segment, in
    /// file-name order, the bytes its file holds.
    pub fn dump(&self) -> (r: Vec<Vec<u8>>)
        requires
            self.wf(),
        ensures
            r@.len() == self@.segs.len(),
            forall|i: int| 0 <= i < r@.len() ==> (#[trigger] r@[i])@ == encode_all(
                self@.segs[i].records,
            ),
    {
        let mut out: Vec<Vec<u8>> = Vec::new();
        let mut i: usize = 0;
        while i < self.segs.len()
            invariant
                self.wf(),
                i <= self.segs@.len(),
                out@.len() == i,
                forall|p: int| 0 <= p < i ==> (#[trigger] out@[p])@ == encode_all(
                    self@.segs[p].records,
                ),
            decreases self.segs@.len() - i,
        {
            let mut bytes: Vec<u8> = Vec::new();
            let n_events = self.segs[i].events.len();
            let mut j: usize = 0;
            while j < n_events
                invariant
                    self.wf(),
                    0 <= i < self.segs@.len(),
                    n_events == self@.segs[i as int].records.len(),
                    j <= n_events,
                    bytes@ == encode_all(self@.segs[i as int].records.take(j as int)),
                decreases n_events - j,
            {
                let ghost records = self@.segs[i as int].records;
                proof {
                    assert(all_fit(self@.segs[i as int].records));
                    assert(records[j as int] == self.segs@[i as int].events@[j as int]@);
                }
                let mut rec = encode_record(self.segs[i].events[j].bytes.as_slice());
                bytes.append(&mut rec);
                proof {
                    lemma_encode_all_snoc(records.take(j as int), records[j as int]);
                    assert(records.take(j as int + 1) =~~= records.take(j as int).push(
                        records[j as int],
                    ));
                }
                j = j + 1;
            }
            proof {
                assert(self@.segs[i as int].records.take(n_events as int) =~~= self@.segs[i
                    as int].records);
            }
            out.push(bytes);
            i = i + 1;
        }
        out
    }

    /// Rebuilds a stage from segment byte buffers read back from disk, in
    /// file-name order.  Each buffer is parsed up to its last complete
    /// record; a truncated or corrupt tail counts one segment's loss.  The
    /// complete records are replayed, in order, into a fresh log; every one
    /// of them is again enqueued, none in flight.  `None` exactly when the
    /// recovered records no longer fit under the watermark.
    pub fn recover(dumps: Vec<Vec<u8>>, max_size: u64, when_full: WhenFull) -> (r: Option<
        DiskV2Stage,
    >)
        requires
            max_size >= 1,
            dumps@.len() < u64::MAX,
        ensures
            r matches Some(st) ==> {
                &&& st.wf()
                &&& all_events(st@.segs) == parsed_flat(dumps@)
                &&& st@.lost == parsed_lost(dumps@)
                &&& st@.read_pos == 0
                &&& st@.acked_pos == 0
                &&& st@.popped == 0
                &&& st@.acked == 0
                &&& st@.dropped == 0
                &&& st@.accepted == parsed_flat(dumps@).len()
                &&& st@.max_size == max_size
                &&& st@.policy == when_full
            },
            r is Some <==> recs_bytes(parsed_flat(dumps@)) <= max_size,
    {
        let mut st = DiskV2Stage::new(max_size, when_full);
        proof {
            assert(all_events(st@.segs) =~~= Seq::<Seq<u8>>::empty());
            assert(Seq::<Seq<u8>>::empty() + parsed_flat_from(dumps@, 0) =~~= parsed_flat_from(
                dumps@,
                0,
            ));
        }
        let mut i: usize = 0;
        while i < dumps.len()
            invariant
                st.wf(),
                i <= dumps@.len(),
                parsed_flat(dumps@) =~~= all_events(st@.segs) + parsed_flat_from(
                    dumps@,
                    i as int,
                ),
                parsed_lost(dumps@) == st@.lost + lost_from(dumps@, i as int),
                st@.lost <= i,
                st@.read_pos == 0,
                st@.acked_pos == 0,
                st@.popped == 0,
                st@.acked == 0,
                st@.dropped == 0,
                st@.accepted == all_events(st@.segs).len(),
                st@.next_id <= st@.accepted + 1,
                st@.max_size == max_size,
                st@.policy == when_full,
            decreases dumps@.len() - i,
        {
            let (mut ps, lost_here) = parse_segment(dumps[i].as_slice());
            proof {
                lemma_parse_fits(dumps@[i as int]@);
            }
            let ghost full = parse_records(dumps@[i as int]@).0;
            let n_here = ps.len();
            let mut j: usize = 0;
            while j < n_here
                invariant
                    st.wf(),
                    0 <= i < dumps@.len(),
                    n_here == full.len(),
                    j <= n_here,
                    ps.deep_view() =~~= full.skip(j as int),
                    all_fit(full),
                    parsed_flat(dumps@) =~~= all_events(st@.segs) + full.skip(j as int)
                        + parsed_flat_from(dumps@, i as int + 1),
                    parsed_lost(dumps@) == st@.lost + lost_from(dumps@, i as int),
                    st@.lost <= i,
                    st@.read_pos == 0,
                    st@.acked_pos == 0,
                    st@.popped == 0,
                    st@.acked == 0,
                    st@.dropped == 0,
                    st@.accepted == all_events(st@.segs).len(),
                    st@.next_id <= st@.accepted + 1,
                    st@.max_size == max_size,
                    st@.policy == when_full,
                decreases n_here - j,
            {
                let ghost st_pre = st@;
                let ghost ps_pre = ps.deep_view();
                let ghost ps_pre_v = ps@;
                let p = ps.remove(0);
                let ghost pv = p@;
                proof {
                    assert(p.deep_view() == full.skip(j as int)[0]);
                    assert(pv =~= p.deep_view());
                    assert(full.skip(j as int)[0] == full[j as int]);
                    assert(payload_fits(full[j as int]));
                    lemma_disk_bytes_flat(st@.segs);
                    lemma_recs_bytes_lower(all_events(st@.segs));
                    lemma_disk_bytes_nonneg(st@.segs);
                }
                let ev = Event::new(p);
                let outcome = st.push(ev);
                if !matches!(outcome, Outcome::Accepted) {
                    proof {
                        assert(!st_pre.fits(pv));
                        assert(disk_bytes(st_pre.segs) + rec_bytes(pv) > max_size);
                        lemma_recs_bytes_concat(
                            all_events(st_pre.segs) + full.skip(j as int),
                            parsed_flat_from(dumps@, i as int + 1),
                        );
                        lemma_recs_bytes_concat(all_events(st_pre.segs), full.skip(j as int));
                        lemma_recs_bytes_nonneg(parsed_flat_from(dumps@, i as int + 1));
                        assert(recs_bytes(full.skip(j as int)) == rec_bytes(full[j as int])
                            + recs_bytes(full.skip(j as int).drop_first()));
                        lemma_recs_bytes_nonneg(full.skip(j as int).drop_first());
                        assert(recs_bytes(parsed_flat(dumps@)) > max_size);
                    }
                    return None;
                }
                proof {
                    assert(ps@ =~= ps_pre_v.drop_first());
                    assert forall|t: int| 0 <= t < ps@.len() implies #[trigger] ps.deep_view()[t]
                        == full.skip(j as int + 1)[t] by {
                        assert(ps@[t] == ps_pre_v[t + 1]);
                        assert(ps.deep_view()[t] == ps@[t].deep_view());
                        assert(ps_pre[t + 1] == ps_pre_v[t + 1].deep_view());
                        assert(ps_pre[t + 1] == full.skip(j as int)[t + 1]);
                        assert(full.skip(j as int)[t + 1] == full[j as int + 1 + t]);
                        assert(full.skip(j as int + 1)[t] == full[j as int + 1 + t]);
                    }
                    assert(ps.deep_view().len() == full.skip(j as int + 1).len());
                    assert(ps.deep_view() =~~= full.skip(j as int + 1));
                    assert(all_events(st@.segs) =~~= all_events(st_pre.segs) + seq![pv]);
                    assert(full.skip(j as int) =~~= seq![full[j as int]] + full.skip(
                        j as int + 1,
                    ));
                    assert(all_events(st_pre.segs) + full.skip(j as int) + parsed_flat_from(
                        dumps@,
                        i as int + 1,
                    ) =~~= all_events(st@.segs) + full.skip(j as int + 1) + parsed_flat_from(
                        dumps@,
                        i as int + 1,
                    ));
                }
                j = j + 1;
            }
            if lost_here {
                st.lost = st.lost + 1;
            }
            proof {
                assert(full.skip(n_here as int) =~~= Seq::<Seq<u8>>::empty());
                assert(all_events(st@.segs) + Seq::<Seq<u8>>::empty() + parsed_flat_from(
                    dumps@,
                    i as int + 1,
                ) =~~= all_events(st@.segs) + parsed_flat_from(dumps@, i as int + 1));
            }
            i = i + 1;
        }
        proof {
            assert(parsed_flat_from(dumps@, dumps@.len() as int) =~~= Seq::<Seq<u8>>::empty());
            assert(all_events(st@.segs) + Seq::<Seq<u8>>::empty() =~~= all_events(st@.segs));
            lemma_disk_bytes_flat(st@.segs);
        }
        Some(st)
    }
}

/// One retained segment's size never exceeds the summed size.
proof fn lemma_seg_bytes_le_total(segs: Seq<SegModel>, i: int)
    requires
        0 <= i < segs.len(),
    ensures
        recs_bytes(segs[i].records) <= disk_bytes(segs),
    decreases i,
{
    if i == 0 {
        lemma_disk_bytes_nonneg(segs.drop_first());
    } else {
        lemma_recs_bytes_nonneg(segs[0].records);
        lemma_seg_bytes_le_total(segs.drop_first(), i - 1);
        assert(segs.drop_first()[i - 1] == segs[i]);
    }
}

pub proof fn lemma_disk_bytes_snoc(segs: Seq<SegModel>, s: SegModel)
    ensures
        disk_bytes(segs.push(s)) == disk_bytes(segs) + recs_bytes(s.records),
    decreases segs.len(),
{
    assert(disk_bytes(segs.push(s)) == recs_bytes(segs.push(s)[0].records) + disk_bytes(
        segs.push(s).drop_first(),
    ));
    if segs.len() == 0 {
        assert(segs.push(s)[0] == s);
        assert(segs.push(s).drop_first() =~= Seq::<SegModel>::empty());
    } else {
        assert(segs.push(s)[0] == segs[0]);
        assert(segs.push(s).drop_first() =~= segs.drop_first().push(s));
        lemma_disk_bytes_snoc(segs.drop_first(), s);
    }
}

proof fn lemma_all_events_snoc(segs: Seq<SegModel>, s: SegModel)
    ensures
        all_events(segs.push(s)) == all_events(segs) + s.records,
    decreases segs.len(),
{
    if segs.len() == 0 {
        assert(all_events(segs.push(s)) == segs.push(s)[0].records + all_events(
            segs.push(s).drop_first(),
        ));
        assert(segs.push(s)[0] == s);
        assert(segs.push(s).drop_first() =~= Seq::<SegModel>::empty());
        assert(all_events(Seq::<SegModel>::empty()) =~= Seq::<Seq<u8>>::empty());
        assert(s.records + Seq::<Seq<u8>>::empty() =~= s.records);
        assert(all_events(segs) + s.records =~= s.records);
    } else {
        assert(segs.push(s)[0] == segs[0]);
        assert(segs.push(s).drop_first() =~= segs.drop_first().push(s));
        lemma_all_events_snoc(segs.drop_first(), s);
        assert(segs[0].records + (all_events(segs.drop_first()) + s.records) =~= (segs[0].records
            + all_events(segs.drop_first())) + s.records);
    }
}

pub proof fn lemma_disk_bytes_update_last(segs: Seq<SegModel>, s: SegModel)
    requires
        segs.len() > 0,
    ensures
        disk_bytes(segs.update(segs.len() - 1, s)) == disk_bytes(segs) - recs_bytes(
            segs.last().records,
        ) + recs_bytes(s.records),
    decreases segs.len(),
{
    let u = segs.update(segs.len() - 1, s);
    if segs.len() == 1 {
        assert(u[0] == s);
        assert(u.drop_first() =~= Seq::<SegModel>::empty());
        assert(segs.drop_first() =~= Seq::<SegModel>::empty());
    } else {
        assert(u[0] == segs[0]);
        assert(u.drop_first() =~= segs.drop_first().update(segs.drop_first().len() - 1, s));
        lemma_disk_bytes_update_last(segs.drop_first(), s);
        assert(segs.drop_first().last() == segs.last());
    }
}

proof fn lemma_all_events_update_last(segs: Seq<SegModel>, s: SegModel)
    requires
        segs.len() > 0,
        s.records.len() >= segs.last().records.len(),
        s.records.subrange(0, segs.last().records.len() as int) == segs.last().records,
    ensures
        all_events(segs.update(segs.len() - 1, s)) == all_events(segs) + s.records.skip(
            segs.last().records.len() as int,
        ),
    decreases segs.len(),
{
    let u = segs.update(segs.len() - 1, s);
    let tail_new = s.records.skip(segs.last().records.len() as int);
    if segs.len() == 1 {
        assert(u[0] == s);
        assert(u.drop_first() =~= Seq::<SegModel>::empty());
        assert(segs.drop_first() =~= Seq::<SegModel>::empty());
        assert(all_events(u) == u[0].records + all_events(u.drop_first()));
        assert(all_events(segs) == segs[0].records + all_events(segs.drop_first()));
        assert(all_events(Seq::<SegModel>::empty()) =~= Seq::<Seq<u8>>::empty());
        assert(s.records =~~= segs.last().records + tail_new);
        assert(all_events(u) =~~= all_events(segs) + tail_new);
    } else {
        assert(u[0] == segs[0]);
        assert(u.drop_first() =~= segs.drop_first().update(segs.drop_first().len() - 1, s));
        assert(segs.drop_first().last() == segs.last());
        lemma_all_events_update_last(segs.drop_first(), s);
        assert(segs[0].records + (all_events(segs.drop_first()) + tail_new) =~= (segs[0].records
            + all_events(segs.drop_first())) + tail_new);
    }
}

proof fn lemma_prefix_records_step(segs: Seq<SegModel>, k: int)
    requires
        0 <= k < segs.len(),
    ensures
        prefix_records(segs, k + 1) == prefix_records(segs, k) + segs[k].records.len(),
    decreases k,
{
    if k == 0 {
        assert(prefix_records(segs, 1) == segs[0].records.len() + prefix_records(
            segs.drop_first(),
            0,
        ));
    } else {
        lemma_prefix_records_step(segs.drop_first(), k - 1);
        assert(segs.drop_first()[k - 1] == segs[k]);
    }
}

} // verus!
