//! The on-disk record format shared by the disk stages: each record is a
//! little-endian `u32` payload length, a `u32` CRC-32 of the payload, and
//! the payload bytes.  A record whose length overruns the buffer or whose
//! checksum mismatches terminates a segment; the bytes before it parse, the
//! bytes from it on are lost.

use vstd::prelude::*;

verus! {

/// The CRC-32 (IEEE, reflected) generator polynomial.
pub const CRC32_POLY: u32 = 0xEDB8_8320;

/// Bytes of bookkeeping that stand before each record's payload.
pub const RECORD_HEADER_BYTES: u64 = 8;

/// One bit step of the reflected CRC-32.
pub open spec fn crc32_bit(c: u32) -> u32 {
    if c & 1 == 1 {
        (c >> 1) ^ CRC32_POLY
    } else {
        c >> 1
    }
}

/// `k` bit steps of the reflected CRC-32.
pub open spec fn crc32_bits(c: u32, k: nat) -> u32
    decreases k,
{
    if k == 0 {
        c
    } else {
        crc32_bits(crc32_bit(c), (k - 1) as nat)
    }
}

/// Folds the bytes of `b` from index `i` on into the running value `c`.
pub open spec fn crc32_from(b: Seq<u8>, i: int, c: u32) -> u32
    decreases b.len() - i,
{
    if i < 0 || i >= b.len() {
        c
    } else {
        crc32_from(b, i + 1, crc32_bits(c ^ (b[i] as u32), 8))
    }
}

/// The CRC-32 checksum of a byte sequence.
pub open spec fn crc32_spec(b: Seq<u8>) -> u32 {
    !crc32_from(b, 0, 0xFFFF_FFFFu32)
}

/// Computes the CRC-32 checksum of `data`.
pub fn crc32(data: &[u8]) -> (r: u32)
    ensures
        r == crc32_spec(data@),
{
    let mut crc: u32 = 0xFFFF_FFFF;
    let mut i: usize = 0;
    while i < data.len()
        invariant
            i <= data@.len(),
            crc32_from(data@, i as int, crc) == crc32_from(data@, 0, 0xFFFF_FFFFu32),
        decreases data@.len() - i,
    {
        let mut c = crc ^ (data[i] as u32);
        let mut k: usize = 0;
        while k < 8
            invariant
                k <= 8,
                crc32_bits(c, (8 - k) as nat) == crc32_bits(crc ^ (data@[i as int] as u32), 8),
            decreases 8 - k,
        {
            c = if c & 1 == 1 {
                (c >> 1) ^ CRC32_POLY
            } else {
                c >> 1
            };
            k = k + 1;
        }
        crc = c;
        i = i + 1;
    }
    !crc
}

/// The little-endian bytes of a `u32`.
pub open spec fn le32(x: u32) -> Seq<u8> {
    seq![
        (x & 0xFF) as u8,
        ((x >> 8) & 0xFF) as u8,
        ((x >> 16) & 0xFF) as u8,
        ((x >> 24) & 0xFF) as u8,
    ]
}

/// The `u32` read little-endian from the first four bytes of `b`.
pub open spec fn le32_val(b: Seq<u8>) -> u32 {
    (b[0] as u32) | ((b[1] as u32) << 8) | ((b[2] as u32) << 16) | ((b[3] as u32) << 24)
}

/// Reading back the little-endian bytes of `x` yields `x`.
pub proof fn lemma_le32_round_trip(x: u32)
    ensures
        le32_val(le32(x)) == x,
{
    assert((((x & 0xFF) as u8) as u32) | ((((x >> 8) & 0xFF) as u8) as u32) << 8 | ((((x >> 16)
        & 0xFF) as u8) as u32) << 16 | ((((x >> 24) & 0xFF) as u8) as u32) << 24 == x)
        by (bit_vector);
}

/// One encoded record: length, checksum, payload.
pub open spec fn encode_record_spec(p: Seq<u8>) -> Seq<u8> {
    le32(p.len() as u32) + le32(crc32_spec(p)) + p
}

/// A whole segment's bytes: the records encoded in order.
pub open spec fn encode_all(ps: Seq<Seq<u8>>) -> Seq<u8>
    decreases ps.len(),
{
    if ps.len() == 0 {
        Seq::empty()
    } else {
        encode_record_spec(ps[0]) + encode_all(ps.drop_first())
    }
}

/// A payload fits the record format when its length fits the length field.
pub open spec fn payload_fits(p: Seq<u8>) -> bool {
    p.len() <= u32::MAX
}

pub open spec fn all_fit(ps: Seq<Seq<u8>>) -> bool {
    forall|i: int| 0 <= i < ps.len() ==> payload_fits(#[trigger] ps[i])
}

/// Parses a segment's bytes into payloads, reading records until the bytes
/// end.  The second component reports whether trailing bytes were lost: an
/// incomplete header, a length that overruns the buffer, or a checksum
/// mismatch terminates the segment.
pub open spec fn parse_records(b: Seq<u8>) -> (Seq<Seq<u8>>, bool)
    decreases b.len(),
{
    if b.len() == 0 {
        (Seq::empty(), false)
    } else if b.len() < 8 {
        (Seq::empty(), true)
    } else {
        let len = le32_val(b.subrange(0, 4)) as int;
        let crc = le32_val(b.subrange(4, 8));
        if b.len() < 8 + len {
            (Seq::empty(), true)
        } else {
            let payload = b.subrange(8, 8 + len);
            if crc32_spec(payload) != crc {
                (Seq::empty(), true)
            } else {
                let rest = parse_records(b.subrange(8 + len, b.len() as int));
                (seq![payload] + rest.0, rest.1)
            }
        }
    }
}

/// Parsing one well-formed record followed by anything parses the record
/// and goes on with the rest.
pub proof fn lemma_parse_one(p: Seq<u8>, rest: Seq<u8>)
    requires
        payload_fits(p),
    ensures
        parse_records(encode_record_spec(p) + rest) == (
            seq![p] + parse_records(rest).0,
            parse_records(rest).1,
        ),
{
    let b = encode_record_spec(p) + rest;
    assert(b.len() == 8 + p.len() + rest.len());
    assert(b.subrange(0, 4) =~= le32(p.len() as u32));
    assert(b.subrange(4, 8) =~= le32(crc32_spec(p)));
    lemma_le32_round_trip(p.len() as u32);
    lemma_le32_round_trip(crc32_spec(p));
    let len = le32_val(b.subrange(0, 4)) as int;
    assert(len == p.len());
    assert(b.subrange(8, 8 + len) =~= p);
    assert(b.subrange(8 + len, b.len() as int) =~= rest);
}

/// Round trip: a segment built from well-formed payloads parses back to
/// exactly those payloads, with nothing lost.  This is what disk
/// durability rests on: the events whose writes completed come back, in
/// write order.
pub proof fn lemma_parse_encode_all(ps: Seq<Seq<u8>>)
    requires
        all_fit(ps),
    ensures
        parse_records(encode_all(ps)) == (ps, false),
    decreases ps.len(),
{
    if ps.len() == 0 {
        assert(encode_all(ps).len() == 0);
        assert(parse_records(encode_all(ps)) == (Seq::<Seq<u8>>::empty(), false));
        assert(ps =~= Seq::<Seq<u8>>::empty());
    } else {
        lemma_parse_encode_all(ps.drop_first());
        lemma_parse_one(ps[0], encode_all(ps.drop_first()));
        assert(seq![ps[0]] + ps.drop_first() =~= ps);
    }
}

/// Encoding one more record appends its encoding.
pub proof fn lemma_encode_all_snoc(ps: Seq<Seq<u8>>, p: Seq<u8>)
    ensures
        encode_all(ps.push(p)) == encode_all(ps) + encode_record_spec(p),
    decreases ps.len(),
{
    if ps.len() == 0 {
        assert(ps.push(p)[0] == p);
        assert(ps.push(p).drop_first() =~= Seq::<Seq<u8>>::empty());
        assert(encode_all(ps.push(p)) =~= encode_record_spec(p) + encode_all(
            Seq::<Seq<u8>>::empty(),
        ));
        assert(encode_all(ps) + encode_record_spec(p) =~= encode_record_spec(p));
        assert(encode_record_spec(p) + encode_all(Seq::<Seq<u8>>::empty()) =~= encode_record_spec(
            p,
        ));
    } else {
        assert(ps.push(p)[0] == ps[0]);
        assert(ps.push(p).drop_first() =~= ps.drop_first().push(p));
        lemma_encode_all_snoc(ps.drop_first(), p);
        assert(encode_record_spec(ps[0]) + (encode_all(ps.drop_first()) + encode_record_spec(p))
            =~= (encode_record_spec(ps[0]) + encode_all(ps.drop_first())) + encode_record_spec(p));
    }
}

/// Every payload a parse yields fits the record format: its length came
/// from the length field.
pub proof fn lemma_parse_fits(b: Seq<u8>)
    ensures
        all_fit(parse_records(b).0),
    decreases b.len(),
{
    if b.len() >= 8 {
        let len = le32_val(b.subrange(0, 4)) as int;
        let crc = le32_val(b.subrange(4, 8));
        if b.len() >= 8 + len {
            let payload = b.subrange(8, 8 + len);
            if crc32_spec(payload) == crc {
                lemma_parse_fits(b.subrange(8 + len, b.len() as int));
            }
        }
    }
}

/// A strict prefix of one record's encoding — a partial tail write — parses
/// as a loss, yielding no payload.
pub proof fn lemma_parse_partial(q: Seq<u8>, cut: Seq<u8>)
    requires
        payload_fits(q),
        cut.len() < encode_record_spec(q).len(),
        cut =~= encode_record_spec(q).subrange(0, cut.len() as int),
        cut.len() > 0,
    ensures
        parse_records(cut) == (Seq::<Seq<u8>>::empty(), true),
{
    if cut.len() >= 8 {
        assert(cut.subrange(0, 4) =~= le32(q.len() as u32));
        lemma_le32_round_trip(q.len() as u32);
        assert(le32_val(cut.subrange(0, 4)) as int == q.len());
        assert(cut.len() < 8 + q.len());
    }
}

/// A clean log followed by a partial tail write parses to the completed
/// records, and reports the loss.
pub proof fn lemma_parse_truncated(ps: Seq<Seq<u8>>, q: Seq<u8>, cut: Seq<u8>)
    requires
        all_fit(ps),
        payload_fits(q),
        cut.len() < encode_record_spec(q).len(),
        cut =~= encode_record_spec(q).subrange(0, cut.len() as int),
        cut.len() > 0,
    ensures
        parse_records(encode_all(ps) + cut) == (ps, true),
    decreases ps.len(),
{
    if ps.len() == 0 {
        assert(encode_all(ps) + cut =~= cut);
        lemma_parse_partial(q, cut);
        assert(ps =~= Seq::<Seq<u8>>::empty());
    } else {
        lemma_parse_truncated(ps.drop_first(), q, cut);
        assert(encode_all(ps) + cut =~= encode_record_spec(ps[0]) + (encode_all(ps.drop_first())
            + cut));
        lemma_parse_one(ps[0], encode_all(ps.drop_first()) + cut);
        assert(seq![ps[0]] + ps.drop_first() =~= ps);
    }
}

/// Appends the little-endian bytes of `x` to `out`.
fn push_le32(out: &mut Vec<u8>, x: u32)
    ensures
        final(out)@ =~= old(out)@ + le32(x),
{
    proof {
        assert(x & 0xFF < 256 && (x >> 8) & 0xFF < 256 && (x >> 16) & 0xFF < 256 && (x >> 24)
            & 0xFF < 256) by (bit_vector);
    }
    out.push((x & 0xFF) as u8);
    out.push(((x >> 8) & 0xFF) as u8);
    out.push(((x >> 16) & 0xFF) as u8);
    out.push(((x >> 24) & 0xFF) as u8);
}

/// Reads a `u32` little-endian at `pos`.
fn read_le32(bytes: &[u8], pos: usize) -> (r: u32)
    requires
        pos + 4 <= bytes@.len(),
    ensures
        r == le32_val(bytes@.subrange(pos as int, pos as int + 4)),
{
    let n = bytes.len();
    let b0 = *vstd::slice::slice_index_get(bytes, pos) as u32;
    let b1 = *vstd::slice::slice_index_get(bytes, pos + 1) as u32;
    let b2 = *vstd::slice::slice_index_get(bytes, pos + 2) as u32;
    let b3 = *vstd::slice::slice_index_get(bytes, pos + 3) as u32;
    proof {
        let s = bytes@.subrange(pos as int, pos as int + 4);
        assert(s[0] == bytes@[pos as int]);
        assert(s[1] == bytes@[pos as int + 1]);
        assert(s[2] == bytes@[pos as int + 2]);
        assert(s[3] == bytes@[pos as int + 3]);
    }
    let r1 = b1 << 8u32;
    let r2 = b2 << 16u32;
    let r3 = b3 << 24u32;
    b0 | r1 | r2 | r3
}

/// Encodes one record: length, checksum, payload.
pub fn encode_record(payload: &[u8]) -> (r: Vec<u8>)
    requires
        payload_fits(payload@),
    ensures
        r@ =~= encode_record_spec(payload@),
{
    let crc = crc32(payload);
    let mut out: Vec<u8> = Vec::new();
    push_le32(&mut out, payload.len() as u32);
    push_le32(&mut out, crc);
    let mut i: usize = 0;
    while i < payload.len()
        invariant
            i <= payload@.len(),
            out@ =~= le32(payload@.len() as u32) + le32(crc32_spec(payload@)) + payload@.subrange(
                0,
                i as int,
            ),
        decreases payload@.len() - i,
    {
        out.push(*vstd::slice::slice_index_get(payload, i));
        assert(payload@.subrange(0, i + 1) =~= payload@.subrange(0, i as int).push(
            payload@[i as int],
        ));
        i = i + 1;
    }
    assert(payload@.subrange(0, payload@.len() as int) =~= payload@);
    out
}

/// Parses a segment's bytes, returning the complete records' payloads in
/// order and whether trailing bytes were lost.
pub fn parse_segment(bytes: &[u8]) -> (r: (Vec<Vec<u8>>, bool))
    ensures
        r.0.deep_view() == parse_records(bytes@).0,
        r.1 == parse_records(bytes@).1,
{
    let mut acc: Vec<Vec<u8>> = Vec::new();
    let mut pos: usize = 0;
    proof {
        assert(bytes@.subrange(0, bytes@.len() as int) =~= bytes@);
    }
    loop
        invariant
            pos <= bytes@.len(),
            parse_records(bytes@).0 =~~= acc.deep_view() + parse_records(
                bytes@.subrange(pos as int, bytes@.len() as int),
            ).0,
            parse_records(bytes@).1 == parse_records(
                bytes@.subrange(pos as int, bytes@.len() as int),
            ).1,
        decreases bytes@.len() - pos,
    {
        let ghost suffix = bytes@.subrange(pos as int, bytes@.len() as int);
        let remaining = bytes.len() - pos;
        if remaining == 0 {
            assert(suffix.len() == 0);
            assert(acc.deep_view() + parse_records(suffix).0 =~~= acc.deep_view());
            return (acc, false);
        }
        if remaining < 8 {
            assert(suffix.len() < 8 && suffix.len() > 0);
            assert(acc.deep_view() + parse_records(suffix).0 =~~= acc.deep_view());
            return (acc, true);
        }
        let len32 = read_le32(bytes, pos);
        let crc_stored = read_le32(bytes, pos + 4);
        proof {
            assert(suffix.subrange(0, 4) =~= bytes@.subrange(pos as int, pos as int + 4));
            assert(suffix.subrange(4, 8) =~= bytes@.subrange(pos as int + 4, pos as int + 8));
        }
        if len32 as u64 > (remaining - 8) as u64 {
            assert(suffix.len() < 8 + le32_val(suffix.subrange(0, 4)));
            assert(acc.deep_view() + parse_records(suffix).0 =~~= acc.deep_view());
            return (acc, true);
        }
        let len = len32 as usize;
        let payload_slice = vstd::slice::slice_subrange(bytes, pos + 8, pos + 8 + len);
        proof {
            assert(suffix.subrange(8, 8 + len as int) =~= bytes@.subrange(
                pos as int + 8,
                pos as int + 8 + len as int,
            ));
        }
        let crc_actual = crc32(payload_slice);
        if crc_actual != crc_stored {
            assert(acc.deep_view() + parse_records(suffix).0 =~~= acc.deep_view());
            return (acc, true);
        }
        let payload = vstd::slice::slice_to_vec(payload_slice);
        let ghost prev = acc.deep_view();
        acc.push(payload);
        proof {
            let next = bytes@.subrange(pos as int + 8 + len as int, bytes@.len() as int);
            assert(suffix.subrange(8 + len as int, suffix.len() as int) =~= next);
            assert(parse_records(suffix).0 =~= seq![suffix.subrange(8, 8 + len as int)]
                + parse_records(next).0);
            assert(acc.deep_view() =~~= prev.push(suffix.subrange(8, 8 + len as int)));
        }
        pos = pos + 8 + len;
    }
}

} // verus!
