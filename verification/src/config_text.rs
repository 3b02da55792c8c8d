//! The declarative configuration text: either a single stage object or an
//! ordered list of stage objects, one `key: value` field per line, a `- `
//! prefix opening each list entry.  Recognized keys are `type`,
//! `max_events`, `max_size` and `when_full`; `type` is `memory`, `disk_v1`
//! or `disk` and defaults to `memory`.  A memory stage rejects `max_size`
//! and defaults `max_events` to 500; a disk stage rejects `max_events` and
//! requires `max_size`.  Unknown keys, duplicate keys and empty input are
//! rejected.  Errors carry the line and the column of the offending field's
//! separator.

use vstd::prelude::*;
use vstd::string::StringSliceAdditionalSpecFns;
use crate::WhenFull;
use crate::config::{BufferConfig, BufferType};

verus! {

/// A recognized field name.
#[derive(Clone, Copy, Debug, PartialEq, Eq, Structural)]
pub enum FieldName {
    Type,
    MaxEvents,
    MaxSize,
    WhenFull,
}

/// Which field set a rejection names: every recognized key, a memory
/// stage's keys, or a disk stage's keys.
#[derive(Clone, Copy, Debug, PartialEq, Eq, Structural)]
pub enum FieldSet {
    All,
    MemoryFields,
    DiskFields,
}

/// Why configuration text was rejected.
#[derive(Clone, Debug, PartialEq, Eq)]
pub enum ConfigParseError {
    /// The input holds no stage object at all.
    Eof,
    /// A non-empty line without a `key: value` shape.
    InvalidLine { line: u64, col: u64 },
    /// A key that is not one of the recognized fields.
    UnknownKey { key: String, line: u64, col: u64 },
    /// A recognized field that this stage type rejects.
    UnknownField { field: FieldName, expected: FieldSet, line: u64, col: u64 },
    /// A field given twice in one stage.
    DuplicateField { field: FieldName, line: u64, col: u64 },
    /// A required field that is absent.
    MissingField { field: FieldName },
    /// A sizing value that is not a positive integer.
    InvalidValue { field: FieldName, line: u64, col: u64 },
    /// A `type` or `when_full` value outside its variants.
    UnknownVariant { field: FieldName, line: u64, col: u64 },
}

/// The decimal digits of `n`, most significant first.
pub open spec fn dec_seq(n: int) -> Seq<char>
    decreases n,
{
    if n < 10 {
        seq![digit_char(n)]
    } else {
        dec_seq(n / 10).push(digit_char(n % 10))
    }
}

/// The character for one decimal digit.
pub open spec fn digit_char(d: int) -> char {
    if d == 0 {
        '0'
    } else if d == 1 {
        '1'
    } else if d == 2 {
        '2'
    } else if d == 3 {
        '3'
    } else if d == 4 {
        '4'
    } else if d == 5 {
        '5'
    } else if d == 6 {
        '6'
    } else if d == 7 {
        '7'
    } else if d == 8 {
        '8'
    } else {
        '9'
    }
}

/// The name of a recognized field, backquoted.
pub open spec fn field_seq(f: FieldName) -> Seq<char> {
    match f {
        FieldName::Type => "`type`"@,
        FieldName::MaxEvents => "`max_events`"@,
        FieldName::MaxSize => "`max_size`"@,
        FieldName::WhenFull => "`when_full`"@,
    }
}

/// The bare name of a recognized field.
pub open spec fn field_bare_seq(f: FieldName) -> Seq<char> {
    match f {
        FieldName::Type => "type"@,
        FieldName::MaxEvents => "max_events"@,
        FieldName::MaxSize => "max_size"@,
        FieldName::WhenFull => "when_full"@,
    }
}

/// The listing of a field set, as a rejection names it.
pub open spec fn set_seq(s: FieldSet) -> Seq<char> {
    match s {
        FieldSet::All => "`type`, `max_events`, `max_size`, `when_full`"@,
        FieldSet::MemoryFields => "`type`, `max_events`, `when_full`"@,
        FieldSet::DiskFields => "`type`, `max_size`, `when_full`"@,
    }
}

/// The position suffix of an error message.
pub open spec fn at_seq(line: int, col: int) -> Seq<char> {
    " at line "@ + dec_seq(line) + " column "@ + dec_seq(col)
}

/// A rejection as mathematics sees it: the same cases as
/// [`ConfigParseError`], an unknown key carried as its decoded text.
pub enum ErrView {
    Eof,
    InvalidLine { line: u64, col: u64 },
    UnknownKey { key: Seq<char>, line: u64, col: u64 },
    UnknownField { field: FieldName, expected: FieldSet, line: u64, col: u64 },
    DuplicateField { field: FieldName, line: u64, col: u64 },
    MissingField { field: FieldName },
    InvalidValue { field: FieldName, line: u64, col: u64 },
    UnknownVariant { field: FieldName, line: u64, col: u64 },
}

/// What a returned rejection means.
pub open spec fn err_view(e: ConfigParseError) -> ErrView {
    match e {
        ConfigParseError::Eof => ErrView::Eof,
        ConfigParseError::InvalidLine { line, col } => ErrView::InvalidLine { line, col },
        ConfigParseError::UnknownKey { key, line, col } => ErrView::UnknownKey {
            key: key@,
            line,
            col,
        },
        ConfigParseError::UnknownField { field, expected, line, col } => ErrView::UnknownField {
            field,
            expected,
            line,
            col,
        },
        ConfigParseError::DuplicateField { field, line, col } => ErrView::DuplicateField {
            field,
            line,
            col,
        },
        ConfigParseError::MissingField { field } => ErrView::MissingField { field },
        ConfigParseError::InvalidValue { field, line, col } => ErrView::InvalidValue {
            field,
            line,
            col,
        },
        ConfigParseError::UnknownVariant { field, line, col } => ErrView::UnknownVariant {
            field,
            line,
            col,
        },
    }
}

/// The rendering of each rejection.
pub open spec fn err_message(e: ErrView) -> Seq<char> {
    match e {
        ErrView::Eof => "EOF while parsing a value"@,
        ErrView::InvalidLine { line, col } => "invalid line"@ + at_seq(line as int, col as int),
        ErrView::UnknownKey { key, line, col } => "unknown field `"@ + key
            + "`, expected one of "@ + set_seq(FieldSet::All) + at_seq(line as int, col as int),
        ErrView::UnknownField { field, expected, line, col } => "unknown field `"@
            + field_bare_seq(field) + "`, expected one of "@ + set_seq(expected) + at_seq(
            line as int,
            col as int,
        ),
        ErrView::DuplicateField { field, line, col } => "duplicate field "@ + field_seq(field)
            + at_seq(line as int, col as int),
        ErrView::MissingField { field } => "missing field "@ + field_seq(field),
        ErrView::InvalidValue { field, line, col } => "invalid value for field "@ + field_seq(
            field,
        ) + at_seq(line as int, col as int),
        ErrView::UnknownVariant { field, line, col } => "unknown variant for field "@ + field_seq(
            field,
        ) + at_seq(line as int, col as int),
    }
}

/// The rendering of a returned rejection.
pub open spec fn message_seq(e: ConfigParseError) -> Seq<char> {
    err_message(err_view(e))
}

/// One decimal digit as text.
fn digit_str(d: u64) -> (r: &'static str)
    requires
        d < 10,
    ensures
        r@ == seq![digit_char(d as int)],
{
    proof {
        reveal_strlit("0");
        reveal_strlit("1");
        reveal_strlit("2");
        reveal_strlit("3");
        reveal_strlit("4");
        reveal_strlit("5");
        reveal_strlit("6");
        reveal_strlit("7");
        reveal_strlit("8");
        reveal_strlit("9");
    }
    if d == 0 {
        "0"
    } else if d == 1 {
        "1"
    } else if d == 2 {
        "2"
    } else if d == 3 {
        "3"
    } else if d == 4 {
        "4"
    } else if d == 5 {
        "5"
    } else if d == 6 {
        "6"
    } else if d == 7 {
        "7"
    } else if d == 8 {
        "8"
    } else {
        "9"
    }
}

/// Renders `n` in decimal.
pub fn u64_to_string(n: u64) -> (r: String)
    ensures
        r@ == dec_seq(n as int),
    decreases n,
{
    if n < 10 {
        String::from_str(digit_str(n))
    } else {
        let mut s = u64_to_string(n / 10);
        s.append(digit_str(n % 10));
        proof {
            assert(dec_seq(n as int) == dec_seq(n as int / 10).push(digit_char(n as int % 10)));
            assert(dec_seq(n as int / 10) + seq![digit_char(n as int % 10)] =~= dec_seq(
                n as int / 10,
            ).push(digit_char(n as int % 10)));
        }
        s
    }
}

impl ConfigParseError {
    /// The rejection rendered for people.
    pub fn message(&self) -> (r: String)
        ensures
            r@ == message_seq(*self),
    {
        match self {
            ConfigParseError::Eof => String::from_str("EOF while parsing a value"),
            ConfigParseError::InvalidLine { line, col } => {
                let mut s = String::from_str("invalid line");
                append_at(&mut s, *line, *col);
                s
            },
            ConfigParseError::UnknownKey { key, line, col } => {
                let mut s = String::from_str("unknown field `");
                s.append(key.as_str());
                s.append("`, expected one of ");
                s.append("`type`, `max_events`, `max_size`, `when_full`");
                append_at(&mut s, *line, *col);
                s
            },
            ConfigParseError::UnknownField { field, expected, line, col } => {
                let mut s = String::from_str("unknown field `");
                s.append(field_bare_str(*field));
                s.append("`, expected one of ");
                s.append(set_str(*expected));
                append_at(&mut s, *line, *col);
                s
            },
            ConfigParseError::DuplicateField { field, line, col } => {
                let mut s = String::from_str("duplicate field ");
                s.append(field_str(*field));
                append_at(&mut s, *line, *col);
                s
            },
            ConfigParseError::MissingField { field } => {
                let mut s = String::from_str("missing field ");
                s.append(field_str(*field));
                s
            },
            ConfigParseError::InvalidValue { field, line, col } => {
                let mut s = String::from_str("invalid value for field ");
                s.append(field_str(*field));
                append_at(&mut s, *line, *col);
                s
            },
            ConfigParseError::UnknownVariant { field, line, col } => {
                let mut s = String::from_str("unknown variant for field ");
                s.append(field_str(*field));
                append_at(&mut s, *line, *col);
                s
            },
        }
    }
}

/// The backquoted name of a field.
fn field_str(f: FieldName) -> (r: &'static str)
    ensures
        r@ == field_seq(f),
{
    match f {
        FieldName::Type => "`type`",
        FieldName::MaxEvents => "`max_events`",
        FieldName::MaxSize => "`max_size`",
        FieldName::WhenFull => "`when_full`",
    }
}

/// The bare name of a field.
fn field_bare_str(f: FieldName) -> (r: &'static str)
    ensures
        r@ == field_bare_seq(f),
{
    match f {
        FieldName::Type => "type",
        FieldName::MaxEvents => "max_events",
        FieldName::MaxSize => "max_size",
        FieldName::WhenFull => "when_full",
    }
}

/// The listing of a field set.
fn set_str(s: FieldSet) -> (r: &'static str)
    ensures
        r@ == set_seq(s),
{
    match s {
        FieldSet::All => "`type`, `max_events`, `max_size`, `when_full`",
        FieldSet::MemoryFields => "`type`, `max_events`, `when_full`",
        FieldSet::DiskFields => "`type`, `max_size`, `when_full`",
    }
}

/// Appends the position suffix.
fn append_at(s: &mut String, line: u64, col: u64)
    ensures
        final(s)@ == old(s)@ + at_seq(line as int, col as int),
{
    s.append(" at line ");
    let l = u64_to_string(line);
    s.append(l.as_str());
    s.append(" column ");
    let c = u64_to_string(col);
    s.append(c.as_str());
}

/// What `String::from_utf8_lossy` decodes a byte run to.
pub uninterp spec fn lossy_of(b: Seq<u8>) -> Seq<char>;

/// Relies on String::from_utf8_lossy: the decoding depends on the bytes
/// alone, invalid sequences replaced; valid UTF-8 decodes as itself.
#[verifier::external_body]
fn lossy_decode(b: &[u8]) -> (r: String)
    ensures
        r@ == lossy_of(b@),
        vstd::utf8::valid_utf8(b@) ==> r@ == vstd::utf8::decode_utf8(b@),
{
    String::from_utf8_lossy(b).into_owned()
}

/// The recognized keywords of the configuration text.
#[derive(Clone, Copy, Debug, PartialEq, Eq, Structural)]
pub enum Kw {
    Type,
    MaxEvents,
    MaxSize,
    WhenFullKey,
    Memory,
    DiskV1,
    Disk,
    Block,
    DropNewest,
    Overflow,
}

/// The bytes of each keyword.
pub open spec fn kw_seq(k: Kw) -> Seq<u8> {
    match k {
        Kw::Type => seq![116u8, 121u8, 112u8, 101u8],
        Kw::MaxEvents => seq![109u8, 97u8, 120u8, 95u8, 101u8, 118u8, 101u8, 110u8, 116u8, 115u8],
        Kw::MaxSize => seq![109u8, 97u8, 120u8, 95u8, 115u8, 105u8, 122u8, 101u8],
        Kw::WhenFullKey => seq![119u8, 104u8, 101u8, 110u8, 95u8, 102u8, 117u8, 108u8, 108u8],
        Kw::Memory => seq![109u8, 101u8, 109u8, 111u8, 114u8, 121u8],
        Kw::DiskV1 => seq![100u8, 105u8, 115u8, 107u8, 95u8, 118u8, 49u8],
        Kw::Disk => seq![100u8, 105u8, 115u8, 107u8],
        Kw::Block => seq![98u8, 108u8, 111u8, 99u8, 107u8],
        Kw::DropNewest => seq![
            100u8,
            114u8,
            111u8,
            112u8,
            95u8,
            110u8,
            101u8,
            119u8,
            101u8,
            115u8,
            116u8,
        ],
        Kw::Overflow => seq![111u8, 118u8, 101u8, 114u8, 102u8, 108u8, 111u8, 119u8],
    }
}

/// The bytes of one keyword, for comparing.
fn kw_bytes(k: Kw) -> (v: Vec<u8>)
    ensures
        v@ =~= kw_seq(k),
{
    let mut v: Vec<u8> = Vec::new();
    match k {
        Kw::Type => {
            v.push(116u8);
            v.push(121u8);
            v.push(112u8);
            v.push(101u8);
        },
        Kw::MaxEvents => {
            v.push(109u8);
            v.push(97u8);
            v.push(120u8);
            v.push(95u8);
            v.push(101u8);
            v.push(118u8);
            v.push(101u8);
            v.push(110u8);
            v.push(116u8);
            v.push(115u8);
        },
        Kw::MaxSize => {
            v.push(109u8);
            v.push(97u8);
            v.push(120u8);
            v.push(95u8);
            v.push(115u8);
            v.push(105u8);
            v.push(122u8);
            v.push(101u8);
        },
        Kw::WhenFullKey => {
            v.push(119u8);
            v.push(104u8);
            v.push(101u8);
            v.push(110u8);
            v.push(95u8);
            v.push(102u8);
            v.push(117u8);
            v.push(108u8);
            v.push(108u8);
        },
        Kw::Memory => {
            v.push(109u8);
            v.push(101u8);
            v.push(109u8);
            v.push(111u8);
            v.push(114u8);
            v.push(121u8);
        },
        Kw::DiskV1 => {
            v.push(100u8);
            v.push(105u8);
            v.push(115u8);
            v.push(107u8);
            v.push(95u8);
            v.push(118u8);
            v.push(49u8);
        },
        Kw::Disk => {
            v.push(100u8);
            v.push(105u8);
            v.push(115u8);
            v.push(107u8);
        },
        Kw::Block => {
            v.push(98u8);
            v.push(108u8);
            v.push(111u8);
            v.push(99u8);
            v.push(107u8);
        },
        Kw::DropNewest => {
            v.push(100u8);
            v.push(114u8);
            v.push(111u8);
            v.push(112u8);
            v.push(95u8);
            v.push(110u8);
            v.push(101u8);
            v.push(119u8);
            v.push(101u8);
            v.push(115u8);
            v.push(116u8);
        },
        Kw::Overflow => {
            v.push(111u8);
            v.push(118u8);
            v.push(101u8);
            v.push(114u8);
            v.push(102u8);
            v.push(108u8);
            v.push(111u8);
            v.push(119u8);
        },
    }
    v
}

/// Whether the byte range equals one keyword.
fn range_is(b: &[u8], start: usize, end: usize, k: Kw) -> (r: bool)
    requires
        start <= end <= b@.len(),
    ensures
        r <==> b@.subrange(start as int, end as int) == kw_seq(k),
{
    let lit = kw_bytes(k);
    if end - start != lit.len() {
        proof {
            assert(b@.subrange(start as int, end as int).len() != kw_seq(k).len());
        }
        return false;
    }
    let m = lit.len();
    let mut i: usize = 0;
    while i < m
        invariant
            start <= end <= b@.len(),
            end - start == m,
            m == kw_seq(k).len(),
            m == lit@.len(),
            lit@ =~= kw_seq(k),
            i <= m,
            forall|j: int| 0 <= j < i ==> b@[start + j] == kw_seq(k)[j],
        decreases m - i,
    {
        if *vstd::slice::slice_index_get(b, start + i) != lit[i] {
            proof {
                assert(b@.subrange(start as int, end as int)[i as int] != kw_seq(k)[i as int]);
            }
            return false;
        }
        i = i + 1;
    }
    proof {
        assert(b@.subrange(start as int, end as int) =~= kw_seq(k));
    }
    true
}

/// Whitespace inside a line.
pub open spec fn is_ws(c: u8) -> bool {
    c == 32u8 || c == 9u8 || c == 13u8
}

/// Where the first occurrence of `t` in `[i, end)` stands, or `end`.
pub open spec fn find_from(b: Seq<u8>, i: int, end: int, t: u8) -> int
    decreases end - i,
{
    if i < 0 || i >= end {
        end
    } else if b[i] == t {
        i
    } else {
        find_from(b, i + 1, end, t)
    }
}

pub proof fn lemma_find_from_bounds(b: Seq<u8>, i: int, end: int, t: u8)
    requires
        0 <= i <= end,
    ensures
        i <= find_from(b, i, end, t) <= end,
    decreases end - i,
{
    if i < end && b[i] != t {
        lemma_find_from_bounds(b, i + 1, end, t);
    }
}

/// The first occurrence of `t` in `[start, end)`, if any.
fn find_byte(b: &[u8], start: usize, end: usize, t: u8) -> (r: Option<usize>)
    requires
        start <= end <= b@.len(),
    ensures
        r matches Some(k) ==> start <= k < end && b@[k as int] == t && forall|j: int|
            start <= j < k ==> b@[j] != t,
        r is None ==> forall|j: int| start <= j < end ==> b@[j] != t,
        r matches Some(k) ==> k == find_from(b@, start as int, end as int, t),
        r is None ==> find_from(b@, start as int, end as int, t) == end,
{
    let mut i = start;
    while i < end
        invariant
            start <= i <= end <= b@.len(),
            forall|j: int| start <= j < i ==> b@[j] != t,
            find_from(b@, start as int, end as int, t) == find_from(b@, i as int, end as int, t),
        decreases end - i,
    {
        if *vstd::slice::slice_index_get(b, i) == t {
            return Some(i);
        }
        i = i + 1;
    }
    None
}

/// Where the content starts: the first non-whitespace index in `[i, end)`,
/// or `end`.
pub open spec fn trim_lo(b: Seq<u8>, i: int, end: int) -> int
    decreases end - i,
{
    if i < 0 || i >= end {
        end
    } else if !is_ws(b[i]) {
        i
    } else {
        trim_lo(b, i + 1, end)
    }
}

/// Where the content ends: past the last non-whitespace index in
/// `[lo, e)`, or `lo`.
pub open spec fn trim_hi(b: Seq<u8>, lo: int, e: int) -> int
    decreases e - lo,
{
    if e <= lo {
        lo
    } else if !is_ws(b[e - 1]) {
        e
    } else {
        trim_hi(b, lo, e - 1)
    }
}

/// Strips whitespace from both ends of `[start, end)`.
fn trim_range(b: &[u8], start: usize, end: usize) -> (r: (usize, usize))
    requires
        start <= end <= b@.len(),
    ensures
        start <= r.0 <= r.1 <= end,
        r.0 < r.1 ==> !is_ws(b@[r.0 as int]) && !is_ws(b@[r.1 - 1]),
        forall|j: int| start <= j < r.0 ==> is_ws(#[trigger] b@[j]),
        forall|j: int| r.1 <= j < end ==> is_ws(#[trigger] b@[j]),
        r.0 == trim_lo(b@, start as int, end as int),
        r.1 == trim_hi(b@, r.0 as int, end as int),
{
    let mut s = start;
    let mut e = end;
    while s < e && is_ws_byte(*vstd::slice::slice_index_get(b, s))
        invariant
            start <= s <= e <= end <= b@.len(),
            e == end,
            forall|j: int| start <= j < s ==> is_ws(#[trigger] b@[j]),
            trim_lo(b@, start as int, end as int) == trim_lo(b@, s as int, end as int),
        decreases e - s,
    {
        s = s + 1;
    }
    proof {
        assert(s == trim_lo(b@, start as int, end as int));
    }
    while s < e && is_ws_byte(*vstd::slice::slice_index_get(b, e - 1))
        invariant
            start <= s <= e <= end <= b@.len(),
            s < e ==> !is_ws(b@[s as int]),
            forall|j: int| e <= j < end ==> is_ws(#[trigger] b@[j]),
            trim_hi(b@, s as int, end as int) == trim_hi(b@, s as int, e as int),
        decreases e - s,
    {
        e = e - 1;
    }
    (s, e)
}

fn is_ws_byte(c: u8) -> (r: bool)
    ensures
        r == is_ws(c),
{
    c == 32u8 || c == 9u8 || c == 13u8
}

/// Whether a byte run holds decimal digits only.
pub open spec fn all_digits(s: Seq<u8>) -> bool {
    forall|i: int| 0 <= i < s.len() ==> 48u8 <= #[trigger] s[i] <= 57u8
}

/// The value of decimal digits, most significant first.
pub open spec fn dec_val(s: Seq<u8>) -> int
    decreases s.len(),
{
    if s.len() == 0 {
        0
    } else {
        dec_val(s.drop_last()) * 10 + (s.last() - 48u8)
    }
}

pub proof fn lemma_dec_val_nonneg(s: Seq<u8>)
    requires
        all_digits(s),
    ensures
        dec_val(s) >= 0,
    decreases s.len(),
{
    if s.len() > 0 {
        assert(all_digits(s.drop_last()));
        lemma_dec_val_nonneg(s.drop_last());
    }
}

/// A digit prefix never exceeds the whole number.
pub proof fn lemma_dec_val_prefix(s: Seq<u8>, i: int)
    requires
        all_digits(s),
        0 <= i <= s.len(),
    ensures
        dec_val(s.subrange(0, i)) <= dec_val(s),
    decreases s.len() - i,
{
    if i == s.len() {
        assert(s.subrange(0, i) =~= s);
    } else {
        lemma_dec_val_prefix(s, i + 1);
        let a = s.subrange(0, i);
        let b = s.subrange(0, i + 1);
        assert(b.drop_last() =~= a);
        assert(all_digits(a));
        lemma_dec_val_nonneg(a);
        assert(dec_val(b) == dec_val(a) * 10 + (b.last() - 48u8));
    }
}

/// The number a byte range names: a non-empty all-digit run whose value
/// fits a `u64`, or nothing.
pub open spec fn parse_num(b: Seq<u8>, s: int, e: int) -> Option<int> {
    let sub = b.subrange(s, e);
    if s < e && all_digits(sub) && dec_val(sub) <= u64::MAX {
        Some(dec_val(sub))
    } else {
        None
    }
}

/// Parses a decimal integer: succeeds exactly on a non-empty all-digit run
/// whose value fits a `u64`.
fn parse_u64(b: &[u8], start: usize, end: usize) -> (r: Option<u64>)
    requires
        start <= end <= b@.len(),
    ensures
        r matches Some(v) ==> start < end && all_digits(b@.subrange(start as int, end as int))
            && v == dec_val(b@.subrange(start as int, end as int)),
        r is None ==> start == end || !all_digits(b@.subrange(start as int, end as int))
            || dec_val(b@.subrange(start as int, end as int)) > u64::MAX,
        r matches Some(v) ==> parse_num(b@, start as int, end as int) == Some(v as int),
        r is None ==> parse_num(b@, start as int, end as int) is None,
{
    if start == end {
        return None;
    }
    let ghost whole = b@.subrange(start as int, end as int);
    let mut acc: u64 = 0;
    let mut i = start;
    while i < end
        invariant
            start <= i <= end <= b@.len(),
            whole == b@.subrange(start as int, end as int),
            all_digits(whole.subrange(0, i - start)),
            acc == dec_val(whole.subrange(0, i - start)),
        decreases end - i,
    {
        let c = *vstd::slice::slice_index_get(b, i);
        if c < 48u8 || c > 57u8 {
            proof {
                assert(whole[i - start] == c);
                assert(!all_digits(whole));
            }
            return None;
        }
        let d = (c - 48u8) as u64;
        let ghost pre = whole.subrange(0, i - start);
        let ghost cur = whole.subrange(0, i - start + 1);
        proof {
            assert(cur.drop_last() =~= pre);
            assert(cur.last() == c);
            assert(all_digits(cur));
            assert(dec_val(cur) == dec_val(pre) * 10 + (c - 48u8));
        }
        if acc > (u64::MAX - d) / 10 {
            proof {
                assert(acc * 10 + d > u64::MAX) by (nonlinear_arith)
                    requires
                        acc > (u64::MAX - d) / 10,
                        d <= 9,
                ;
                if all_digits(whole) {
                    lemma_dec_val_prefix(whole, i - start + 1);
                    assert(dec_val(whole) > u64::MAX);
                }
            }
            return None;
        }
        proof {
            assert(acc * 10 + d <= u64::MAX) by (nonlinear_arith)
                requires
                    acc <= (u64::MAX - d) / 10,
                    d <= 9,
            ;
        }
        acc = acc * 10 + d;
        i = i + 1;
    }
    proof {
        assert(whole.subrange(0, end - start) =~= whole);
    }
    Some(acc)
}

/// A stage kind named by `type`.
#[derive(Clone, Copy, Debug, PartialEq, Eq, Structural)]
pub enum StageKind {
    Memory,
    DiskV1,
    DiskV2,
}

/// One stage object's fields as scanned: each with the line and column of
/// its separator.
pub struct RawStage {
    pub kind: Option<(StageKind, u64, u64)>,
    pub max_events: Option<(u64, u64, u64)>,
    pub max_size: Option<(u64, u64, u64)>,
    pub when_full: Option<(WhenFull, u64, u64)>,
}

impl RawStage {
    /// No fields yet.
    pub fn empty() -> (r: RawStage)
        ensures
            r.kind is None,
            r.max_events is None,
            r.max_size is None,
            r.when_full is None,
    {
        RawStage { kind: None, max_events: None, max_size: None, when_full: None }
    }

    /// The scanned values are in range for a descriptor.
    pub open spec fn scanned(self) -> bool {
        &&& (self.max_events matches Some(m) ==> 1 <= m.0 <= usize::MAX)
        &&& (self.max_size matches Some(m) ==> 1 <= m.0)
    }
}

/// What a scanned stage object means: the field validation rules.  `type`
/// defaults to `memory` and `when_full` to `block`; a memory stage rejects
/// `max_size` and defaults `max_events` to 500; a disk stage rejects
/// `max_events` and requires `max_size`.
pub open spec fn assemble_spec(r: RawStage) -> Result<BufferType, ConfigParseError> {
    let kind = if r.kind is Some {
        (r.kind->0).0
    } else {
        StageKind::Memory
    };
    let policy = if r.when_full is Some {
        (r.when_full->0).0
    } else {
        WhenFull::Block
    };
    match kind {
        StageKind::Memory => {
            if r.max_size is Some {
                Err(
                    ConfigParseError::UnknownField {
                        field: FieldName::MaxSize,
                        expected: FieldSet::MemoryFields,
                        line: (r.max_size->0).1,
                        col: (r.max_size->0).2,
                    },
                )
            } else {
                Ok(
                    BufferType::Memory {
                        max_events: if r.max_events is Some {
                            (r.max_events->0).0 as usize
                        } else {
                            500
                        },
                        when_full: policy,
                    },
                )
            }
        },
        StageKind::DiskV1 => {
            if r.max_events is Some {
                Err(
                    ConfigParseError::UnknownField {
                        field: FieldName::MaxEvents,
                        expected: FieldSet::DiskFields,
                        line: (r.max_events->0).1,
                        col: (r.max_events->0).2,
                    },
                )
            } else if r.max_size is None {
                Err(ConfigParseError::MissingField { field: FieldName::MaxSize })
            } else {
                Ok(BufferType::DiskV1 { max_size: (r.max_size->0).0, when_full: policy })
            }
        },
        StageKind::DiskV2 => {
            if r.max_events is Some {
                Err(
                    ConfigParseError::UnknownField {
                        field: FieldName::MaxEvents,
                        expected: FieldSet::DiskFields,
                        line: (r.max_events->0).1,
                        col: (r.max_events->0).2,
                    },
                )
            } else if r.max_size is None {
                Err(ConfigParseError::MissingField { field: FieldName::MaxSize })
            } else {
                Ok(BufferType::DiskV2 { max_size: (r.max_size->0).0, when_full: policy })
            }
        },
    }
}

/// Applies the field validation rules to one scanned stage object.
pub fn assemble(r: RawStage) -> (out: Result<BufferType, ConfigParseError>)
    requires
        r.scanned(),
    ensures
        out == assemble_spec(r),
        out matches Ok(bt) ==> bt.valid(),
{
    let kind = match &r.kind {
        Some(k) => k.0,
        None => StageKind::Memory,
    };
    let policy = match &r.when_full {
        Some(w) => w.0,
        None => WhenFull::Block,
    };
    match kind {
        StageKind::Memory => {
            match &r.max_size {
                Some(m) => Err(
                    ConfigParseError::UnknownField {
                        field: FieldName::MaxSize,
                        expected: FieldSet::MemoryFields,
                        line: m.1,
                        col: m.2,
                    },
                ),
                None => {
                    let max_events = match &r.max_events {
                        Some(m) => m.0 as usize,
                        None => 500,
                    };
                    Ok(BufferType::Memory { max_events, when_full: policy })
                },
            }
        },
        StageKind::DiskV1 => {
            match &r.max_events {
                Some(m) => Err(
                    ConfigParseError::UnknownField {
                        field: FieldName::MaxEvents,
                        expected: FieldSet::DiskFields,
                        line: m.1,
                        col: m.2,
                    },
                ),
                None => {
                    match &r.max_size {
                        Some(m) => Ok(
                            BufferType::DiskV1 { max_size: m.0, when_full: policy },
                        ),
                        None => Err(ConfigParseError::MissingField { field: FieldName::MaxSize }),
                    }
                },
            }
        },
        StageKind::DiskV2 => {
            match &r.max_events {
                Some(m) => Err(
                    ConfigParseError::UnknownField {
                        field: FieldName::MaxEvents,
                        expected: FieldSet::DiskFields,
                        line: m.1,
                        col: m.2,
                    },
                ),
                None => {
                    match &r.max_size {
                        Some(m) => Ok(
                            BufferType::DiskV2 { max_size: m.0, when_full: policy },
                        ),
                        None => Err(ConfigParseError::MissingField { field: FieldName::MaxSize }),
                    }
                },
            }
        },
    }
}

/// Whether a byte carries no content: whitespace or a line break.
pub open spec fn is_blank(c: u8) -> bool {
    is_ws(c) || c == 10
}

/// What one `key: value` field does to the stage being scanned, or the
/// rejection it raises.  `ls` is where the line starts; `s` and `e` bound
/// the line's content.
pub enum KvStep {
    Took(RawStage),
    Fail(ErrView),
}

pub open spec fn step_kv(b: Seq<u8>, ls: int, s: int, e: int, line: u64, cur: RawStage) -> KvStep {
    let c = find_from(b, s, e, 58);
    if c == e {
        KvStep::Fail(ErrView::InvalidLine { line, col: (s - ls + 1) as u64 })
    } else {
        let col = (c - ls + 1) as u64;
        let ks = trim_lo(b, s, c);
        let ke = trim_hi(b, ks, c);
        let vs = trim_lo(b, c + 1, e);
        let ve = trim_hi(b, vs, e);
        let key = b.subrange(ks, ke);
        let val = b.subrange(vs, ve);
        if key == kw_seq(Kw::Type) {
            if cur.kind is Some {
                KvStep::Fail(ErrView::DuplicateField { field: FieldName::Type, line, col })
            } else if val == kw_seq(Kw::Memory) {
                KvStep::Took(RawStage { kind: Some((StageKind::Memory, line, col)), ..cur })
            } else if val == kw_seq(Kw::DiskV1) {
                KvStep::Took(RawStage { kind: Some((StageKind::DiskV1, line, col)), ..cur })
            } else if val == kw_seq(Kw::Disk) {
                KvStep::Took(RawStage { kind: Some((StageKind::DiskV2, line, col)), ..cur })
            } else {
                KvStep::Fail(ErrView::UnknownVariant { field: FieldName::Type, line, col })
            }
        } else if key == kw_seq(Kw::MaxEvents) {
            if cur.max_events is Some {
                KvStep::Fail(ErrView::DuplicateField { field: FieldName::MaxEvents, line, col })
            } else {
                match parse_num(b, vs, ve) {
                    Some(v) => if v == 0 || v > usize::MAX {
                        KvStep::Fail(
                            ErrView::InvalidValue { field: FieldName::MaxEvents, line, col },
                        )
                    } else {
                        KvStep::Took(
                            RawStage { max_events: Some((v as u64, line, col)), ..cur },
                        )
                    },
                    None => KvStep::Fail(
                        ErrView::InvalidValue { field: FieldName::MaxEvents, line, col },
                    ),
                }
            }
        } else if key == kw_seq(Kw::MaxSize) {
            if cur.max_size is Some {
                KvStep::Fail(ErrView::DuplicateField { field: FieldName::MaxSize, line, col })
            } else {
                match parse_num(b, vs, ve) {
                    Some(v) => if v == 0 {
                        KvStep::Fail(
                            ErrView::InvalidValue { field: FieldName::MaxSize, line, col },
                        )
                    } else {
                        KvStep::Took(RawStage { max_size: Some((v as u64, line, col)), ..cur })
                    },
                    None => KvStep::Fail(
                        ErrView::InvalidValue { field: FieldName::MaxSize, line, col },
                    ),
                }
            }
        } else if key == kw_seq(Kw::WhenFullKey) {
            if cur.when_full is Some {
                KvStep::Fail(ErrView::DuplicateField { field: FieldName::WhenFull, line, col })
            } else if val == kw_seq(Kw::Block) {
                KvStep::Took(RawStage { when_full: Some((WhenFull::Block, line, col)), ..cur })
            } else if val == kw_seq(Kw::DropNewest) {
                KvStep::Took(
                    RawStage { when_full: Some((WhenFull::DropNewest, line, col)), ..cur },
                )
            } else if val == kw_seq(Kw::Overflow) {
                KvStep::Took(
                    RawStage { when_full: Some((WhenFull::Overflow, line, col)), ..cur },
                )
            } else {
                KvStep::Fail(ErrView::UnknownVariant { field: FieldName::WhenFull, line, col })
            }
        } else {
            KvStep::Fail(ErrView::UnknownKey { key: lossy_of(key), line, col })
        }
    }
}

/// What one line does to the scan: carries the state forward, or raises a
/// rejection.
pub enum LineStep {
    Cont { list_mode: bool, started: bool, cur: RawStage, stages: Seq<BufferType> },
    Fail(ErrView),
}

/// A fresh stage object, no fields yet.
pub open spec fn raw_empty() -> RawStage {
    RawStage { kind: None, max_events: None, max_size: None, when_full: None }
}

/// The rest of a list-entry line after its dash: a bare dash opens the
/// entry, content after it is the entry's first field.
pub open spec fn dash_rest(
    b: Seq<u8>,
    ls: int,
    s0: int,
    e0: int,
    line: u64,
    stages: Seq<BufferType>,
) -> LineStep {
    let s2 = trim_lo(b, s0 + 1, e0);
    let e2 = trim_hi(b, s2, e0);
    if s2 == e2 {
        LineStep::Cont { list_mode: true, started: true, cur: raw_empty(), stages }
    } else {
        match step_kv(b, ls, s2, e2, line, raw_empty()) {
            KvStep::Took(c2) => LineStep::Cont {
                list_mode: true,
                started: true,
                cur: c2,
                stages,
            },
            KvStep::Fail(e) => LineStep::Fail(e),
        }
    }
}

pub open spec fn step_line(
    b: Seq<u8>,
    ls: int,
    le: int,
    line: u64,
    list_mode: bool,
    started: bool,
    cur: RawStage,
    stages: Seq<BufferType>,
) -> LineStep {
    let s0 = trim_lo(b, ls, le);
    let e0 = trim_hi(b, s0, le);
    if s0 == e0 {
        LineStep::Cont { list_mode, started, cur, stages }
    } else if b[s0] == 45 && (s0 + 1 == e0 || is_ws(b[s0 + 1])) {
        if started && !list_mode {
            LineStep::Fail(ErrView::InvalidLine { line, col: (s0 - ls + 1) as u64 })
        } else if list_mode {
            match assemble_spec(cur) {
                Ok(bt) => dash_rest(b, ls, s0, e0, line, stages.push(bt)),
                Err(err) => LineStep::Fail(err_view(err)),
            }
        } else {
            dash_rest(b, ls, s0, e0, line, stages)
        }
    } else {
        match step_kv(b, ls, s0, e0, line, cur) {
            KvStep::Took(c2) => LineStep::Cont { list_mode, started: true, cur: c2, stages },
            KvStep::Fail(e) => LineStep::Fail(e),
        }
    }
}

/// The whole scan from byte `pos` on: each line steps the state; the end
/// of the input closes the last stage object, or rejects an input that
/// never opened one.
pub open spec fn scan_from(
    b: Seq<u8>,
    pos: int,
    line: u64,
    list_mode: bool,
    started: bool,
    cur: RawStage,
    stages: Seq<BufferType>,
) -> Result<Seq<BufferType>, ErrView>
    decreases b.len() - pos,
    via scan_from_dec
{
    if pos < 0 || pos >= b.len() {
        if !started {
            Err(ErrView::Eof)
        } else {
            match assemble_spec(cur) {
                Ok(bt) => Ok(stages.push(bt)),
                Err(e) => Err(err_view(e)),
            }
        }
    } else {
        let le = find_from(b, pos, b.len() as int, 10);
        let next = if le < b.len() {
            le + 1
        } else {
            b.len() as int
        };
        let line2 = if line < u64::MAX {
            (line + 1) as u64
        } else {
            line
        };
        match step_line(b, pos, le, line, list_mode, started, cur, stages) {
            LineStep::Cont { list_mode, started, cur, stages } => scan_from(
                b,
                next,
                line2,
                list_mode,
                started,
                cur,
                stages,
            ),
            LineStep::Fail(e) => Err(e),
        }
    }
}

#[via_fn]
proof fn scan_from_dec(
    b: Seq<u8>,
    pos: int,
    line: u64,
    list_mode: bool,
    started: bool,
    cur: RawStage,
    stages: Seq<BufferType>,
) {
    if 0 <= pos < b.len() {
        lemma_find_from_bounds(b, pos, b.len() as int, 10);
    }
}

/// What the parser returns for given input bytes.
pub open spec fn parse_spec(b: Seq<u8>) -> Result<Seq<BufferType>, ErrView> {
    scan_from(b, 0, 1u64, false, false, raw_empty(), Seq::empty())
}

/// What a parse result means: the stage list, or the rejection's view.
pub open spec fn result_view(r: Result<BufferConfig, ConfigParseError>) -> Result<
    Seq<BufferType>,
    ErrView,
> {
    match r {
        Ok(cfg) => Ok(cfg.stages@),
        Err(e) => Err(err_view(e)),
    }
}

/// Parses the declarative configuration text into a validated stage list:
/// a single stage object, or an ordered list of stage objects, each list
/// entry opened by a `- ` line.  The result is exactly what the line
/// grammar (`parse_spec`) gives for the input bytes; blank input is
/// rejected as such, and every stage of a successful parse carries a
/// positive watermark.
#[verifier::rlimit(100)]
pub fn parse_buffer_config(input: &str) -> (r: Result<BufferConfig, ConfigParseError>)
    ensures
        result_view(r) == parse_spec(input.spec_bytes()),
        r matches Ok(cfg) ==> cfg.stages@.len() >= 1 && cfg.all_valid(),
        r == Err::<BufferConfig, ConfigParseError>(ConfigParseError::Eof) <==> forall|j: int|
            0 <= j < input.spec_bytes().len() ==> is_blank(#[trigger] input.spec_bytes()[j]),
{
    let bytes = input.as_bytes();
    let n = bytes.len();
    proof {
        assert(bytes@ == input.spec_bytes());
    }
    if n == 0 {
        proof {
            assert(parse_spec(bytes@) == Err::<Seq<BufferType>, ErrView>(ErrView::Eof));
        }
        return Err(ConfigParseError::Eof);
    }

    let mut pos: usize = 0;
    let mut line_no: u64 = 1;
    let mut list_mode = false;
    let mut started = false;
    let mut cur = RawStage::empty();
    let mut stages_acc: Vec<BufferType> = Vec::new();
    proof {
        assert(cur == raw_empty());
        assert(stages_acc@ =~= Seq::<BufferType>::empty());
    }
    while pos < n
        invariant
            pos <= n,
            n == bytes@.len(),
            n > 0,
            bytes@ == input.spec_bytes(),
            cur.scanned(),
            forall|k: int| 0 <= k < stages_acc@.len() ==> (#[trigger] stages_acc@[k]).valid(),
            line_no >= 1,
            !started ==> forall|j: int| 0 <= j < pos ==> is_blank(#[trigger] bytes@[j]),
            started ==> exists|j: int| 0 <= j < n && !is_blank(#[trigger] bytes@[j]),
            parse_spec(bytes@) == scan_from(
                bytes@,
                pos as int,
                line_no,
                list_mode,
                started,
                cur,
                stages_acc@,
            ),
        decreases n - pos,
    {
        let ghost pos0 = pos as int;
        let ghost lm0 = list_mode;
        let ghost started0 = started;
        let ghost cur0 = cur;
        let ghost stages0 = stages_acc@;
        let le = match find_byte(bytes, pos, n, 10u8) {
            Some(k) => k,
            None => n,
        };
        let ls = pos;
        pos = if le < n {
            le + 1
        } else {
            n
        };
        let line = line_no;
        line_no = if line_no < u64::MAX {
            line_no + 1
        } else {
            line_no
        };
        let ghost step = step_line(bytes@, pos0, le as int, line, lm0, started0, cur0, stages0);
        proof {
            assert(le as int == find_from(bytes@, pos0, n as int, 10));
            assert(scan_from(bytes@, pos0, line, lm0, started0, cur0, stages0) == (match step {
                LineStep::Cont { list_mode, started, cur, stages } => scan_from(
                    bytes@,
                    pos as int,
                    line_no,
                    list_mode,
                    started,
                    cur,
                    stages,
                ),
                LineStep::Fail(e) => Err(e),
            }));
        }
        let (mut s, mut e) = trim_range(bytes, ls, le);
        if s == e {
            proof {
                assert(step == LineStep::Cont {
                    list_mode: lm0,
                    started: started0,
                    cur: cur0,
                    stages: stages0,
                });
                if !started {
                    assert forall|j: int| 0 <= j < pos implies is_blank(
                        #[trigger] bytes@[j],
                    ) by {
                        if ls <= j < le {
                            assert(is_ws(bytes@[j]));
                        } else if j == le && le < n {
                            assert(bytes@[j] == 10);
                        }
                    }
                }
            }
            continue ;
        }
        let ghost wit = s as int;
        proof {
            assert(bytes@[wit] != 10);
            assert(!is_blank(bytes@[wit]));
        }
        let ghost dashed = false;
        let ghost flushed = stages0;
        if *vstd::slice::slice_index_get(bytes, s) == 45u8 && (s + 1 == e || is_ws_byte(
            *vstd::slice::slice_index_get(bytes, s + 1),
        )) {
            if started && !list_mode {
                proof {
                    assert(step == LineStep::Fail(
                        ErrView::InvalidLine { line, col: (s - ls + 1) as u64 },
                    ));
                }
                return Err(ConfigParseError::InvalidLine { line, col: (s - ls + 1) as u64 });
            }
            if list_mode {
                match assemble(cur) {
                    Ok(bt) => stages_acc.push(bt),
                    Err(err) => {
                        proof {
                            assert(step == LineStep::Fail(err_view(err)));
                        }
                        return Err(err);
                    },
                }
            }
            cur = RawStage::empty();
            list_mode = true;
            started = true;
            proof {
                dashed = true;
                flushed = stages_acc@;
                assert(cur == raw_empty());
                if lm0 {
                    assert(flushed == stages0.push(assemble_spec(cur0)->Ok_0));
                } else {
                    assert(flushed == stages0);
                }
            }
            let (s2, e2) = trim_range(bytes, s + 1, e);
            if s2 == e2 {
                proof {
                    assert(step == dash_rest(bytes@, pos0, wit, e as int, line, flushed));
                    assert(step == LineStep::Cont {
                        list_mode: true,
                        started: true,
                        cur: raw_empty(),
                        stages: flushed,
                    });
                }
                continue ;
            }
            s = s2;
            e = e2;
        }
        let ghost s_kv = s as int;
        let ghost e_kv = e as int;
        let ghost cur_kv = if dashed {
            raw_empty()
        } else {
            cur0
        };
        let ghost kv = step_kv(bytes@, pos0, s_kv, e_kv, line, cur_kv);
        proof {
            if dashed {
                assert(step == dash_rest(bytes@, pos0, wit, trim_hi(bytes@, wit, le as int), line,
                    flushed));
                assert(step == (match kv {
                    KvStep::Took(c2) => LineStep::Cont {
                        list_mode: true,
                        started: true,
                        cur: c2,
                        stages: flushed,
                    },
                    KvStep::Fail(err) => LineStep::Fail(err),
                }));
            } else {
                assert(step == (match kv {
                    KvStep::Took(c2) => LineStep::Cont {
                        list_mode: lm0,
                        started: true,
                        cur: c2,
                        stages: stages0,
                    },
                    KvStep::Fail(err) => LineStep::Fail(err),
                }));
            }
        }
        let c = match find_byte(bytes, s, e, 58u8) {
            Some(c) => c,
            None => {
                proof {
                    assert(kv == KvStep::Fail(
                        ErrView::InvalidLine { line, col: (s - ls + 1) as u64 },
                    ));
                }
                return Err(ConfigParseError::InvalidLine { line, col: (s - ls + 1) as u64 });
            },
        };
        let col = (c - ls + 1) as u64;
        let (ks, ke) = trim_range(bytes, s, c);
        let (vs, ve) = trim_range(bytes, c + 1, e);
        started = true;
        if range_is(bytes, ks, ke, Kw::Type) {
            if cur.kind.is_some() {
                return Err(ConfigParseError::DuplicateField { field: FieldName::Type, line, col });
            }
            let kind = if range_is(bytes, vs, ve, Kw::Memory) {
                StageKind::Memory
            } else if range_is(bytes, vs, ve, Kw::DiskV1) {
                StageKind::DiskV1
            } else if range_is(bytes, vs, ve, Kw::Disk) {
                StageKind::DiskV2
            } else {
                return Err(ConfigParseError::UnknownVariant { field: FieldName::Type, line, col });
            };
            cur.kind = Some((kind, line, col));
        } else if range_is(bytes, ks, ke, Kw::MaxEvents) {
            if cur.max_events.is_some() {
                return Err(
                    ConfigParseError::DuplicateField { field: FieldName::MaxEvents, line, col },
                );
            }
            let v = match parse_u64(bytes, vs, ve) {
                Some(v) => v,
                None => {
                    return Err(
                        ConfigParseError::InvalidValue { field: FieldName::MaxEvents, line, col },
                    );
                },
            };
            if v == 0 || v > usize::MAX as u64 {
                return Err(
                    ConfigParseError::InvalidValue { field: FieldName::MaxEvents, line, col },
                );
            }
            cur.max_events = Some((v, line, col));
        } else if range_is(bytes, ks, ke, Kw::MaxSize) {
            if cur.max_size.is_some() {
                return Err(
                    ConfigParseError::DuplicateField { field: FieldName::MaxSize, line, col },
                );
            }
            let v = match parse_u64(bytes, vs, ve) {
                Some(v) => v,
                None => {
                    return Err(
                        ConfigParseError::InvalidValue { field: FieldName::MaxSize, line, col },
                    );
                },
            };
            if v == 0 {
                return Err(
                    ConfigParseError::InvalidValue { field: FieldName::MaxSize, line, col },
                );
            }
            cur.max_size = Some((v, line, col));
        } else if range_is(bytes, ks, ke, Kw::WhenFullKey) {
            if cur.when_full.is_some() {
                return Err(
                    ConfigParseError::DuplicateField { field: FieldName::WhenFull, line, col },
                );
            }
            let w = if range_is(bytes, vs, ve, Kw::Block) {
                WhenFull::Block
            } else if range_is(bytes, vs, ve, Kw::DropNewest) {
                WhenFull::DropNewest
            } else if range_is(bytes, vs, ve, Kw::Overflow) {
                WhenFull::Overflow
            } else {
                return Err(
                    ConfigParseError::UnknownVariant { field: FieldName::WhenFull, line, col },
                );
            };
            cur.when_full = Some((w, line, col));
        } else {
            let key = vstd::slice::slice_to_vec(vstd::slice::slice_subrange(bytes, ks, ke));
            proof {
                assert(kv == KvStep::Fail(ErrView::UnknownKey {
                    key: lossy_of(bytes@.subrange(ks as int, ke as int)),
                    line,
                    col,
                }));
            }
            return Err(ConfigParseError::UnknownKey { key: key_string(&key), line, col });
        }
        proof {
            assert(kv == KvStep::Took(cur));
        }
    }
    if !started {
        proof {
            assert(parse_spec(bytes@) == Err::<Seq<BufferType>, ErrView>(ErrView::Eof));
        }
        return Err(ConfigParseError::Eof);
    }
    let ghost stages_fin = stages_acc@;
    match assemble(cur) {
        Ok(bt) => stages_acc.push(bt),
        Err(err) => {
            proof {
                assert(parse_spec(bytes@) == Err::<Seq<BufferType>, ErrView>(err_view(err)));
            }
            return Err(err);
        },
    }
    proof {
        assert(parse_spec(bytes@) == Ok::<Seq<BufferType>, ErrView>(stages_acc@));
    }
    Ok(BufferConfig { stages: stages_acc })
}

/// Why a configuration cannot be rendered.
#[derive(Clone, Copy, Debug, PartialEq, Eq, Structural)]
pub enum SerializeError {
    /// There is no stage to render.
    Empty,
}

impl SerializeError {
    /// The rejection rendered for people.
    pub fn message(&self) -> (r: String)
        ensures
            r@ == "buffer config cannot be empty when serializing"@,
    {
        String::from_str("buffer config cannot be empty when serializing")
    }
}

/// A policy's name in the configuration text.
pub open spec fn render_policy(w: WhenFull) -> Seq<char> {
    match w {
        WhenFull::Block => "block"@,
        WhenFull::DropNewest => "drop_newest"@,
        WhenFull::Overflow => "overflow"@,
    }
}

/// One stage object's lines: its first line opened by `first`, the others
/// by `rest`.
pub open spec fn render_stage(bt: BufferType, first: Seq<char>, rest: Seq<char>) -> Seq<char> {
    match bt {
        BufferType::Memory { max_events, when_full } => first + "type: memory\n"@ + rest
            + "max_events: "@ + dec_seq(max_events as int) + "\n"@ + rest + "when_full: "@
            + render_policy(when_full) + "\n"@,
        BufferType::DiskV1 { max_size, when_full } => first + "type: disk_v1\n"@ + rest
            + "max_size: "@ + dec_seq(max_size as int) + "\n"@ + rest + "when_full: "@
            + render_policy(when_full) + "\n"@,
        BufferType::DiskV2 { max_size, when_full } => first + "type: disk\n"@ + rest
            + "max_size: "@ + dec_seq(max_size as int) + "\n"@ + rest + "when_full: "@
            + render_policy(when_full) + "\n"@,
    }
}

/// The list form, from stage `i` on: each entry opened by a dash.
pub open spec fn render_from(ss: Seq<BufferType>, i: int) -> Seq<char>
    decreases ss.len() - i,
{
    if i < 0 || i >= ss.len() {
        Seq::empty()
    } else {
        render_stage(ss[i], "- "@, "  "@) + render_from(ss, i + 1)
    }
}

/// A non-empty stage list rendered back to the configuration text: one
/// stage as a bare stage object, several as an ordered list.
pub open spec fn render_spec(ss: Seq<BufferType>) -> Seq<char> {
    if ss.len() == 1 {
        render_stage(ss[0], Seq::empty(), Seq::empty())
    } else {
        render_from(ss, 0)
    }
}

/// A policy's name, for rendering.
fn policy_str(w: WhenFull) -> (r: &'static str)
    ensures
        r@ == render_policy(w),
{
    match w {
        WhenFull::Block => "block",
        WhenFull::DropNewest => "drop_newest",
        WhenFull::Overflow => "overflow",
    }
}

/// Appends one stage object's lines.
#[verifier::rlimit(100)]
#[verifier::spinoff_prover]
fn append_stage(out: &mut String, bt: &BufferType, first: &str, rest: &str)
    ensures
        final(out)@ == old(out)@ + render_stage(*bt, first@, rest@),
{
    out.append(first);
    match bt {
        BufferType::Memory { max_events, when_full } => {
            out.append("type: memory\n");
            out.append(rest);
            out.append("max_events: ");
            let v = u64_to_string(*max_events as u64);
            out.append(v.as_str());
            out.append("\n");
            out.append(rest);
            out.append("when_full: ");
            out.append(policy_str(*when_full));
            out.append("\n");
        },
        BufferType::DiskV1 { max_size, when_full } => {
            out.append("type: disk_v1\n");
            out.append(rest);
            out.append("max_size: ");
            let v = u64_to_string(*max_size);
            out.append(v.as_str());
            out.append("\n");
            out.append(rest);
            out.append("when_full: ");
            out.append(policy_str(*when_full));
            out.append("\n");
        },
        BufferType::DiskV2 { max_size, when_full } => {
            out.append("type: disk\n");
            out.append(rest);
            out.append("max_size: ");
            let v = u64_to_string(*max_size);
            out.append(v.as_str());
            out.append("\n");
            out.append(rest);
            out.append("when_full: ");
            out.append(policy_str(*when_full));
            out.append("\n");
        },
    }
}

/// Renders a configuration back to the declarative text: an error on an
/// empty stage list, a single stage as a bare stage object, several
/// stages as an ordered list.
pub fn serialize_buffer_config(cfg: &BufferConfig) -> (r: Result<String, SerializeError>)
    ensures
        r is Err <==> cfg.stages@.len() == 0,
        r matches Ok(s) ==> s@ == render_spec(cfg.stages@),
{
    let n = cfg.stages.len();
    if n == 0 {
        return Err(SerializeError::Empty);
    }
    let mut out = String::new();
    if n == 1 {
        proof {
            reveal_strlit("");
            assert(""@ =~= Seq::<char>::empty());
        }
        append_stage(&mut out, &cfg.stages[0], "", "");
        proof {
            assert(out@ =~= render_spec(cfg.stages@));
        }
    } else {
        let mut i: usize = 0;
        proof {
            assert(out@ + render_from(cfg.stages@, 0) =~= render_from(cfg.stages@, 0));
        }
        while i < n
            invariant
                i <= n,
                n == cfg.stages@.len(),
                n != 1,
                render_spec(cfg.stages@) =~= out@ + render_from(cfg.stages@, i as int),
            decreases n - i,
        {
            append_stage(&mut out, &cfg.stages[i], "- ", "  ");
            i = i + 1;
        }
        proof {
            assert(render_from(cfg.stages@, n as int) =~= Seq::<char>::empty());
            assert(out@ + Seq::<char>::empty() =~= out@);
        }
    }
    Ok(out)
}

/// Whether two texts are the same characters, compared byte by byte.
pub(crate) fn str_bytes_equal(a: &str, b: &str) -> (r: bool)
    ensures
        r == (a@ == b@),
{
    let ba = a.as_bytes();
    let bb = b.as_bytes();
    let na = ba.len();
    let nb = bb.len();
    if na != nb {
        proof {
            vstd::utf8::encode_utf8_decode_utf8(a@);
            vstd::utf8::encode_utf8_decode_utf8(b@);
        }
        return false;
    }
    let mut i: usize = 0;
    while i < na
        invariant
            i <= na,
            na == ba@.len(),
            na == bb@.len(),
            ba@ == a.spec_bytes(),
            bb@ == b.spec_bytes(),
            forall|j: int| 0 <= j < i ==> ba@[j] == bb@[j],
        decreases na - i,
    {
        if *vstd::slice::slice_index_get(ba, i) != *vstd::slice::slice_index_get(bb, i) {
            proof {
                vstd::utf8::encode_utf8_decode_utf8(a@);
                vstd::utf8::encode_utf8_decode_utf8(b@);
            }
            return false;
        }
        i = i + 1;
    }
    proof {
        assert(ba@ =~= bb@);
        vstd::utf8::encode_utf8_decode_utf8(a@);
        vstd::utf8::encode_utf8_decode_utf8(b@);
    }
    true
}

/// The key's text for an unknown-field rejection.
fn key_string(key: &Vec<u8>) -> (r: String)
    ensures
        r@ == lossy_of(key@),
        vstd::utf8::valid_utf8(key@) ==> r@ == vstd::utf8::decode_utf8(key@),
{
    lossy_decode(key.as_slice())
}

/// A byte run decoded for people, for other modules' messages.
pub(crate) fn decode_bytes(b: &[u8]) -> (r: String)
    ensures
        r@ == lossy_of(b@),
        vstd::utf8::valid_utf8(b@) ==> r@ == vstd::utf8::decode_utf8(b@),
{
    lossy_decode(b)
}

} // verus!
