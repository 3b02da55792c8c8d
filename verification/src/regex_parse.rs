//! Parsing every match of a pattern out of a field value: each match
//! becomes one record of capture-group entries, named groups under their
//! names and, on request, every group under its number.  The matching
//! itself is the regex engine's; its results are named — the captures of a
//! pattern over a text are a function of those two values alone — and the
//! records are built here, exactly, from the matches it reports.

use vstd::prelude::*;
use crate::config_text::{dec_seq, lossy_of, u64_to_string};

verus! {

#[verifier::external_type_specification]
#[verifier::external_body]
pub struct ExRegex(regex::Regex);

/// A compiled pattern, carried with its text so that what the engine
/// reports can be spoken of as a function of that text.
pub struct CompiledPattern {
    re: regex::Regex,
    pattern: String,
}

impl CompiledPattern {
    /// The pattern's text.
    pub closed spec fn pattern_view(self) -> Seq<char> {
        self.pattern@
    }

    /// The pattern's text.
    pub fn pattern_text(&self) -> (r: &str)
        ensures
            r@ == self.pattern_view(),
    {
        self.pattern.as_str()
    }
}

/// The capture rows of a pattern over a text, in match order: one row per
/// match, one entry per capture group, the group's text where it
/// participated.
pub uninterp spec fn captures_spec(pattern: Seq<char>, text: Seq<char>) -> Seq<
    Seq<Option<Seq<char>>>,
>;

/// The capture-group names of a pattern: one entry per group, the group's
/// name where it has one.
pub uninterp spec fn names_spec(pattern: Seq<char>) -> Seq<Option<Seq<char>>>;

/// The view of one reported capture group.
pub open spec fn opt_text(o: Option<String>) -> Option<Seq<char>> {
    match o {
        Some(s) => Some(s@),
        None => None,
    }
}

/// The view of one reported capture row or name list.
pub open spec fn row_view(r: Seq<Option<String>>) -> Seq<Option<Seq<char>>> {
    Seq::new(r.len(), |g: int| opt_text(r[g]))
}

/// The view of the reported capture rows.
pub open spec fn rows_view(v: Seq<Vec<Option<String>>>) -> Seq<Seq<Option<Seq<char>>>> {
    Seq::new(v.len(), |i: int| row_view(v[i]@))
}

/// Whether a pattern is a valid regular expression: what `Regex::new`
/// accepts, a function of the pattern text alone.
pub uninterp spec fn regex_ok(pattern: Seq<char>) -> bool;

/// Relies on Regex::new: compiles a pattern, succeeding exactly on a valid
/// regular expression; the compiled pattern carries its text.
#[verifier::external_body]
pub fn compile_pattern(pattern: &str) -> (r: Option<CompiledPattern>)
    ensures
        r is Some <==> regex_ok(pattern@),
        r matches Some(cp) ==> cp.pattern_view() == pattern@,
{
    regex::Regex::new(pattern).ok().map(|re| CompiledPattern { re, pattern: pattern.to_string() })
}

/// Relies on Regex::captures_iter and Captures::get, on the pattern this
/// value was compiled from: one row per match, in match order; one entry
/// per capture group, the group's text where it participated.  Group 0 is
/// the whole match and always participates.
#[verifier::external_body]
fn captures_of(cp: &CompiledPattern, text: &str) -> (r: Vec<Vec<Option<String>>>)
    ensures
        rows_view(r@) == captures_spec(cp.pattern_view(), text@),
        forall|i: int| 0 <= i < r@.len() ==> (#[trigger] r@[i])@.len() >= 1 && r@[i]@[0] is Some,
{
    let mut out = Vec::new();
    for c in cp.re.captures_iter(text) {
        let mut row = Vec::new();
        for g in 0..c.len() {
            row.push(c.get(g).map(|m| m.as_str().to_string()));
        }
        out.push(row);
    }
    out
}

/// Relies on Regex::capture_names, on the pattern this value was compiled
/// from: one entry per capture group of the pattern, the group's name
/// where it has one.  Group 0 is the whole match and never has a name.
#[verifier::external_body]
fn group_names(cp: &CompiledPattern) -> (r: Vec<Option<String>>)
    ensures
        row_view(r@) == names_spec(cp.pattern_view()),
        r@.len() >= 1,
        r@[0] is None,
{
    cp.re.capture_names().map(|n| n.map(|s| s.to_string())).collect()
}

/// The named entries of one match's record, from group `g` on: each named
/// group under its name, with the text it captured.
pub open spec fn named_from(
    row: Seq<Option<Seq<char>>>,
    names: Seq<Option<Seq<char>>>,
    g: int,
) -> Seq<(Seq<char>, Option<Seq<char>>)>
    decreases names.len() - g,
{
    if g < 0 || g >= names.len() || g >= row.len() {
        Seq::empty()
    } else if names[g] is Some {
        seq![(names[g]->0, row[g])] + named_from(row, names, g + 1)
    } else {
        named_from(row, names, g + 1)
    }
}

/// The numeric entries of one match's record, from group `g` on: every
/// group under its number.
pub open spec fn numeric_from(row: Seq<Option<Seq<char>>>, g: int) -> Seq<
    (Seq<char>, Option<Seq<char>>),
>
    decreases row.len() - g,
{
    if g < 0 || g >= row.len() {
        Seq::empty()
    } else {
        seq![(dec_seq(g), row[g])] + numeric_from(row, g + 1)
    }
}

/// One match's record: the named entries, then, on request, the numeric
/// ones.
pub open spec fn record_of(
    row: Seq<Option<Seq<char>>>,
    names: Seq<Option<Seq<char>>>,
    numeric_groups: bool,
) -> Seq<(Seq<char>, Option<Seq<char>>)> {
    named_from(row, names, 0) + (if numeric_groups {
        numeric_from(row, 0)
    } else {
        Seq::empty()
    })
}

/// The view of a built record.
pub open spec fn entries_view(v: Seq<(String, Option<String>)>) -> Seq<
    (Seq<char>, Option<Seq<char>>),
> {
    Seq::new(v.len(), |i: int| (v[i].0@, opt_text(v[i].1)))
}

/// Builds one match's record from the groups the engine reported.
fn row_to_record(row: &Vec<Option<String>>, names: &Vec<Option<String>>, numeric_groups: bool) -> (r:
    Vec<(String, Option<String>)>)
    ensures
        entries_view(r@) == record_of(row_view(row@), row_view(names@), numeric_groups),
{
    let ghost rv = row_view(row@);
    let ghost nv = row_view(names@);
    let mut out: Vec<(String, Option<String>)> = Vec::new();
    let n = names.len();
    let m = row.len();
    let mut g: usize = 0;
    proof {
        assert(entries_view(out@) =~~= Seq::<(Seq<char>, Option<Seq<char>>)>::empty());
    }
    while g < n && g < m
        invariant
            g <= n,
            n == names@.len(),
            m == row@.len(),
            rv == row_view(row@),
            nv == row_view(names@),
            named_from(rv, nv, 0) =~~= entries_view(out@) + named_from(rv, nv, g as int),
        decreases n - g,
    {
        let ghost prev = out@;
        match (&names[g], &row[g]) {
            (Some(name), cap) => {
                let captured = match cap {
                    Some(t) => Some(t.clone()),
                    None => None,
                };
                out.push((name.clone(), captured));
                proof {
                    assert(nv[g as int] == opt_text(names@[g as int]));
                    assert(rv[g as int] == opt_text(row@[g as int]));
                    assert(entries_view(out@) =~~= entries_view(prev) + seq![
                        (nv[g as int]->0, rv[g as int]),
                    ]);
                    assert(entries_view(prev) + named_from(rv, nv, g as int) =~~= entries_view(
                        out@,
                    ) + named_from(rv, nv, g as int + 1));
                }
            },
            (None, _) => {},
        }
        g = g + 1;
    }
    proof {
        assert(named_from(rv, nv, g as int) =~~= Seq::<(Seq<char>, Option<Seq<char>>)>::empty());
        assert(entries_view(out@) + Seq::<(Seq<char>, Option<Seq<char>>)>::empty() =~~= entries_view(
            out@,
        ));
        assert(entries_view(out@) =~~= named_from(rv, nv, 0));
    }
    if numeric_groups {
        let mut g: usize = 0;
        while g < m
            invariant
                g <= m,
                m == row@.len(),
                rv == row_view(row@),
                nv == row_view(names@),
                entries_view(out@) + numeric_from(rv, g as int) =~~= named_from(rv, nv, 0)
                    + numeric_from(rv, 0),
            decreases m - g,
        {
            let ghost prev = out@;
            let key = u64_to_string(g as u64);
            let captured = match &row[g] {
                Some(t) => Some(t.clone()),
                None => None,
            };
            out.push((key, captured));
            proof {
                assert(rv[g as int] == opt_text(row@[g as int]));
                assert(entries_view(out@) =~~= entries_view(prev) + seq![
                    (dec_seq(g as int), rv[g as int]),
                ]);
                assert(numeric_from(rv, g as int) =~~= seq![(dec_seq(g as int), rv[g as int])]
                    + numeric_from(rv, g as int + 1));
            }
            g = g + 1;
        }
        proof {
            assert(numeric_from(rv, m as int) =~~= Seq::<(Seq<char>, Option<Seq<char>>)>::empty());
            assert(entries_view(out@) + Seq::<(Seq<char>, Option<Seq<char>>)>::empty()
                =~~= entries_view(out@));
            assert(entries_view(out@) =~~= record_of(rv, nv, true));
        }
    } else {
        proof {
            assert(named_from(rv, nv, 0) + Seq::<(Seq<char>, Option<Seq<char>>)>::empty()
                =~~= named_from(rv, nv, 0));
        }
    }
    out
}

/// Parses every match of the pattern out of the value's text: exactly one
/// record per capture row the engine reports, in match order, each built
/// by the record rules from that row and the pattern's group names.
pub fn parse_regex_all(re: &CompiledPattern, value: &[u8], numeric_groups: bool) -> (r: Vec<
    Vec<(String, Option<String>)>,
>)
    ensures
        ({
            let caps = captures_spec(re.pattern_view(), lossy_of(value@));
            let nms = names_spec(re.pattern_view());
            &&& r@.len() == caps.len()
            &&& forall|i: int| 0 <= i < r@.len() ==> entries_view((#[trigger] r@[i])@)
                == record_of(caps[i], nms, numeric_groups)
        }),
{
    let text = crate::config_text::decode_bytes(value);
    let caps = captures_of(re, text.as_str());
    let names = group_names(re);
    let ghost cv = captures_spec(re.pattern_view(), lossy_of(value@));
    let ghost nms = names_spec(re.pattern_view());
    let mut out: Vec<Vec<(String, Option<String>)>> = Vec::new();
    let k = caps.len();
    let mut i: usize = 0;
    while i < k
        invariant
            i <= k,
            k == caps@.len(),
            out@.len() == i,
            rows_view(caps@) == cv,
            row_view(names@) == nms,
            forall|p: int| 0 <= p < i ==> entries_view((#[trigger] out@[p])@) == record_of(
                cv[p],
                nms,
                numeric_groups,
            ),
        decreases k - i,
    {
        let rec = row_to_record(&caps[i], &names, numeric_groups);
        proof {
            assert(row_view(caps@[i as int]@) == cv[i as int]);
        }
        out.push(rec);
        i = i + 1;
    }
    out
}

} // verus!
