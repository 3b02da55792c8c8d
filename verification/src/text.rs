//! Text predicates over event field values.  A value arrives as the bytes
//! a pipeline event carries; it is decoded leniently and compared, with an
//! optional case fold.

use vstd::prelude::*;
use crate::config_text::lossy_of;

verus! {

/// What `str::to_lowercase` maps a character sequence to.
pub uninterp spec fn lower_of(s: Seq<char>) -> Seq<char>;

/// Relies on str::to_lowercase: the result depends on the characters
/// alone, and an empty string stays empty.
#[verifier::external_body]
fn lowercase(s: &str) -> (r: String)
    ensures
        r@ == lower_of(s@),
        s@.len() == 0 ==> r@.len() == 0,
{
    s.to_lowercase()
}

/// Whether `suffix` ends `of`.
pub open spec fn is_suffix_of(suffix: Seq<char>, of: Seq<char>) -> bool {
    suffix.len() <= of.len() && of.subrange(of.len() - suffix.len(), of.len() as int) == suffix
}

/// Whether the text of `value` ends with the text of `substring`: both
/// decoded leniently, and both case-folded unless the comparison is case
/// sensitive.
pub fn ends_with(value: &[u8], substring: &[u8], case_sensitive: bool) -> (r: bool)
    ensures
        case_sensitive ==> r == is_suffix_of(lossy_of(substring@), lossy_of(value@)),
        !case_sensitive ==> r == is_suffix_of(
            lower_of(lossy_of(substring@)),
            lower_of(lossy_of(value@)),
        ),
{
    let v = crate::config_text::decode_bytes(value);
    let s = crate::config_text::decode_bytes(substring);
    if case_sensitive {
        suffix_check(v.as_str(), s.as_str())
    } else {
        let lv = lowercase(v.as_str());
        let ls = lowercase(s.as_str());
        suffix_check(lv.as_str(), ls.as_str())
    }
}

/// Whether `s` ends `v`, character by character.
fn suffix_check(v: &str, s: &str) -> (r: bool)
    ensures
        r == is_suffix_of(s@, v@),
{
    let n = v.unicode_len();
    let m = s.unicode_len();
    if m > n {
        return false;
    }
    let mut i: usize = 0;
    while i < m
        invariant
            i <= m,
            m <= n,
            n == v@.len(),
            m == s@.len(),
            forall|j: int| 0 <= j < i ==> v@[n - m + j] == s@[j],
        decreases m - i,
    {
        if v.get_char(n - m + i) != s.get_char(i) {
            proof {
                assert(v@.subrange(n - m, n as int)[i as int] != s@[i as int]);
            }
            return false;
        }
        i = i + 1;
    }
    proof {
        assert(v@.subrange(n - m, n as int) =~= s@);
    }
    true
}

} // verus!
