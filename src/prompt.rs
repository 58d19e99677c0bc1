use crate::sizes::{is_whitespace, skip_white, skip_white_back, trimmed};
use vstd::prelude::*;
use vstd::string::*;

verus! {

/// The lowercase form of `s`.
pub uninterp spec fn lower_of(s: Seq<char>) -> Seq<char>;

/// Relies on str::to_lowercase: the lowercase form depends on the characters
/// alone.
#[verifier::external_body]
fn to_lowercase(s: &str) -> (r: String)
    ensures
        r@ == lower_of(s@),
{
    s.to_lowercase()
}

/// The bounds of `s` without white space at either end.
pub fn trim_bounds(s: &str) -> (r: (usize, usize))
    ensures
        r.0 <= r.1 <= s@.len(),
        s@.subrange(r.0 as int, r.1 as int) == trimmed(s@),
{
    let len = s.unicode_len();
    let mut lo: usize = 0;
    while lo < len && is_whitespace(s.get_char(lo))
        invariant
            lo <= len,
            len == s@.len(),
            skip_white(s@, 0) == skip_white(s@, lo as int),
        decreases len - lo,
    {
        lo = lo + 1;
    }
    let mut hi: usize = len;
    while hi > lo && is_whitespace(s.get_char(hi - 1))
        invariant
            lo <= hi <= len,
            len == s@.len(),
            skip_white(s@, 0) == lo,
            skip_white_back(s@, lo as int, len as int) == skip_white_back(s@, lo as int, hi as int),
        decreases hi - lo,
    {
        hi = hi - 1;
    }
    (lo, hi)
}

/// Whether the operator's reply, trimmed and lowercased, is `continue`.
pub fn confirms(response: &str) -> (r: bool)
    ensures
        r == (lower_of(trimmed(response@)) == "continue"@),
{
    let (lo, hi) = trim_bounds(response);
    let word = response.substring_char(lo, hi);
    let lower = to_lowercase(word);
    crate::upload::same_text(lower.as_str(), "continue")
}

} // verus!
