use vstd::prelude::*;

verus! {

/// Whether `c` has the Unicode `White_Space` property: tab to carriage
/// return, space, next line, no-break space, ogham space mark, the spaces
/// U+2000 to U+200A, the line and paragraph separators, narrow no-break
/// space, medium mathematical space and ideographic space.
pub open spec fn white_space(c: char) -> bool {
    let u = c as u32;
    (0x09 <= u <= 0x0D) || u == 0x20 || u == 0x85 || u == 0xA0 || u == 0x1680 || (0x2000 <= u
        <= 0x200A) || u == 0x2028 || u == 0x2029 || u == 0x202F || u == 0x205F || u == 0x3000
}

/// Whether `c` is white space, as `char::is_whitespace` answers.
pub fn is_whitespace(c: char) -> (r: bool)
    ensures
        r == white_space(c),
{
    let u = c as u32;
    (0x09 <= u && u <= 0x0D) || u == 0x20 || u == 0x85 || u == 0xA0 || u == 0x1680 || (0x2000 <= u
        && u <= 0x200A) || u == 0x2028 || u == 0x2029 || u == 0x202F || u == 0x205F || u == 0x3000
}

/// The fields of `s` between commas, from the field that starts at `start`,
/// scanning on from `i`; a text without commas is one field.
pub open spec fn fields_from(s: Seq<char>, start: int, i: int) -> Seq<Seq<char>>
    decreases s.len() - i,
{
    if i >= s.len() {
        seq![s.subrange(start, s.len() as int)]
    } else if s[i] == ',' {
        seq![s.subrange(start, i)] + fields_from(s, i + 1, i + 1)
    } else {
        fields_from(s, start, i + 1)
    }
}

/// The index of the first character of `s` from `i` on that is not white space.
pub open spec fn skip_white(s: Seq<char>, i: int) -> int
    decreases s.len() - i,
{
    if i >= s.len() || !white_space(s[i]) {
        i
    } else {
        skip_white(s, i + 1)
    }
}

/// One past the last character of `s` before `j` that is not white space,
/// stopping at `lo`.
pub open spec fn skip_white_back(s: Seq<char>, lo: int, j: int) -> int
    decreases j - lo,
{
    if j <= lo || !white_space(s[j - 1]) {
        j
    } else {
        skip_white_back(s, lo, j - 1)
    }
}

/// `s` without white space at either end.
pub open spec fn trimmed(s: Seq<char>) -> Seq<char> {
    let lo = skip_white(s, 0);
    s.subrange(lo, skip_white_back(s, lo, s.len() as int))
}

pub open spec fn is_digit(c: char) -> bool {
    '0' <= c <= '9'
}

/// The number that the decimal digits `d` spell.
pub open spec fn digits_value(d: Seq<char>) -> int
    decreases d.len(),
{
    if d.len() == 0 {
        0
    } else {
        digits_value(d.drop_last()) * 10 + (d.last() as int - '0' as int)
    }
}

pub open spec fn all_digits(d: Seq<char>) -> bool {
    forall|k: int| 0 <= k < d.len() ==> #[trigger] is_digit(d[k])
}

/// The digits of a size field: the field without one leading `+`.
pub open spec fn size_digits(f: Seq<char>) -> Seq<char> {
    if f.len() > 0 && f[0] == '+' {
        f.subrange(1, f.len() as int)
    } else {
        f
    }
}

/// A size as a decimal number: an optional `+`, then one or more digits,
/// with a value that fits a `u32`.
pub open spec fn size_value(f: Seq<char>) -> Option<u32> {
    let d = size_digits(f);
    if d.len() > 0 && all_digits(d) && digits_value(d) <= u32::MAX {
        Some(digits_value(d) as u32)
    } else {
        None
    }
}

proof fn lemma_digits_value_nonneg(d: Seq<char>)
    requires
        forall|k: int| 0 <= k < d.len() ==> #[trigger] is_digit(d[k]),
    ensures
        digits_value(d) >= 0,
        d.len() > 0 ==> digits_value(d) >= digits_value(d.drop_last()),
    decreases d.len(),
{
    if d.len() > 0 {
        assert forall|k: int| 0 <= k < d.drop_last().len() implies #[trigger] is_digit(
            d.drop_last()[k],
        ) by {
            assert(d.drop_last()[k] == d[k]);
        }
        lemma_digits_value_nonneg(d.drop_last());
        assert(is_digit(d[d.len() - 1]));
        assert(d.last() == d[d.len() - 1]);
    }
}

/// Reads a size from `s[lo..hi]` as `size_value` does.
fn parse_size(s: &str, lo: usize, hi: usize) -> (r: Option<u32>)
    requires
        lo <= hi <= s@.len(),
    ensures
        r == size_value(s@.subrange(lo as int, hi as int)),
{
    let ghost f = s@.subrange(lo as int, hi as int);
    let mut i = lo;
    if i < hi && s.get_char(i) == '+' {
        i = i + 1;
    }
    let ghost d = size_digits(f);
    assert(d =~= s@.subrange(i as int, hi as int));
    if i == hi {
        return None;
    }
    let start = i;
    let mut v: u64 = 0;
    while i < hi
        invariant
            lo <= start <= i <= hi,
            hi <= s@.len(),
            f == s@.subrange(lo as int, hi as int),
            d == size_digits(f),
            d == s@.subrange(start as int, hi as int),
            forall|k: int| start <= k < i ==> #[trigger] is_digit(s@[k]),
            v == digits_value(s@.subrange(start as int, i as int)),
            v <= u32::MAX,
        decreases hi - i,
    {
        let c = s.get_char(i);
        let ghost pre = s@.subrange(start as int, i as int);
        let ghost post = s@.subrange(start as int, i + 1);
        assert(post.drop_last() =~= pre);
        if c < '0' || c > '9' {
            assert(!is_digit(d[i - start]));
            assert(!all_digits(d));
            assert(size_value(f) is None);
            return None;
        }
        let digit: u64 = (c as u32 - '0' as u32) as u64;
        v = v * 10 + digit;
        assert(post.last() == c);
        if v > u32::MAX as u64 {
            proof {
                assert forall|k: int| 0 <= k < post.len() implies #[trigger] is_digit(post[k]) by {
                    assert(post[k] == s@[start + k]);
                }
                let rest = s@.subrange(i + 1, hi as int);
                assert(post + rest =~= d);
                if all_digits(d) {
                    assert forall|k: int| 0 <= k < rest.len() implies #[trigger] is_digit(rest[k]) by {
                        assert(rest[k] == d[post.len() + k]);
                    }
                    lemma_digits_grow(post, rest);
                    assert(digits_value(d) > u32::MAX);
                }
                assert(size_value(f) is None);
            }
            return None;
        }
        i = i + 1;
    }
    proof {
        assert(s@.subrange(start as int, i as int) =~= d);
    }
    Some(v as u32)
}

/// Appending digits never makes a number smaller.
proof fn lemma_digits_grow(a: Seq<char>, b: Seq<char>)
    requires
        forall|k: int| 0 <= k < a.len() ==> #[trigger] is_digit(a[k]),
        forall|k: int| 0 <= k < b.len() ==> #[trigger] is_digit(b[k]),
    ensures
        digits_value(a + b) >= digits_value(a),
    decreases b.len(),
{
    if b.len() > 0 {
        let ab = a + b;
        assert(ab.drop_last() =~= a + b.drop_last());
        assert forall|k: int| 0 <= k < b.drop_last().len() implies #[trigger] is_digit(
            b.drop_last()[k],
        ) by {
            assert(b.drop_last()[k] == b[k]);
        }
        lemma_digits_grow(a, b.drop_last());
        assert forall|k: int| 0 <= k < ab.len() implies #[trigger] is_digit(ab[k]) by {
            if k < a.len() {
                assert(ab[k] == a[k]);
            } else {
                assert(ab[k] == b[k - a.len()]);
            }
        }
        lemma_digits_value_nonneg(ab);
    }
}

/// Reads the sizes the operator typed, separated by commas with white space
/// around each; `None` where a field is not a size.
pub fn parse_sizes(text: &str) -> (r: Option<Vec<u32>>)
    requires
        text@.len() < usize::MAX,
    ensures
        r is Some <==> (forall|k: int|
            0 <= k < fields_from(text@, 0, 0).len() ==> #[trigger] size_value(
                trimmed(fields_from(text@, 0, 0)[k]),
            ) is Some),
        r matches Some(v) ==> v@ == fields_from(text@, 0, 0).map_values(
            |f: Seq<char>| size_value(trimmed(f))->Some_0,
        ),
{
    let ghost s = text@;
    let ghost all = fields_from(s, 0, 0);
    let len = text.unicode_len();
    let mut out: Vec<u32> = Vec::new();
    let ghost mut done: Seq<Seq<char>> = seq![];
    let mut start: usize = 0;
    let mut i: usize = 0;
    assert(done + all =~= all);
    while i <= len
        invariant
            len == s.len(),
            len < usize::MAX,
            s == text@,
            all == fields_from(s, 0, 0),
            start <= i,
            i <= len + 1,
            i == len + 1 ==> done == all,
            i <= len ==> done + fields_from(s, start as int, i as int) == all,
            out@.len() == done.len(),
            forall|k: int| 0 <= k < done.len() ==> #[trigger] size_value(trimmed(done[k])) is Some
                && out@[k] == size_value(trimmed(done[k]))->Some_0,
        decreases len + 1 - i,
    {
        if i == len || text.get_char(i) == ',' {
            let ghost f = s.subrange(start as int, i as int);
            let mut lo = start;
            while lo < i && is_whitespace(text.get_char(lo))
                invariant
                    start <= lo <= i,
                    i <= len,
                    len == s.len(),
                    s == text@,
                    f == s.subrange(start as int, i as int),
                    skip_white(f, 0) == skip_white(f, lo - start),
                decreases i - lo,
            {
                assert(f[lo - start] == s[lo as int]);
                lo = lo + 1;
            }
            assert(lo < i ==> f[lo - start] == s[lo as int]);
            let mut hi = i;
            while hi > lo && is_whitespace(text.get_char(hi - 1))
                invariant
                    start <= lo <= hi <= i,
                    i <= len,
                    len == s.len(),
                    s == text@,
                    f == s.subrange(start as int, i as int),
                    skip_white(f, 0) == lo - start,
                    skip_white_back(f, lo - start, f.len() as int) == skip_white_back(
                        f,
                        lo - start,
                        hi - start,
                    ),
                decreases hi - lo,
            {
                assert(f[hi - 1 - start] == s[hi - 1]);
                hi = hi - 1;
            }
            assert(hi > lo ==> f[hi - 1 - start] == s[hi - 1]);
            assert(trimmed(f) =~= s.subrange(lo as int, hi as int));
            let v = match parse_size(text, lo, hi) {
                Some(v) => v,
                None => {
                    proof {
                        if i == len {
                            assert(fields_from(s, start as int, i as int) == seq![f]);
                            assert(all[done.len() as int] == f);
                        } else {
                            assert(all =~= done + (seq![f] + fields_from(s, i + 1, i + 1)));
                            assert(all[done.len() as int] == f);
                        }
                    }
                    return None;
                },
            };
            out.push(v);
            proof {
                let nd = done.push(f);
                if i == len {
                    assert(fields_from(s, start as int, i as int) == seq![f]);
                    assert(nd =~= done + seq![f]);
                } else {
                    assert(nd + fields_from(s, i + 1, i + 1) =~= done + (seq![f] + fields_from(s, i + 1, i + 1)));
                }
                assert forall|k: int| 0 <= k < nd.len() implies #[trigger] size_value(trimmed(nd[k])) is Some
                    && out@[k] == size_value(trimmed(nd[k]))->Some_0 by {
                    if k < done.len() {
                        assert(nd[k] == done[k]);
                    }
                }
                done = nd;
            }
            start = i + 1;
        }
        i = i + 1;
    }
    proof {
        assert(out@ =~= all.map_values(|f: Seq<char>| size_value(trimmed(f))->Some_0));
    }
    Some(out)
}

} // verus!
