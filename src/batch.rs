use vstd::prelude::*;
use vstd::string::*;

verus! {

/// At most this many entries go into one registry request.
pub const BATCH_SIZE: usize = 50;

pub open spec fn digit_char(d: nat) -> char {
    if d == 0 {
        '0'
    } else if d == 1 {
        '1'
    } else if d == 2 {
        '2'
    } else if d == 3 {
        '3'
    } else if d == 4 {
        '4'
    } else if d == 5 {
        '5'
    } else if d == 6 {
        '6'
    } else if d == 7 {
        '7'
    } else if d == 8 {
        '8'
    } else {
        '9'
    }
}

/// The decimal digits of `n`, without leading zeros.
pub open spec fn decimal_digits(n: nat) -> Seq<char>
    decreases n,
{
    if n < 10 {
        seq![digit_char(n)]
    } else {
        decimal_digits(n / 10).push(digit_char(n % 10))
    }
}

fn digit_str(d: u64) -> (r: &'static str)
    requires
        d < 10,
    ensures
        r@ == seq![digit_char(d as nat)],
{
    proof {
        reveal_strlit("0");
        reveal_strlit("1");
        reveal_strlit("2");
        reveal_strlit("3");
        reveal_strlit("4");
        reveal_strlit("5");
        reveal_strlit("6");
        reveal_strlit("7");
        reveal_strlit("8");
        reveal_strlit("9");
    }
    if d == 0 {
        "0"
    } else if d == 1 {
        "1"
    } else if d == 2 {
        "2"
    } else if d == 3 {
        "3"
    } else if d == 4 {
        "4"
    } else if d == 5 {
        "5"
    } else if d == 6 {
        "6"
    } else if d == 7 {
        "7"
    } else if d == 8 {
        "8"
    } else {
        "9"
    }
}

/// `n` written in decimal.
pub fn decimal(n: u64) -> (r: String)
    ensures
        r@ == decimal_digits(n as nat),
    decreases n,
{
    if n < 10 {
        digit_str(n).to_owned()
    } else {
        let mut s = decimal(n / 10);
        s.append(digit_str(n % 10));
        s
    }
}

/// `parts` joined with `|` between each two.
pub open spec fn join_bar(parts: Seq<Seq<char>>) -> Seq<char>
    decreases parts.len(),
{
    if parts.len() == 0 {
        seq![]
    } else if parts.len() == 1 {
        parts[0]
    } else {
        join_bar(parts.drop_last()) + seq!['|'] + parts.last()
    }
}

/// Batch `c` of `parts`: entries `c * BATCH_SIZE` up to the next multiple or
/// the end.
pub open spec fn batch(parts: Seq<Seq<char>>, c: int) -> Seq<Seq<char>> {
    let lo = c * BATCH_SIZE;
    let hi = if lo + BATCH_SIZE < parts.len() {
        lo + BATCH_SIZE
    } else {
        parts.len() as int
    };
    parts.subrange(lo, hi)
}

/// The number of batches that `n` entries take.
pub open spec fn batch_count(n: int) -> int {
    (n + BATCH_SIZE - 1) / BATCH_SIZE as int
}

/// The entries cut into batches of at most `BATCH_SIZE`, each joined with
/// `|`, in order.
pub fn batches(parts: &Vec<String>) -> (r: Vec<String>)
    ensures
        r@.len() == batch_count(parts@.len() as int),
        forall|c: int|
            0 <= c < r@.len() ==> #[trigger] r@[c]@ == join_bar(
                batch(parts@.map_values(|p: String| p@), c),
            ),
{
    let ghost pv = parts@.map_values(|p: String| p@);
    let n = parts.len();
    let count: usize = if n % BATCH_SIZE != 0 {
        n / BATCH_SIZE + 1
    } else {
        n / BATCH_SIZE
    };
    assert(count == batch_count(n as int));
    assert(count * BATCH_SIZE < n + BATCH_SIZE);
    let mut out: Vec<String> = Vec::new();
    let mut c: usize = 0;
    while c < count
        invariant
            c <= count,
            n == parts@.len(),
            count == batch_count(n as int),
            count * BATCH_SIZE < n + BATCH_SIZE,
            out@.len() == c,
            pv == parts@.map_values(|p: String| p@),
            forall|c2: int| 0 <= c2 < c ==> #[trigger] out@[c2]@ == join_bar(batch(pv, c2)),
        decreases count - c,
    {
        assert(c * BATCH_SIZE < n) by (nonlinear_arith)
            requires
                c < count,
                count * BATCH_SIZE < n + BATCH_SIZE,
        ;
        let lo: usize = c * BATCH_SIZE;
        let hi: usize = if n - lo > BATCH_SIZE {
            lo + BATCH_SIZE
        } else {
            n
        };
        let mut s = parts[lo].clone();
        let mut k: usize = lo + 1;
        proof {
            assert(pv.subrange(lo as int, k as int) =~= seq![pv[lo as int]]);
        }
        while k < hi
            invariant
                lo < k <= hi,
                hi <= parts@.len(),
                pv == parts@.map_values(|p: String| p@),
                s@ == join_bar(pv.subrange(lo as int, k as int)),
            decreases hi - k,
        {
            s.append("|");
            s.append(parts[k].as_str());
            proof {
                reveal_strlit("|");
                let sub = pv.subrange(lo as int, k + 1);
                assert(sub.drop_last() =~= pv.subrange(lo as int, k as int));
                assert(sub.last() == pv[k as int]);
            }
            k = k + 1;
        }
        proof {
            assert(batch(pv, c as int) =~= pv.subrange(lo as int, hi as int));
        }
        out.push(s);
        c = c + 1;
    }
    out
}

} // verus!
