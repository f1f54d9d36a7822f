//! Literal splitting of text on a separator string.
use vstd::prelude::*;

verus! {

/// The pieces of `s` split on every leftmost, non-overlapping occurrence of `sep`,
/// where the current piece starts at `cur` and the scan has reached `i`.
pub open spec fn split_scan(s: Seq<char>, sep: Seq<char>, cur: int, i: int) -> Seq<Seq<char>>
    decreases s.len() - i,
{
    if sep.len() == 0 || i < 0 || i + sep.len() > s.len() {
        seq![s.subrange(cur, s.len() as int)]
    } else if s.subrange(i, i + sep.len()) == sep {
        seq![s.subrange(cur, i)] + split_scan(s, sep, i + sep.len(), i + sep.len())
    } else {
        split_scan(s, sep, cur, i + 1)
    }
}

/// The pieces of `s` between the occurrences of `sep`, taken from left to right.
pub open spec fn split_text(s: Seq<char>, sep: Seq<char>) -> Seq<Seq<char>> {
    split_scan(s, sep, 0, 0)
}

/// Whether `sep` occurs in `s` starting at character `i`.
fn occurs_at(s: &str, sep: &str, i: usize) -> (r: bool)
    requires
        i + sep@.len() <= s@.len(),
        s@.len() <= usize::MAX,
    ensures
        r == (s@.subrange(i as int, i + sep@.len()) == sep@),
{
    let m = sep.unicode_len();
    let mut k: usize = 0;
    while k < m
        invariant
            m == sep@.len(),
            i + m <= s@.len(),
            s@.len() <= usize::MAX,
            k <= m,
            s@.subrange(i as int, i + k) =~= sep@.subrange(0, k as int),
        decreases m - k,
    {
        if s.get_char(i + k) != sep.get_char(k) {
            assert(s@.subrange(i as int, i + m)[k as int] != sep@[k as int]);
            return false;
        }
        k = k + 1;
        assert(s@.subrange(i as int, i + k) =~= sep@.subrange(0, k as int));
    }
    assert(s@.subrange(i as int, i + m) =~= sep@);
    true
}

/// Splits `s` on the literal separator `sep`, keeping empty pieces.
pub fn split_on<'a>(s: &'a str, sep: &str) -> (r: Vec<&'a str>)
    requires
        sep@.len() > 0,
    ensures
        r@.map_values(|p: &str| p@) == split_text(s@, sep@),
{
    let n = s.unicode_len();
    let m = sep.unicode_len();
    let mut out: Vec<&'a str> = Vec::new();
    let mut cur: usize = 0;
    let mut i: usize = 0;
    while m <= n - i
        invariant
            n == s@.len(),
            m == sep@.len(),
            m > 0,
            cur <= i,
            i <= n,
            out@.map_values(|p: &str| p@) + split_scan(s@, sep@, cur as int, i as int)
                == split_text(s@, sep@),
        decreases n - i,
    {
        if occurs_at(s, sep, i) {
            let piece = s.substring_char(cur, i);
            let ghost before = out@.map_values(|p: &str| p@);
            assert(split_scan(s@, sep@, cur as int, i as int) == seq![piece@] + split_scan(
                s@,
                sep@,
                i + m,
                i + m,
            ));
            out.push(piece);
            assert(out@.map_values(|p: &str| p@) =~= before.push(piece@));
            assert(before + (seq![piece@] + split_scan(s@, sep@, i + m, i + m)) =~= before.push(
                piece@,
            ) + split_scan(s@, sep@, i + m, i + m));
            i = i + m;
            cur = i;
        } else {
            i = i + 1;
        }
    }
    let last = s.substring_char(cur, n);
    let ghost before = out@.map_values(|p: &str| p@);
    assert(split_scan(s@, sep@, cur as int, i as int) == seq![last@]);
    out.push(last);
    assert(out@.map_values(|p: &str| p@) =~= before + split_scan(s@, sep@, cur as int, i as int));
    out
}

/// Whether `a` and `b` are the same text.
pub fn same_text(a: &str, b: &str) -> (r: bool)
    ensures
        r == (a@ == b@),
{
    let n = a.unicode_len();
    if n != b.unicode_len() {
        return false;
    }
    let mut k: usize = 0;
    while k < n
        invariant
            n == a@.len(),
            n == b@.len(),
            k <= n,
            a@.take(k as int) =~= b@.take(k as int),
        decreases n - k,
    {
        if a.get_char(k) != b.get_char(k) {
            return false;
        }
        k = k + 1;
        assert(a@.take(k as int) =~= b@.take(k as int));
    }
    assert(a@.take(n as int) =~= a@);
    assert(b@.take(n as int) =~= b@);
    true
}

} // verus!
