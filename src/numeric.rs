//! Whitespace trimming, decimal integer text, and the integer types that a
//! range can be expanded over.
use vstd::prelude::*;

verus! {

/// The characters with the Unicode `White_Space` property.
pub open spec fn is_space(c: char) -> bool {
    let n = c as u32;
    (0x09 <= n && n <= 0x0D) || n == 0x20 || n == 0x85 || n == 0xA0 || n == 0x1680 || (0x2000
        <= n && n <= 0x200A) || n == 0x2028 || n == 0x2029 || n == 0x202F || n == 0x205F || n
        == 0x3000
}

/// `s` without its leading white space.
pub open spec fn trim_start(s: Seq<char>) -> Seq<char>
    decreases s.len(),
{
    if s.len() > 0 && is_space(s[0]) {
        trim_start(s.drop_first())
    } else {
        s
    }
}

/// `s` without its trailing white space.
pub open spec fn trim_end(s: Seq<char>) -> Seq<char>
    decreases s.len(),
{
    if s.len() > 0 && is_space(s.last()) {
        trim_end(s.drop_last())
    } else {
        s
    }
}

/// `s` without its surrounding white space.
pub open spec fn trim(s: Seq<char>) -> Seq<char> {
    trim_end(trim_start(s))
}

pub open spec fn is_digit(c: char) -> bool {
    '0' <= c && c <= '9'
}

pub open spec fn digit_value(c: char) -> int {
    (c as u32) - ('0' as u32)
}

pub open spec fn all_digits(s: Seq<char>) -> bool {
    forall|i: int| 0 <= i < s.len() ==> is_digit(#[trigger] s[i])
}

/// The number that a string of decimal digits denotes.
pub open spec fn digits_value(s: Seq<char>) -> int
    decreases s.len(),
{
    if s.len() == 0 {
        0
    } else {
        10 * digits_value(s.drop_last()) + digit_value(s.last())
    }
}

/// The integer written in `s`: an optional `+` sign (or `-` sign, where
/// `signed`), then one or more decimal digits, and nothing else.
pub open spec fn integer_of(s: Seq<char>, signed: bool) -> Option<int> {
    let neg = signed && s.len() > 0 && s[0] == '-';
    let body = if s.len() > 0 && (s[0] == '+' || neg) {
        s.drop_first()
    } else {
        s
    };
    if body.len() > 0 && all_digits(body) {
        Some(
            if neg {
                -digits_value(body)
            } else {
                digits_value(body)
            },
        )
    } else {
        None
    }
}

/// The integer written in `s`, where it lies within `lo ..= hi`.
pub open spec fn integer_within(s: Seq<char>, lo: int, hi: int) -> Option<int> {
    match integer_of(s, lo < 0) {
        Some(n) => if lo <= n <= hi {
            Some(n)
        } else {
            None
        },
        None => None,
    }
}

fn is_space_char(c: char) -> (r: bool)
    ensures
        r == is_space(c),
{
    let n = c as u32;
    (0x09 <= n && n <= 0x0D) || n == 0x20 || n == 0x85 || n == 0xA0 || n == 0x1680 || (0x2000
        <= n && n <= 0x200A) || n == 0x2028 || n == 0x2029 || n == 0x202F || n == 0x205F || n
        == 0x3000
}

/// `s` without its surrounding white space.
pub fn trim_text(s: &str) -> (r: &str)
    ensures
        r@ == trim(s@),
{
    let n = s.unicode_len();
    let mut lo: usize = 0;
    assert(s@.subrange(0, n as int) =~= s@);
    while lo < n && is_space_char(s.get_char(lo))
        invariant
            n == s@.len(),
            lo <= n,
            trim_start(s@.subrange(lo as int, n as int)) == trim_start(s@),
        decreases n - lo,
    {
        assert(s@.subrange(lo as int, n as int).drop_first() =~= s@.subrange(lo + 1, n as int));
        lo = lo + 1;
    }
    assert(trim_start(s@) == s@.subrange(lo as int, n as int));
    let mut hi: usize = n;
    while hi > lo && is_space_char(s.get_char(hi - 1))
        invariant
            n == s@.len(),
            lo <= hi <= n,
            trim_end(s@.subrange(lo as int, hi as int)) == trim(s@),
        decreases hi,
    {
        assert(s@.subrange(lo as int, hi as int).drop_last() =~= s@.subrange(
            lo as int,
            hi - 1,
        ));
        hi = hi - 1;
    }
    s.substring_char(lo, hi)
}

proof fn lemma_digits_prefix_grows(s: Seq<char>, j: int, k: int)
    requires
        0 <= j <= k <= s.len(),
        all_digits(s),
    ensures
        0 <= digits_value(s.take(j)) <= digits_value(s.take(k)),
    decreases k,
{
    if k > 0 {
        assert(s.take(k).drop_last() =~= s.take(k - 1));
        assert(is_digit(s[k - 1]));
        if j < k {
            lemma_digits_prefix_grows(s, j, k - 1);
        } else {
            lemma_digits_prefix_grows(s, k - 1, k - 1);
        }
    }
}

/// The integer written in `s`, where it lies within `lo ..= hi`.
pub fn integer_in(s: &str, lo: i128, hi: i128) -> (r: Option<i128>)
    requires
        -WIDE_LIMIT <= lo <= 0 < hi <= WIDE_LIMIT,
    ensures
        r matches Some(v) ==> integer_within(s@, lo as int, hi as int) == Some(v as int),
        r is None ==> integer_within(s@, lo as int, hi as int) is None,
{
    let n = s.unicode_len();
    let signed = lo < 0;
    let mut neg = false;
    let mut start: usize = 0;
    if n > 0 {
        let c = s.get_char(0);
        if c == '+' {
            start = 1;
        } else if signed && c == '-' {
            neg = true;
            start = 1;
        }
    }
    if start >= n {
        return None;
    }
    let ghost body = s@.subrange(start as int, n as int);
    assert(body =~= if start == 1 { s@.drop_first() } else { s@ });
    assert(neg == (signed && s@.len() > 0 && s@[0] == '-'));
    assert(start == 1 <==> (s@.len() > 0 && (s@[0] == '+' || neg)));
    let mut acc: u128 = 0;
    let mut k: usize = start;
    while k < n
        invariant
            n == s@.len(),
            start <= k <= n,
            body == s@.subrange(start as int, n as int),
            body == if start == 1 {
                s@.drop_first()
            } else {
                s@
            },
            signed == (lo < 0),
            neg == (signed && s@.len() > 0 && s@[0] == '-'),
            start == 1 <==> (s@.len() > 0 && (s@[0] == '+' || neg)),
            -WIDE_LIMIT <= lo <= 0 < hi <= WIDE_LIMIT,
            all_digits(body.take(k - start)),
            acc == digits_value(body.take(k - start)),
            acc <= WIDE_LIMIT,
        decreases n - k,
    {
        let c = s.get_char(k);
        if c < '0' || c > '9' {
            assert(!is_digit(body[k - start]));
            assert(!all_digits(body));
            return None;
        }
        let d = (c as u32 - '0' as u32) as u128;
        assert(body.take(k - start + 1).drop_last() =~= body.take(k - start));
        acc = acc * 10 + d;
        assert(all_digits(body.take(k - start + 1)));
        if acc > WIDE_LIMIT as u128 {
            proof {
                if all_digits(body) {
                    assert(body.take(body.len() as int) =~= body);
                    lemma_digits_prefix_grows(body, k - start + 1, body.len() as int);
                }
            }
            return None;
        }
        k = k + 1;
    }
    assert(body.take(k - start) =~= body);
    let v: i128 = if neg {
        -(acc as i128)
    } else {
        acc as i128
    };
    if v < lo || v > hi {
        None
    } else {
        Some(v)
    }
}

/// The bound, in magnitude, of every value of a `Steppable` type.
pub const WIDE_LIMIT: i128 = 0x1_0000_0000_0000_0000;

/// An integer type whose values a range can run over, one unit at a time.
///
/// Every value is modelled by the mathematical integer `value()`, which lies
/// in `lowest() ..= highest()`; both bounds have a magnitude of at most
/// `WIDE_LIMIT`, so every value and its successor fit in an `i128`.
pub trait Steppable: Sized + Copy {
    /// The integer that a value stands for.
    spec fn value(&self) -> int;

    /// The least value of the type.
    spec fn lowest() -> int;

    /// The greatest value of the type.
    spec fn highest() -> int;

    proof fn lemma_bounds()
        ensures
            -WIDE_LIMIT <= Self::lowest() <= 0 < Self::highest() <= WIDE_LIMIT,
    ;

    proof fn lemma_value_within(v: Self)
        ensures
            Self::lowest() <= v.value() <= Self::highest(),
    ;

    /// The least value, widened.
    fn low() -> (r: i128)
        ensures
            r == Self::lowest(),
            -WIDE_LIMIT <= r <= 0,
    ;

    /// The greatest value, widened.
    fn high() -> (r: i128)
        ensures
            r == Self::highest(),
            0 < r <= WIDE_LIMIT,
    ;

    /// This value, widened.
    fn widen(&self) -> (r: i128)
        ensures
            r == self.value(),
            Self::lowest() <= r <= Self::highest(),
    ;

    /// The value that stands for `n`.
    fn narrow(n: i128) -> (r: Self)
        requires
            Self::lowest() <= n <= Self::highest(),
        ensures
            r.value() == n,
    ;
}

impl Steppable for i8 {
    proof fn lemma_value_within(v: Self) {
    }

    proof fn lemma_bounds() {
    }

    open spec fn value(&self) -> int {
        *self as int
    }

    open spec fn lowest() -> int {
        i8::MIN as int
    }

    open spec fn highest() -> int {
        i8::MAX as int
    }

    fn low() -> (r: i128) {
        i8::MIN as i128
    }

    fn high() -> (r: i128) {
        i8::MAX as i128
    }

    fn widen(&self) -> (r: i128) {
        *self as i128
    }

    fn narrow(n: i128) -> (r: Self) {
        n as i8
    }
}

impl Steppable for i16 {
    proof fn lemma_value_within(v: Self) {
    }

    proof fn lemma_bounds() {
    }

    open spec fn value(&self) -> int {
        *self as int
    }

    open spec fn lowest() -> int {
        i16::MIN as int
    }

    open spec fn highest() -> int {
        i16::MAX as int
    }

    fn low() -> (r: i128) {
        i16::MIN as i128
    }

    fn high() -> (r: i128) {
        i16::MAX as i128
    }

    fn widen(&self) -> (r: i128) {
        *self as i128
    }

    fn narrow(n: i128) -> (r: Self) {
        n as i16
    }
}

impl Steppable for i32 {
    proof fn lemma_value_within(v: Self) {
    }

    proof fn lemma_bounds() {
    }

    open spec fn value(&self) -> int {
        *self as int
    }

    open spec fn lowest() -> int {
        i32::MIN as int
    }

    open spec fn highest() -> int {
        i32::MAX as int
    }

    fn low() -> (r: i128) {
        i32::MIN as i128
    }

    fn high() -> (r: i128) {
        i32::MAX as i128
    }

    fn widen(&self) -> (r: i128) {
        *self as i128
    }

    fn narrow(n: i128) -> (r: Self) {
        n as i32
    }
}

impl Steppable for i64 {
    proof fn lemma_value_within(v: Self) {
    }

    proof fn lemma_bounds() {
    }

    open spec fn value(&self) -> int {
        *self as int
    }

    open spec fn lowest() -> int {
        i64::MIN as int
    }

    open spec fn highest() -> int {
        i64::MAX as int
    }

    fn low() -> (r: i128) {
        i64::MIN as i128
    }

    fn high() -> (r: i128) {
        i64::MAX as i128
    }

    fn widen(&self) -> (r: i128) {
        *self as i128
    }

    fn narrow(n: i128) -> (r: Self) {
        n as i64
    }
}

impl Steppable for isize {
    proof fn lemma_value_within(v: Self) {
    }

    proof fn lemma_bounds() {
    }

    open spec fn value(&self) -> int {
        *self as int
    }

    open spec fn lowest() -> int {
        isize::MIN as int
    }

    open spec fn highest() -> int {
        isize::MAX as int
    }

    fn low() -> (r: i128) {
        isize::MIN as i128
    }

    fn high() -> (r: i128) {
        isize::MAX as i128
    }

    fn widen(&self) -> (r: i128) {
        *self as i128
    }

    fn narrow(n: i128) -> (r: Self) {
        n as isize
    }
}

impl Steppable for u8 {
    proof fn lemma_value_within(v: Self) {
    }

    proof fn lemma_bounds() {
    }

    open spec fn value(&self) -> int {
        *self as int
    }

    open spec fn lowest() -> int {
        u8::MIN as int
    }

    open spec fn highest() -> int {
        u8::MAX as int
    }

    fn low() -> (r: i128) {
        u8::MIN as i128
    }

    fn high() -> (r: i128) {
        u8::MAX as i128
    }

    fn widen(&self) -> (r: i128) {
        *self as i128
    }

    fn narrow(n: i128) -> (r: Self) {
        n as u8
    }
}

impl Steppable for u16 {
    proof fn lemma_value_within(v: Self) {
    }

    proof fn lemma_bounds() {
    }

    open spec fn value(&self) -> int {
        *self as int
    }

    open spec fn lowest() -> int {
        u16::MIN as int
    }

    open spec fn highest() -> int {
        u16::MAX as int
    }

    fn low() -> (r: i128) {
        u16::MIN as i128
    }

    fn high() -> (r: i128) {
        u16::MAX as i128
    }

    fn widen(&self) -> (r: i128) {
        *self as i128
    }

    fn narrow(n: i128) -> (r: Self) {
        n as u16
    }
}

impl Steppable for u32 {
    proof fn lemma_value_within(v: Self) {
    }

    proof fn lemma_bounds() {
    }

    open spec fn value(&self) -> int {
        *self as int
    }

    open spec fn lowest() -> int {
        u32::MIN as int
    }

    open spec fn highest() -> int {
        u32::MAX as int
    }

    fn low() -> (r: i128) {
        u32::MIN as i128
    }

    fn high() -> (r: i128) {
        u32::MAX as i128
    }

    fn widen(&self) -> (r: i128) {
        *self as i128
    }

    fn narrow(n: i128) -> (r: Self) {
        n as u32
    }
}

impl Steppable for u64 {
    proof fn lemma_value_within(v: Self) {
    }

    proof fn lemma_bounds() {
    }

    open spec fn value(&self) -> int {
        *self as int
    }

    open spec fn lowest() -> int {
        u64::MIN as int
    }

    open spec fn highest() -> int {
        u64::MAX as int
    }

    fn low() -> (r: i128) {
        u64::MIN as i128
    }

    fn high() -> (r: i128) {
        u64::MAX as i128
    }

    fn widen(&self) -> (r: i128) {
        *self as i128
    }

    fn narrow(n: i128) -> (r: Self) {
        n as u64
    }
}

impl Steppable for usize {
    proof fn lemma_value_within(v: Self) {
    }

    proof fn lemma_bounds() {
    }

    open spec fn value(&self) -> int {
        *self as int
    }

    open spec fn lowest() -> int {
        usize::MIN as int
    }

    open spec fn highest() -> int {
        usize::MAX as int
    }

    fn low() -> (r: i128) {
        usize::MIN as i128
    }

    fn high() -> (r: i128) {
        usize::MAX as i128
    }

    fn widen(&self) -> (r: i128) {
        *self as i128
    }

    fn narrow(n: i128) -> (r: Self) {
        n as usize
    }
}

} // verus!
