//! Properties of range expansion, stated over the model and proved.
use vstd::prelude::*;
use crate::numeric::{
    all_digits, digit_value, digits_value, integer_of, integer_within, is_digit, is_space,
    trim, trim_end, trim_start, Steppable,
};
use crate::range::{
    comma, dash, negated, number_of, part_values, parts_values, range_values, single_values, span,
    Failure,
};
use crate::text::{split_scan, split_text};

verus! {

/// The decimal digit for `d`, where `0 <= d < 10`.
pub open spec fn digit_char(d: int) -> char {
    seq!['0', '1', '2', '3', '4', '5', '6', '7', '8', '9'][d]
}

/// The shortest decimal digits of `m`.
pub open spec fn digits_text(m: nat) -> Seq<char>
    decreases m,
{
    if m < 10 {
        seq![digit_char(m as int)]
    } else {
        digits_text(m / 10) + seq![digit_char((m % 10) as int)]
    }
}

/// How `n` is written in decimal: its digits, after a minus sign where it is negative.
pub open spec fn decimal_text(n: int) -> Seq<char> {
    if n < 0 {
        negated(digits_text((-n) as nat))
    } else {
        digits_text(n as nat)
    }
}

/// The expression for the range from `a` to `b`: both written in decimal, with
/// the range separator between them.
pub open spec fn range_text(a: int, b: int) -> Seq<char> {
    decimal_text(a) + dash() + decimal_text(b)
}

/// Whether the character `c` does not occur in `s`.
pub open spec fn lacks(s: Seq<char>, c: char) -> bool {
    forall|k: int| 0 <= k < s.len() ==> s[k] != c
}

proof fn lemma_digit_char(d: int)
    requires
        0 <= d < 10,
    ensures
        is_digit(digit_char(d)),
        digit_value(digit_char(d)) == d,
{
    let t = seq!['0', '1', '2', '3', '4', '5', '6', '7', '8', '9'];
    assert(t[0] == '0' && t[1] == '1' && t[2] == '2' && t[3] == '3' && t[4] == '4');
    assert(t[5] == '5' && t[6] == '6' && t[7] == '7' && t[8] == '8' && t[9] == '9');
}

proof fn lemma_digits_text(m: nat)
    ensures
        digits_text(m).len() > 0,
        all_digits(digits_text(m)),
        digits_value(digits_text(m)) == m,
        lacks(digits_text(m), '-'),
        lacks(digits_text(m), ','),
    decreases m,
{
    let t = digits_text(m);
    if m < 10 {
        lemma_digit_char(m as int);
        assert(t.drop_last() =~= Seq::<char>::empty());
        assert(digits_value(Seq::<char>::empty()) == 0);
        assert(t.last() == digit_char(m as int));
        assert(digits_value(t) == 10 * digits_value(t.drop_last()) + digit_value(t.last()));
    } else {
        lemma_digits_text(m / 10);
        lemma_digit_char((m % 10) as int);
        assert(t.drop_last() =~= digits_text(m / 10));
        assert(t.last() == digit_char((m % 10) as int));
        assert(10 * (m / 10) + m % 10 == m);
        assert(digits_value(t) == 10 * digits_value(t.drop_last()) + digit_value(t.last()));
    }
    assert(forall|k: int| 0 <= k < t.len() ==> is_digit(#[trigger] t[k]));
}

proof fn lemma_scan_shift(p: Seq<char>, y: Seq<char>, sep: Seq<char>, cur: int, i: int)
    requires
        0 <= cur <= i <= y.len(),
        sep.len() > 0,
    ensures
        split_scan(p + y, sep, p.len() + cur, p.len() + i) == split_scan(y, sep, cur, i),
    decreases y.len() - i,
{
    let s = p + y;
    assert(s.subrange(p.len() + cur, s.len() as int) =~= y.subrange(cur, y.len() as int));
    if i + sep.len() <= y.len() {
        assert(s.subrange(p.len() + i, p.len() + i + sep.len()) =~= y.subrange(i, i + sep.len()));
        assert(s.subrange(p.len() + cur, p.len() + i) =~= y.subrange(cur, i));
        if y.subrange(i, i + sep.len()) == sep {
            lemma_scan_shift(p, y, sep, i + sep.len(), i + sep.len());
        } else {
            lemma_scan_shift(p, y, sep, cur, i + 1);
        }
    }
}

proof fn lemma_scan_plain(s: Seq<char>, c: char, cur: int, i: int)
    requires
        0 <= cur <= i <= s.len(),
        forall|k: int| i <= k < s.len() ==> s[k] != c,
    ensures
        split_scan(s, seq![c], cur, i) == seq![s.subrange(cur, s.len() as int)],
    decreases s.len() - i,
{
    if i + 1 <= s.len() {
        assert(s.subrange(i, i + 1)[0] == s[i]);
        lemma_scan_plain(s, c, cur, i + 1);
    }
}

proof fn lemma_scan_to(s: Seq<char>, c: char, cur: int, i: int, j: int)
    requires
        0 <= cur <= i <= j < s.len(),
        s[j] == c,
        forall|k: int| i <= k < j ==> s[k] != c,
    ensures
        split_scan(s, seq![c], cur, i) == seq![s.subrange(cur, j)] + split_scan(
            s,
            seq![c],
            j + 1,
            j + 1,
        ),
    decreases j - i,
{
    if i < j {
        assert(s.subrange(i, i + 1)[0] == s[i]);
        lemma_scan_to(s, c, cur, i + 1, j);
    } else {
        assert(s.subrange(j, j + 1) =~= seq![c]);
    }
}

/// Text without the character `c` is one piece.
proof fn lemma_split_plain(x: Seq<char>, c: char)
    requires
        lacks(x, c),
    ensures
        split_text(x, seq![c]) == seq![x],
{
    lemma_scan_plain(x, c, 0, 0);
    assert(x.subrange(0, x.len() as int) =~= x);
}

/// Splitting `x c y`, where `x` lacks `c`, gives `x` and then the pieces of `y`.
proof fn lemma_split_join(x: Seq<char>, c: char, y: Seq<char>)
    requires
        lacks(x, c),
    ensures
        split_text(x + seq![c] + y, seq![c]) == seq![x] + split_text(y, seq![c]),
{
    let s = x + seq![c] + y;
    lemma_scan_to(s, c, 0, 0, x.len() as int);
    assert(s.subrange(0, x.len() as int) =~= x);
    let p = x + seq![c];
    assert(s =~= p + y);
    lemma_scan_shift(p, y, seq![c], 0, 0);
}

/// The number written in decimal is read back as itself.
proof fn lemma_number_of_decimal(n: int, lo: int, hi: int)
    requires
        lo <= n <= hi,
        lo <= 0,
    ensures
        number_of(decimal_text(n), lo, hi) == Ok::<int, Failure>(n),
        decimal_text(n).len() > 0,
        lacks(decimal_text(n), ','),
        n >= 0 ==> lacks(decimal_text(n), '-'),
        n < 0 ==> decimal_text(n) == negated(digits_text((-n) as nat)),
        n < 0 ==> lacks(digits_text((-n) as nat), '-'),
{
    let m: nat = if n < 0 {
        (-n) as nat
    } else {
        n as nat
    };
    let d = digits_text(m);
    lemma_digits_text(m);
    let t = decimal_text(n);
    assert(!is_space(d[0]) && !is_space(d.last()));
    if n < 0 {
        assert(t.drop_first() =~= d);
        assert(t[0] == '-');
        assert(!is_space(t[0]));
    }
    assert(trim_start(t) == t);
    assert(trim_end(t) == t);
    assert(trim(t) == t);
    assert(integer_of(t, lo < 0) == Some(n));
    assert(integer_within(t, lo, hi) == Some(n));
    assert forall|k: int| 0 <= k < t.len() implies t[k] != ',' by {
        if n < 0 && k > 0 {
            assert(t[k] == d[k - 1]);
        }
    }
}

/// An expression of one part, without the value separator, has the values of that part.
proof fn lemma_one_part(t: Seq<char>, lo: int, hi: int)
    requires
        lacks(t, ','),
    ensures
        range_values(t, comma(), dash(), lo, hi) == part_values(t, dash(), lo, hi),
{
    lemma_split_plain(t, ',');
    assert(comma() != dash()) by {
        assert(comma()[0] != dash()[0]);
    }
    let parts = seq![t];
    assert(parts.drop_last() =~= Seq::<Seq<char>>::empty());
    assert(parts_values(parts.drop_last(), dash(), lo, hi) == Ok::<Seq<int>, Failure>(
        Seq::<int>::empty(),
    ));
    assert(parts.last() == t);
    match part_values(t, dash(), lo, hi) {
        Ok(v) => {
            assert(Seq::<int>::empty() + v =~= v);
        },
        Err(_) => {},
    }
}

/// The part `a-b` cut on the range separator, read as the pair `a`, `b`.
proof fn lemma_range_part(a: int, b: int, lo: int, hi: int)
    requires
        lo <= a <= hi,
        lo <= b <= hi,
        lo <= 0,
    ensures
        lacks(range_text(a, b), ','),
        part_values(range_text(a, b), dash(), lo, hi) == if a > b {
            Err::<Seq<int>, Failure>(Failure::StartBiggerThanEnd(range_text(a, b)))
        } else {
            Ok::<Seq<int>, Failure>(span(a, b))
        },
{
    let x = decimal_text(a);
    let y = decimal_text(b);
    let s = range_text(a, b);
    lemma_number_of_decimal(a, lo, hi);
    lemma_number_of_decimal(b, lo, hi);
    assert(s =~= x + seq!['-'] + y);
    assert forall|k: int| 0 <= k < s.len() implies s[k] != ',' by {
        if k < x.len() {
            assert(s[k] == x[k]);
        } else if k > x.len() {
            assert(s[k] == y[k - x.len() - 1]);
        }
    }
    let e = Seq::<char>::empty();
    let ys = split_text(y, dash());
    if b < 0 {
        let dy = digits_text((-b) as nat);
        assert(y =~= e + seq!['-'] + dy);
        lemma_split_join(e, '-', dy);
        lemma_split_plain(dy, '-');
        assert(ys =~= seq![e, dy]);
    } else {
        lemma_split_plain(y, '-');
    }
    let f = split_text(s, dash());
    if a < 0 {
        let dx = digits_text((-a) as nat);
        assert(s =~= e + seq!['-'] + (dx + seq!['-'] + y));
        lemma_split_join(e, '-', dx + seq!['-'] + y);
        lemma_split_join(dx, '-', y);
        assert(x == negated(dx));
        if b < 0 {
            assert(f =~= seq![e, dx, e, digits_text((-b) as nat)]);
        } else {
            assert(f =~= seq![e, dx, y]);
        }
    } else {
        lemma_split_join(x, '-', y);
        assert(x.len() > 0);
        if b < 0 {
            assert(f =~= seq![x, e, digits_text((-b) as nat)]);
        } else {
            assert(f =~= seq![x, y]);
        }
    }
}

/// A single value, written in decimal, parses to exactly that value.
pub proof fn lemma_single_value<T: Steppable>(v: T)
    ensures
        range_values(decimal_text(v.value()), comma(), dash(), T::lowest(), T::highest()) == Ok::<
            Seq<int>,
            Failure,
        >(seq![v.value()]),
{
    T::lemma_value_within(v);
    T::lemma_bounds();
    let n = v.value();
    let t = decimal_text(n);
    lemma_number_of_decimal(n, T::lowest(), T::highest());
    if n < 0 {
        let d = digits_text((-n) as nat);
        assert(t =~= Seq::<char>::empty() + seq!['-'] + d);
        lemma_split_join(Seq::<char>::empty(), '-', d);
        lemma_split_plain(d, '-');
        assert(split_text(t, dash()) =~= seq![Seq::<char>::empty(), d]);
    } else {
        lemma_split_plain(t, '-');
    }
    lemma_one_part(t, T::lowest(), T::highest());
}

/// For `a <= b`, the expression `a-b` expands to every integer from `a` up to
/// `b`, in ascending order: `b - a + 1` values.
pub proof fn lemma_range_expands<T: Steppable>(a: T, b: T)
    requires
        a.value() <= b.value(),
    ensures
        range_values(range_text(a.value(), b.value()), comma(), dash(), T::lowest(), T::highest())
            == Ok::<Seq<int>, Failure>(span(a.value(), b.value())),
        part_values(range_text(a.value(), b.value()), dash(), T::lowest(), T::highest()) == Ok::<
            Seq<int>,
            Failure,
        >(span(a.value(), b.value())),
        span(a.value(), b.value()).len() == b.value() - a.value() + 1,
        forall|i: int|
            0 <= i < span(a.value(), b.value()).len() ==> #[trigger] span(a.value(), b.value())[i]
                == a.value() + i,
{
    T::lemma_value_within(a);
    T::lemma_value_within(b);
    T::lemma_bounds();
    lemma_range_part(a.value(), b.value(), T::lowest(), T::highest());
    lemma_one_part(range_text(a.value(), b.value()), T::lowest(), T::highest());
}

/// For `a > b`, the expression `a-b` fails: its start is bigger than its end.
pub proof fn lemma_reversed_range_fails<T: Steppable>(a: T, b: T)
    requires
        a.value() > b.value(),
    ensures
        range_values(range_text(a.value(), b.value()), comma(), dash(), T::lowest(), T::highest())
            == Err::<Seq<int>, Failure>(
            Failure::StartBiggerThanEnd(range_text(a.value(), b.value())),
        ),
{
    T::lemma_value_within(a);
    T::lemma_value_within(b);
    T::lemma_bounds();
    lemma_range_part(a.value(), b.value(), T::lowest(), T::highest());
    lemma_one_part(range_text(a.value(), b.value()), T::lowest(), T::highest());
}

/// Whatever the expression, equal value and range separators make it fail,
/// before any of it is read.
pub proof fn lemma_equal_separators_fail<T: Steppable>(s: Seq<char>, sep: Seq<char>)
    ensures
        range_values(s, sep, sep, T::lowest(), T::highest()) == Err::<Seq<int>, Failure>(
            Failure::SeparatorsMustBeDifferent,
        ),
{
}

/// The values of an expression depend on its text, its separators and the
/// value type alone: expanding the same input twice gives the same outcome.
pub proof fn lemma_expansion_is_deterministic<T: Steppable>(
    s1: Seq<char>,
    s2: Seq<char>,
    vsep: Seq<char>,
    rsep: Seq<char>,
)
    requires
        s1 == s2,
    ensures
        range_values(s1, vsep, rsep, T::lowest(), T::highest()) == range_values(
            s2,
            vsep,
            rsep,
            T::lowest(),
            T::highest(),
        ),
{
}

} // verus!
