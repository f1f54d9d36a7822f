//! Expansion of range expressions into the values they denote.
use vstd::prelude::*;
use vstd::string::StringExecFns;
use crate::numeric::{integer_in, integer_within, trim, trim_text, Steppable};
use crate::text::{same_text, split_on, split_text};

verus! {

/// Why a range expression was refused.
#[derive(Debug, Clone, PartialEq, Eq)]
pub enum RangeError {
    /// A part whose occurrences of the range separator fit no known shape.
    InvalidRangeSyntax(String),
    /// A fragment that is not a number of the requested type.
    NotANumber(String),
    /// The value separator and the range separator are the same text.
    SeparatorsMustBeDifferent,
    /// A part whose start lies above its end.
    StartBiggerThanEnd(String),
}

/// The outcome of a parse.
pub type RangeResult<T> = Result<T, RangeError>;

/// A `RangeError` with its text seen as characters.
pub enum Failure {
    InvalidRangeSyntax(Seq<char>),
    NotANumber(Seq<char>),
    SeparatorsMustBeDifferent,
    StartBiggerThanEnd(Seq<char>),
}

impl View for RangeError {
    type V = Failure;

    open spec fn view(&self) -> Failure {
        match self {
            RangeError::InvalidRangeSyntax(p) => Failure::InvalidRangeSyntax(p@),
            RangeError::NotANumber(p) => Failure::NotANumber(p@),
            RangeError::SeparatorsMustBeDifferent => Failure::SeparatorsMustBeDifferent,
            RangeError::StartBiggerThanEnd(p) => Failure::StartBiggerThanEnd(p@),
        }
    }
}

/// The integers from `a` up to `b`, both included (empty where `b < a`).
pub open spec fn span(a: int, b: int) -> Seq<int> {
    Seq::new(if b < a { 0 } else { (b - a + 1) as nat }, |i: int| a + i)
}

/// `s` with a minus sign put in front.
pub open spec fn negated(s: Seq<char>) -> Seq<char> {
    seq!['-'] + s
}

/// The number in the fragment `frag`, once trimmed, within `lo ..= hi`.
pub open spec fn number_of(frag: Seq<char>, lo: int, hi: int) -> Result<int, Failure> {
    match integer_within(trim(frag), lo, hi) {
        Some(n) => Ok(n),
        None => Err(Failure::NotANumber(frag)),
    }
}

/// The one value written in `frag`.
pub open spec fn single_values(frag: Seq<char>, lo: int, hi: int) -> Result<Seq<int>, Failure> {
    match number_of(frag, lo, hi) {
        Ok(n) => Ok(seq![n]),
        Err(e) => Err(e),
    }
}

/// The values of the part `part`, read as the range from `first` to `last`.
pub open spec fn pair_values(
    part: Seq<char>,
    first: Seq<char>,
    last: Seq<char>,
    lo: int,
    hi: int,
) -> Result<Seq<int>, Failure> {
    match number_of(first, lo, hi) {
        Err(e) => Err(e),
        Ok(a) => match number_of(last, lo, hi) {
            Err(e) => Err(e),
            Ok(b) => if a > b {
                Err(Failure::StartBiggerThanEnd(part))
            } else {
                Ok(span(a, b))
            },
        },
    }
}

/// What a part holds, read from its text alone.
pub enum Shape {
    /// One value, written in the text.
    Single(Seq<char>),
    /// A range, from the value written in the first text to that in the second.
    Pair(Seq<char>, Seq<char>),
}

/// What the part `part` holds, by the number of fragments that the range
/// separator `rsep` cuts it into and by whether the first of them is empty
/// (the separator then stood for the sign of a negative start).
pub open spec fn shape_of(part: Seq<char>, rsep: Seq<char>) -> Result<Shape, Failure> {
    let f = split_text(part, rsep);
    if f.len() <= 1 {
        Ok(Shape::Single(part))
    } else if f.len() == 2 && f[0].len() == 0 {
        Ok(Shape::Single(negated(f[1])))
    } else if f.len() == 2 {
        Ok(Shape::Pair(f[0], f[1]))
    } else if f.len() == 3 && f[0].len() == 0 {
        Ok(Shape::Pair(negated(f[1]), f[2]))
    } else if f.len() == 3 {
        Err(Failure::StartBiggerThanEnd(part))
    } else if f.len() == 4 {
        Ok(Shape::Pair(negated(f[1]), negated(f[3])))
    } else {
        Err(Failure::InvalidRangeSyntax(part))
    }
}

/// The values of one part.
pub open spec fn part_values(part: Seq<char>, rsep: Seq<char>, lo: int, hi: int) -> Result<
    Seq<int>,
    Failure,
> {
    match shape_of(part, rsep) {
        Err(e) => Err(e),
        Ok(Shape::Single(t)) => single_values(t, lo, hi),
        Ok(Shape::Pair(first, last)) => pair_values(part, first, last, lo, hi),
    }
}

/// The values of the parts, one after the other; the first failing part decides.
pub open spec fn parts_values(parts: Seq<Seq<char>>, rsep: Seq<char>, lo: int, hi: int) -> Result<
    Seq<int>,
    Failure,
>
    decreases parts.len(),
{
    if parts.len() == 0 {
        Ok(seq![])
    } else {
        match parts_values(parts.drop_last(), rsep, lo, hi) {
            Err(e) => Err(e),
            Ok(head) => match part_values(parts.last(), rsep, lo, hi) {
                Err(e) => Err(e),
                Ok(tail) => Ok(head + tail),
            },
        }
    }
}

/// The values that the expression `s` denotes, with the value separator
/// `vsep` and the range separator `rsep`, for a type with values in `lo ..= hi`.
pub open spec fn range_values(
    s: Seq<char>,
    vsep: Seq<char>,
    rsep: Seq<char>,
    lo: int,
    hi: int,
) -> Result<Seq<int>, Failure> {
    if vsep == rsep {
        Err(Failure::SeparatorsMustBeDifferent)
    } else {
        parts_values(split_text(s, vsep), rsep, lo, hi)
    }
}

/// The integers that a sequence of values stands for.
pub open spec fn values_of<T: Steppable>(v: Seq<T>) -> Seq<int> {
    v.map_values(|x: T| x.value())
}

/// A parse outcome, with its values and its error seen as models.
pub open spec fn outcome<T: Steppable>(r: Result<Vec<T>, RangeError>) -> Result<Seq<int>, Failure> {
    match r {
        Ok(v) => Ok(values_of(v@)),
        Err(e) => Err(e@),
    }
}

/// Appends `a, a + 1, ..., b` to `acc`.
fn push_span<T: Steppable>(acc: &mut Vec<T>, a: i128, b: i128)
    requires
        T::lowest() <= a <= b <= T::highest(),
    ensures
        values_of(final(acc)@) == values_of(old(acc)@) + span(a as int, b as int),
{
    let ghost start = values_of(acc@);
    proof {
        T::lemma_bounds();
    }
    let mut x: i128 = a;
    while x <= b
        invariant
            T::lowest() <= a <= x <= b + 1,
            b <= T::highest(),
            -crate::numeric::WIDE_LIMIT <= T::lowest(),
            T::highest() <= crate::numeric::WIDE_LIMIT,
            values_of(acc@) == start + span(a as int, x - 1),
        decreases b + 1 - x,
    {
        let v = T::narrow(x);
        let ghost prev = acc@;
        acc.push(v);
        assert(values_of(acc@) =~= values_of(prev).push(v.value()));
        assert(values_of(acc@) =~= start + span(a as int, x as int));
        x = x + 1;
    }
}

/// A fragment's parse outcome, seen as a model.
pub open spec fn number_outcome<T: Steppable>(r: Result<T, RangeError>) -> Result<int, Failure> {
    match r {
        Ok(v) => Ok(v.value()),
        Err(e) => Err(e@),
    }
}

/// Whether `after` is `before` with the values of `expected` appended, where
/// `r` is `Ok`; otherwise, whether `r` is the error of `expected` and `after`
/// is `before`, unchanged.
pub open spec fn appended<T: Steppable>(
    before: Seq<T>,
    after: Seq<T>,
    r: Result<(), RangeError>,
    expected: Result<Seq<int>, Failure>,
) -> bool {
    match r {
        Ok(_) => expected is Ok && values_of(after) == values_of(before) + expected->Ok_0,
        Err(e) => expected == Err::<Seq<int>, Failure>(e@) && after == before,
    }
}

/// Reads the fragment `part`, with its surrounding white space ignored, as a
/// value of `T`.
fn parse_as_t<T: Steppable>(part: &str) -> (r: Result<T, RangeError>)
    ensures
        number_outcome(r) == number_of(part@, T::lowest(), T::highest()),
{
    proof {
        T::lemma_bounds();
    }
    let t = trim_text(part);
    match integer_in(t, T::low(), T::high()) {
        Some(n) => Ok(T::narrow(n)),
        None => Err(RangeError::NotANumber(part.to_owned())),
    }
}

/// A minus sign followed by `s`.
fn with_minus(s: &str) -> (r: String)
    ensures
        r@ == negated(s@),
{
    proof {
        reveal_strlit("-");
    }
    String::from_str("-").concat(s)
}

/// What a part holds, read from its text alone; `PartShape::view` gives its model.
pub enum PartShape {
    /// One value, written in the text.
    Single(String),
    /// A range, from the value written in the first text to that in the second.
    Pair(String, String),
}

impl View for PartShape {
    type V = Shape;

    open spec fn view(&self) -> Shape {
        match self {
            PartShape::Single(t) => Shape::Single(t@),
            PartShape::Pair(a, b) => Shape::Pair(a@, b@),
        }
    }
}

/// A shape outcome, seen as a model.
pub open spec fn shape_outcome(r: Result<PartShape, RangeError>) -> Result<Shape, Failure> {
    match r {
        Ok(p) => Ok(p@),
        Err(e) => Err(e@),
    }
}

/// Tells what the part `part` holds: a single value, or the texts of the start
/// and the end of a range. Where the range separator stands first, it is the
/// minus sign of the start (or of the single value), and where it stands twice
/// in a row, the second is the minus sign of the end.
pub fn part_shape(part: &str, range_separator: &str) -> (r: Result<PartShape, RangeError>)
    requires
        range_separator@.len() > 0,
    ensures
        shape_outcome(r) == shape_of(part@, range_separator@),
{
    let fragments = split_on(part, range_separator);
    let ghost f = fragments@.map_values(|p: &str| p@);
    let n = fragments.len();
    if n <= 1 {
        return Ok(PartShape::Single(part.to_owned()));
    }
    let first_empty = fragments[0].unicode_len() == 0;
    assert(f[0] == fragments@[0]@);
    assert(f[1] == fragments@[1]@);
    if n == 2 && first_empty {
        Ok(PartShape::Single(with_minus(fragments[1])))
    } else if n == 2 {
        Ok(PartShape::Pair(fragments[0].to_owned(), fragments[1].to_owned()))
    } else if n == 3 && first_empty {
        assert(f[2] == fragments@[2]@);
        Ok(PartShape::Pair(with_minus(fragments[1]), fragments[2].to_owned()))
    } else if n == 3 {
        Err(RangeError::StartBiggerThanEnd(part.to_owned()))
    } else if n == 4 {
        assert(f[3] == fragments@[3]@);
        Ok(PartShape::Pair(with_minus(fragments[1]), with_minus(fragments[3])))
    } else {
        Err(RangeError::InvalidRangeSyntax(part.to_owned()))
    }
}

/// Reads the start `first` and the end `last` of the part `part`, and appends
/// the range between them to `acc`.
fn parse_value_range<T: Steppable>(acc: &mut Vec<T>, part: &str, first: &str, last: &str) -> (r:
    Result<(), RangeError>)
    ensures
        appended(
            old(acc)@,
            final(acc)@,
            r,
            pair_values(part@, first@, last@, T::lowest(), T::highest()),
        ),
{
    let start: T = match parse_as_t(first) {
        Ok(v) => v,
        Err(e) => return Err(e),
    };
    let end: T = match parse_as_t(last) {
        Ok(v) => v,
        Err(e) => return Err(e),
    };
    let a = start.widen();
    let b = end.widen();
    if a > b {
        return Err(RangeError::StartBiggerThanEnd(part.to_owned()));
    }
    push_span(acc, a, b);
    Ok(())
}

/// Appends the values of the part `part` to `acc`.
fn parse_part<T: Steppable>(acc: &mut Vec<T>, part: &str, range_separator: &str) -> (r: Result<
    (),
    RangeError,
>)
    requires
        range_separator@.len() > 0,
    ensures
        appended(
            old(acc)@,
            final(acc)@,
            r,
            part_values(part@, range_separator@, T::lowest(), T::highest()),
        ),
{
    match part_shape(part, range_separator) {
        Err(e) => Err(e),
        Ok(PartShape::Single(t)) => match parse_as_t(t.as_str()) {
            Ok(v) => {
                let ghost prev = acc@;
                acc.push(v);
                assert(values_of(acc@) =~= values_of(prev) + seq![v.value()]);
                Ok(())
            },
            Err(e) => Err(e),
        },
        Ok(PartShape::Pair(first, last)) => parse_value_range(
            acc,
            part,
            first.as_str(),
            last.as_str(),
        ),
    }
}

proof fn lemma_failure_persists(parts: Seq<Seq<char>>, k: int, rsep: Seq<char>, lo: int, hi: int)
    requires
        0 <= k <= parts.len(),
        parts_values(parts.take(k), rsep, lo, hi) is Err,
    ensures
        parts_values(parts, rsep, lo, hi) == parts_values(parts.take(k), rsep, lo, hi),
    decreases parts.len(),
{
    if k == parts.len() {
        assert(parts.take(k) =~= parts);
    } else {
        assert(parts.drop_last().take(k) =~= parts.take(k));
        lemma_failure_persists(parts.drop_last(), k, rsep, lo, hi);
    }
}

/// Expands `range_str`, split on `value_separator`, part by part.
fn parse_parts<T: Steppable>(range_str: &str, value_separator: &str, range_separator: &str) -> (r:
    Result<Vec<T>, RangeError>)
    requires
        value_separator@.len() > 0,
        range_separator@.len() > 0,
    ensures
        outcome(r) == parts_values(
            split_text(range_str@, value_separator@),
            range_separator@,
            T::lowest(),
            T::highest(),
        ),
{
    let parts = split_on(range_str, value_separator);
    let ghost ps = parts@.map_values(|p: &str| p@);
    assert(ps == split_text(range_str@, value_separator@));
    let mut range: Vec<T> = Vec::new();
    let mut i: usize = 0;
    assert(ps.take(0) =~= Seq::<Seq<char>>::empty());
    assert(values_of(range@) =~= Seq::<int>::empty());
    while i < parts.len()
        invariant
            ps == parts@.map_values(|p: &str| p@),
            ps == split_text(range_str@, value_separator@),
            range_separator@.len() > 0,
            i <= parts@.len(),
            parts_values(ps.take(i as int), range_separator@, T::lowest(), T::highest()) == Ok::<
                Seq<int>,
                Failure,
            >(values_of(range@)),
        decreases parts.len() - i,
    {
        assert(ps[i as int] == parts@[i as int]@);
        assert(ps.take(i + 1).drop_last() =~= ps.take(i as int));
        assert(ps.take(i + 1).last() == ps[i as int]);
        let ghost before = range@;
        match parse_part(&mut range, parts[i], range_separator) {
            Ok(()) => {
                assert(parts_values(ps.take(i + 1), range_separator@, T::lowest(), T::highest())
                    == Ok::<Seq<int>, Failure>(values_of(range@)));
            },
            Err(e) => {
                assert(parts_values(ps.take(i + 1), range_separator@, T::lowest(), T::highest())
                    == Err::<Seq<int>, Failure>(e@));
                proof {
                    lemma_failure_persists(ps, i + 1, range_separator@, T::lowest(), T::highest());
                }
                return Err(e);
            },
        }
        i = i + 1;
    }
    assert(ps.take(i as int) =~= ps);
    Ok(range)
}

/// The default value separator.
pub open spec fn comma() -> Seq<char> {
    seq![',']
}

/// The default range separator.
pub open spec fn dash() -> Seq<char> {
    seq!['-']
}

/// Expands `range_str`, whose parts are separated by `,` and whose ranges by
/// `-`, into the values it denotes, in the order in which they are written.
pub fn parse<T: Steppable>(range_str: &str) -> (r: Result<Vec<T>, RangeError>)
    ensures
        outcome(r) == range_values(range_str@, comma(), dash(), T::lowest(), T::highest()),
{
    proof {
        reveal_strlit(",");
        reveal_strlit("-");
        assert(","@ =~= comma());
        assert("-"@ =~= dash());
        assert(comma() != dash()) by {
            assert(comma()[0] != dash()[0]);
        }
    }
    parse_parts(range_str, ",", "-")
}

/// Expands `range_str`, whose parts are separated by `value_separator` and
/// whose ranges by `range_separator`, into the values it denotes. Fails with
/// `SeparatorsMustBeDifferent` where the two separators are the same text.
pub fn parse_with<T: Steppable>(
    range_str: &str,
    value_separator: &str,
    range_separator: &str,
) -> (r: Result<Vec<T>, RangeError>)
    requires
        value_separator@.len() > 0,
        range_separator@.len() > 0,
    ensures
        outcome(r) == range_values(
            range_str@,
            value_separator@,
            range_separator@,
            T::lowest(),
            T::highest(),
        ),
        value_separator@ == range_separator@ ==> r == Err::<Vec<T>, RangeError>(
            RangeError::SeparatorsMustBeDifferent,
        ),
{
    if same_text(value_separator, range_separator) {
        return Err(RangeError::SeparatorsMustBeDifferent);
    }
    parse_parts(range_str, value_separator, range_separator)
}

} // verus!
