use range_parser::numeric::{integer_in, trim_text};
use range_parser::text::{same_text, split_on};
use range_parser::{part_shape, PartShape, RangeError};

fn single(s: &str) -> Result<PartShape, RangeError> {
    Ok(PartShape::Single(s.to_string()))
}

fn pair(a: &str, b: &str) -> Result<PartShape, RangeError> {
    Ok(PartShape::Pair(a.to_string(), b.to_string()))
}

fn same(x: Result<PartShape, RangeError>, y: Result<PartShape, RangeError>) -> bool {
    match (x, y) {
        (Ok(PartShape::Single(a)), Ok(PartShape::Single(b))) => a == b,
        (Ok(PartShape::Pair(a, b)), Ok(PartShape::Pair(c, d))) => a == c && b == d,
        (Err(e), Err(f)) => e == f,
        _ => false,
    }
}

#[test]
fn shape_without_separator_is_the_part() {
    assert!(same(part_shape(" 7 ", "-"), single(" 7 ")));
}

#[test]
fn shape_of_leading_separator_is_a_negative_value() {
    assert!(same(part_shape("-5", "-"), single("-5")));
    assert!(same(part_shape("..5", ".."), single("-5")));
}

#[test]
fn shape_of_two_fragments_is_a_pair() {
    assert!(same(part_shape("1-3", "-"), pair("1", "3")));
}

#[test]
fn shape_of_negative_start() {
    assert!(same(part_shape("-2-3", "-"), pair("-2", "3")));
}

#[test]
fn shape_of_three_fragments_with_a_leading_value() {
    assert!(same(
        part_shape("1-3-5", "-"),
        Err(RangeError::StartBiggerThanEnd("1-3-5".to_string()))
    ));
}

#[test]
fn shape_of_negative_start_and_end() {
    assert!(same(part_shape("-5--1", "-"), pair("-5", "-1")));
}

#[test]
fn shape_of_five_fragments_is_invalid() {
    assert!(same(
        part_shape("1-2-3-4-5", "-"),
        Err(RangeError::InvalidRangeSyntax("1-2-3-4-5".to_string()))
    ));
}

#[test]
fn split_keeps_empty_pieces_and_matches_literally() {
    assert_eq!(split_on(",a,,b,", ","), vec!["", "a", "", "b", ""]);
    assert_eq!(split_on("1...3", ".."), vec!["1", ".3"]);
    assert_eq!(split_on("abc", ";"), vec!["abc"]);
}

#[test]
fn trim_removes_surrounding_white_space_only() {
    assert_eq!(trim_text(" \t a b \n"), "a b");
    assert_eq!(trim_text("   "), "");
}

#[test]
fn integer_text_within_bounds() {
    assert_eq!(integer_in("-128", -128, 127), Some(-128));
    assert_eq!(integer_in("128", -128, 127), None);
    assert_eq!(integer_in("+7", 0, 255), Some(7));
    assert_eq!(integer_in("-7", 0, 255), None);
    assert_eq!(integer_in("-", -128, 127), None);
    assert_eq!(integer_in("1_0", -128, 127), None);
}

#[test]
fn same_text_compares_every_character() {
    assert!(same_text("..", ".."));
    assert!(!same_text("..", ".-"));
    assert!(!same_text("-", "--"));
}
