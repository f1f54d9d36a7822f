use range_parser::{parse, parse_with, RangeError};

#[test]
fn single_negative_value() {
    assert_eq!(parse::<i32>("-5"), Ok(vec![-5]));
}

#[test]
fn negative_to_negative_range() {
    assert_eq!(parse::<i32>("-5--1"), Ok(vec![-5, -4, -3, -2, -1]));
}

#[test]
fn negative_to_positive_range() {
    assert_eq!(parse::<i32>("-5-3"), Ok(vec![-5, -4, -3, -2, -1, 0, 1, 2, 3]));
}

#[test]
fn order_of_parts_is_kept() {
    assert_eq!(parse::<u64>("1,3-5,2"), Ok(vec![1, 3, 4, 5, 2]));
}

#[test]
fn duplicates_are_kept() {
    assert_eq!(parse::<u32>("2,1-3,2"), Ok(vec![2, 1, 2, 3, 2]));
}

#[test]
fn white_space_around_parts_and_fragments() {
    assert_eq!(parse::<u64>(" 1 , 3 - 5 "), Ok(vec![1, 3, 4, 5]));
}

#[test]
fn unicode_white_space_is_trimmed() {
    assert_eq!(parse::<u16>("\u{3000}7\t,\u{a0}8\n"), Ok(vec![7, 8]));
}

#[test]
fn custom_separators() {
    assert_eq!(
        parse_with::<i32>("-2;0..3;-1;7", ";", ".."),
        Ok(vec![-2, 0, 1, 2, 3, -1, 7])
    );
}

#[test]
fn equal_separators_are_refused() {
    assert_eq!(
        parse_with::<i32>("1,2", "-", "-"),
        Err(RangeError::SeparatorsMustBeDifferent)
    );
    assert_eq!(
        parse_with::<u8>("", "ab", "ab"),
        Err(RangeError::SeparatorsMustBeDifferent)
    );
}

#[test]
fn three_fragments_with_a_leading_value() {
    assert_eq!(
        parse::<i32>("1-3-5"),
        Err(RangeError::StartBiggerThanEnd("1-3-5".to_string()))
    );
}

#[test]
fn start_above_end() {
    assert_eq!(
        parse::<i32>("3-1"),
        Err(RangeError::StartBiggerThanEnd("3-1".to_string()))
    );
    assert_eq!(
        parse::<i64>("-1--3"),
        Err(RangeError::StartBiggerThanEnd("-1--3".to_string()))
    );
}

#[test]
fn too_many_fragments() {
    assert_eq!(
        parse::<i32>("1-2-3-4-5"),
        Err(RangeError::InvalidRangeSyntax("1-2-3-4-5".to_string()))
    );
}

#[test]
fn not_a_number_names_the_fragment() {
    assert_eq!(
        parse::<i32>("1,x"),
        Err(RangeError::NotANumber("x".to_string()))
    );
    assert_eq!(
        parse::<i32>("1- y"),
        Err(RangeError::NotANumber(" y".to_string()))
    );
    assert_eq!(
        parse::<i32>("-z"),
        Err(RangeError::NotANumber("-z".to_string()))
    );
}

#[test]
fn empty_input_is_not_a_number() {
    assert_eq!(parse::<i32>(""), Err(RangeError::NotANumber("".to_string())));
    assert_eq!(parse::<i32>("1,,2"), Err(RangeError::NotANumber("".to_string())));
}

#[test]
fn first_failing_part_decides() {
    assert_eq!(
        parse::<i32>("5-1,a"),
        Err(RangeError::StartBiggerThanEnd("5-1".to_string()))
    );
}

#[test]
fn unsigned_types_refuse_a_minus_sign() {
    assert_eq!(parse::<u64>("-1"), Err(RangeError::NotANumber("-1".to_string())));
}

#[test]
fn plus_sign_is_accepted() {
    assert_eq!(parse::<i32>("+2-+4"), Ok(vec![2, 3, 4]));
}

#[test]
fn values_outside_the_type_are_refused() {
    assert_eq!(parse::<u8>("256"), Err(RangeError::NotANumber("256".to_string())));
    assert_eq!(
        parse::<i8>("-129"),
        Err(RangeError::NotANumber("-129".to_string()))
    );
    assert_eq!(
        parse::<u64>("99999999999999999999999999"),
        Err(RangeError::NotANumber("99999999999999999999999999".to_string()))
    );
}

#[test]
fn range_up_to_the_type_maximum() {
    assert_eq!(parse::<u8>("253-255"), Ok(vec![253, 254, 255]));
    assert_eq!(parse::<i8>("-128--127"), Ok(vec![-128, -127]));
    assert_eq!(
        parse::<u64>("18446744073709551614-18446744073709551615"),
        Ok(vec![u64::MAX - 1, u64::MAX])
    );
}

#[test]
fn range_length_is_end_minus_start_plus_one() {
    let range: Vec<i64> = parse("-10-89").unwrap();
    assert_eq!(range.len(), 100);
    assert_eq!(range[0], -10);
    assert_eq!(range[99], 89);
}

#[test]
fn repeated_parse_gives_the_same_values() {
    let first = parse::<i32>("-8,-5--1,0-3,-1");
    let second = parse::<i32>("-8,-5--1,0-3,-1");
    assert_eq!(first, second);
    assert_eq!(first, Ok(vec![-8, -5, -4, -3, -2, -1, 0, 1, 2, 3, -1]));
}

#[test]
fn single_value_of_each_width() {
    assert_eq!(parse::<usize>("42"), Ok(vec![42]));
    assert_eq!(parse::<isize>("-42"), Ok(vec![-42]));
    assert_eq!(parse::<i16>("-32768"), Ok(vec![i16::MIN]));
}

#[test]
fn multi_character_value_separator() {
    assert_eq!(parse_with::<u32>("1::3-4::0", "::", "-"), Ok(vec![1, 3, 4, 0]));
}

#[test]
fn leading_range_separator_text_means_minus() {
    assert_eq!(parse_with::<i32>("..5", ",", ".."), Ok(vec![-5]));
}
