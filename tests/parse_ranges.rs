use range_parser::{parse, parse_with};

#[test]
fn should_parse_dashed_range_with_positive_numbers() {
    let range: Vec<u64> = parse("1-3").unwrap();
    assert_eq!(range, vec![1, 2, 3]);
}

#[test]
fn should_parse_dashed_range_with_mixed_numbers() {
    let range: Vec<i32> = parse("-2-3").unwrap();
    assert_eq!(range, vec![-2, -1, 0, 1, 2, 3]);
}

#[test]
fn should_parse_dashed_range_with_negative_numbers() {
    let range: Vec<i32> = parse("-3--1").unwrap();
    assert_eq!(range, vec![-3, -2, -1]);
}

#[test]
fn should_parse_range_with_commas_with_positive_numbers() {
    let range: Vec<u64> = parse("1,3,4").unwrap();
    assert_eq!(range, vec![1, 3, 4]);
}

#[test]
fn should_parse_range_with_commas_with_mixed_numbers() {
    let range: Vec<i32> = parse("-2,0,3,-1").unwrap();
    assert_eq!(range, vec![-2, 0, 3, -1]);
}

#[test]
fn should_parse_mixed_range_with_positive_numbers() {
    let range: Vec<u64> = parse("1,3-5,2").unwrap();
    assert_eq!(range, vec![1, 3, 4, 5, 2]);
}

#[test]
fn should_parse_mixed_range_with_mixed_numbers() {
    let range: Vec<i32> = parse("-2,0-3,-1,7").unwrap();
    assert_eq!(range, vec![-2, 0, 1, 2, 3, -1, 7]);
}

#[test]
fn test_should_parse_with_whitespaces() {
    let range: Vec<u64> = parse(" 1 , 3 - 5 , 2 ").unwrap();
    assert_eq!(range, vec![1, 3, 4, 5, 2]);
}

#[test]
fn should_parse_mixed_range_with_mixed_numbers_with_custom_separators() {
    let range: Vec<i32> = parse_with("-2;0..3;-1;7", ";", "..").unwrap();
    assert_eq!(range, vec![-2, 0, 1, 2, 3, -1, 7]);
}

#[test]
fn test_should_not_allow_invalid_range() {
    let range = parse::<i32>("1-3-5");
    assert!(range.is_err());
}

#[test]
fn test_should_not_allow_invalid_range_with_custom_separators() {
    let range = parse_with::<i32>("1-3-5", "-", "-");
    assert!(range.is_err());
}

#[test]
fn test_should_not_allow_start_bigger_than_end() {
    let range = parse::<i32>("3-1");
    assert!(range.is_err());
}
