use immunepuzzle::number::{parse_i32, parse_sizes, parse_unsigned, parse_usize, same_text, NumberError};

#[test]
fn unsigned_numbers() {
    assert_eq!(parse_unsigned("0", u64::MAX), Ok(0));
    assert_eq!(parse_unsigned("+42", u64::MAX), Ok(42));
    assert_eq!(parse_unsigned("0007", u64::MAX), Ok(7));
    assert_eq!(parse_unsigned("18446744073709551615", u64::MAX), Ok(u64::MAX));
    assert_eq!(parse_unsigned("255", 255), Ok(255));
}

#[test]
fn faults_of_unsigned_numbers() {
    assert_eq!(parse_unsigned("", u64::MAX), Err(NumberError::Empty));
    assert_eq!(parse_unsigned("+", u64::MAX), Err(NumberError::InvalidDigit));
    assert_eq!(parse_unsigned("-1", u64::MAX), Err(NumberError::InvalidDigit));
    assert_eq!(parse_unsigned(" 1", u64::MAX), Err(NumberError::InvalidDigit));
    assert_eq!(parse_unsigned("1_0", u64::MAX), Err(NumberError::InvalidDigit));
    assert_eq!(parse_unsigned("18446744073709551616", u64::MAX), Err(NumberError::TooLarge));
    assert_eq!(parse_unsigned("256", 255), Err(NumberError::TooLarge));
    assert_eq!(parse_unsigned("9", 5), Err(NumberError::TooLarge));
}

#[test]
fn signed_numbers() {
    assert_eq!(parse_i32("-12"), Ok(-12));
    assert_eq!(parse_i32("+12"), Ok(12));
    assert_eq!(parse_i32("-0"), Ok(0));
    assert_eq!(parse_i32("-2147483648"), Ok(i32::MIN));
    assert_eq!(parse_i32("2147483647"), Ok(i32::MAX));
    assert_eq!(parse_i32("-2147483649"), Err(NumberError::TooSmall));
    assert_eq!(parse_i32("2147483648"), Err(NumberError::TooLarge));
    assert_eq!(parse_i32("-"), Err(NumberError::InvalidDigit));
    assert_eq!(parse_i32(""), Err(NumberError::Empty));
    assert_eq!(parse_i32("--1"), Err(NumberError::InvalidDigit));
}

#[test]
fn numbers_agree_with_the_standard_parser() {
    for text in ["", "+", "-", "0", "-5", "+5", "12x", "99999999999", "-99999999999", "7 ", "é1"] {
        assert_eq!(parse_i32(text).ok(), text.parse::<i32>().ok());
        assert_eq!(parse_usize(text).ok(), text.parse::<usize>().ok());
        assert_eq!(parse_unsigned(text, u64::MAX).ok(), text.parse::<u64>().ok());
    }
}

#[test]
fn lists_of_sizes() {
    assert_eq!(parse_sizes("3,1,4"), Ok(vec![3, 1, 4]));
    assert_eq!(parse_sizes(",,2,"), Ok(vec![2]));
    assert_eq!(parse_sizes(""), Ok(vec![]));
    assert_eq!(parse_sizes(","), Ok(vec![]));
    assert_eq!(parse_sizes("1,x,y"), Err(NumberError::InvalidDigit));
    assert_eq!(parse_sizes("1, 2"), Err(NumberError::InvalidDigit));
    assert_eq!(parse_sizes("1,99999999999999999999999,x"), Err(NumberError::TooLarge));
}

#[test]
fn texts_are_compared_whole() {
    assert!(same_text("--seed", "--seed"));
    assert!(!same_text("--seed", "--see"));
    assert!(!same_text("--seed", "--sead"));
    assert!(same_text("", ""));
}
