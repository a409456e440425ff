use core::str::FromStr;
use decimax::{Dec128, Dec32, Dec64, ParseError, UDec128};

#[test]
fn parse_numbers() {
    assert_eq!(Dec128::from_str("3.14").unwrap().parts(), (314, 2));
    assert_eq!(Dec128::from_str("-3.14").unwrap().parts(), (-314, 2));
    assert_eq!(Dec128::from_str("+5").unwrap().parts(), (5, 0));
    assert_eq!(Dec128::from_str("0.000").unwrap().parts(), (0, 3));
    assert_eq!(Dec64::from_str("123").unwrap().parts(), (123, 0));
    assert_eq!(Dec32::from_str("0.0000001").unwrap().parts(), (1, 7));
    assert_eq!(UDec128::from_str("42.50").unwrap().parts(), (4250, 2));
    let z = Dec128::from_str("-0").unwrap();
    assert!(z.is_zero());
    assert_eq!(z.parts(), (0, 0));
    let max = Dec128::from_str("5316911983139663491615228241121378303").unwrap();
    assert_eq!(max.parts(), ((1 << 122) - 1, 0));
}

#[test]
fn parse_errors() {
    assert_eq!(Dec128::from_str(""), Err(ParseError::Empty));
    assert_eq!(Dec128::from_str("-"), Err(ParseError::Empty));
    assert_eq!(Dec128::from_str("+"), Err(ParseError::Empty));
    assert_eq!(Dec128::from_str("1."), Err(ParseError::Empty));
    assert_eq!(Dec128::from_str(".5"), Err(ParseError::Empty));
    assert_eq!(Dec128::from_str("abc"), Err(ParseError::Invalid));
    assert_eq!(Dec128::from_str("1.2.3"), Err(ParseError::Invalid));
    assert_eq!(Dec128::from_str("1.2e3"), Err(ParseError::Invalid));
    assert_eq!(Dec128::from_str("+-5"), Err(ParseError::Invalid));
    // a sign stands only at the start of the whole string
    assert_eq!(Dec128::from_str("++5"), Err(ParseError::Invalid));
    assert_eq!(Dec128::from_str("-+5"), Err(ParseError::Invalid));
    assert_eq!(Dec128::from_str("1.+5"), Err(ParseError::Invalid));
    assert_eq!(UDec128::from_str("1.+5"), Err(ParseError::Invalid));
    assert_eq!(Dec128::from_str("+.5"), Err(ParseError::Empty));
    assert_eq!(Dec128::from_str("--5"), Err(ParseError::Invalid));
    assert_eq!(Dec128::from_str("1.-5"), Err(ParseError::Invalid));
    assert_eq!(UDec128::from_str("-1"), Err(ParseError::Invalid));
    assert_eq!(
        Dec128::from_str("1.00000000000000000000000000000000"),
        Err(ParseError::Precision)
    );
    assert_eq!(Dec32::from_str("1.23456789"), Err(ParseError::Precision));
    assert_eq!(
        Dec128::from_str("99999999999999999999999999999999999999999999"),
        Err(ParseError::Overflow)
    );
    // fits in 128 bits, but not in the mantissa
    assert_eq!(
        Dec128::from_str("5316911983139663491615228241121378304"),
        Err(ParseError::Overflow)
    );
    assert_eq!(Dec32::from_str("300000000"), Err(ParseError::Overflow));
    assert_eq!(Dec32::from_str("30000000.0"), Err(ParseError::Overflow));
}

#[test]
fn parse_trait_and_messages() {
    let d: Dec64 = "1.5".parse().unwrap();
    assert_eq!(d.parts(), (15, 1));
    assert_eq!(ParseError::Empty.to_string(), "empty string");
    assert_eq!(ParseError::Invalid.to_string(), "invalid digit in the string");
    assert_eq!(ParseError::Overflow.to_string(), "overflow");
    assert_eq!(ParseError::Precision.to_string(), "precision out of range");
}
