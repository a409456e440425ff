use decimax::{Dec128, Dec32, Dec64, UDec128, UDec32};

#[test]
fn div_by_zero_and_overflow() {
    let a = Dec64::from_parts(5, 0);
    assert!(a.checked_div(Dec64::zero()).is_none());
    assert!(a.checked_div_int(0).is_none());
    let big = Dec64::max_value();
    assert!(big.checked_div(Dec64::from_parts(1, 15)).is_none());
    assert!(big.checked_mul_int(2).is_none());
}

#[test]
fn div_exact_reduces_scale() {
    let q = Dec128::from_parts(1, 0).checked_div(Dec128::from_parts(4, 0)).unwrap();
    assert_eq!(q.parts(), (25, 2));
    let q = Dec64::from_parts(10, 0).checked_div(Dec64::from_parts(4, 0)).unwrap();
    assert_eq!(q.parts(), (25, 1));
    let q = Dec32::from_parts(6, 0).checked_div(Dec32::from_parts(3, 0)).unwrap();
    assert_eq!(q.parts(), (2, 0));
}

#[test]
fn div_keeps_divisor_scale() {
    // 1 / 0.0003: the quotient keeps at least the divisor's fraction digits
    let q = Dec64::from_parts(1, 0).checked_div(Dec64::from_parts(3, 4)).unwrap();
    assert_eq!(q.parts(), (333333333333333, 11));
    let q = Dec128::from_parts(7, 2).checked_div(Dec128::from_parts(2, 0)).unwrap();
    assert_eq!(q.parts(), (35, 3));
}

#[test]
fn div_big_divisor() {
    // a divisor above 32 bits takes the long division
    let d = Dec128::from_parts(10_000_000_019, 0);
    let q = Dec128::from_parts(1, 0).checked_div(d).unwrap();
    let p = q * d;
    let diff = Dec128::from_parts(1, 0) - p;
    assert!(diff.abs() * 2 <= d);
    assert!(q.parts().1 <= 31);
}

#[test]
fn div_by_int() {
    let q = Dec128::from_parts(1, 0).checked_div_int(-8).unwrap();
    assert_eq!(q.parts(), (-125, 3));
    let q = Dec64::from_parts(9, 1) / 3_i64;
    assert_eq!(q.parts(), (3, 1));
    // unsigned: a negative divisor gives no result unless the quotient is zero
    assert!(UDec32::from_parts(5, 0).checked_div_int(-1).is_none());
    assert_eq!(UDec32::from_parts(0, 0).checked_div_int(-1).unwrap(), UDec32::zero());
}

#[test]
fn mul_by_int() {
    let a = Dec128::from_parts(125, 2);
    assert_eq!((a * -3_i128).parts(), (-375, 2));
    assert_eq!(a.checked_mul_int(4).unwrap().parts(), (500, 2));
    assert!(UDec128::from_parts(5, 0).checked_mul_int(-1).is_none());
    assert_eq!(UDec128::from_parts(0, 0).checked_mul_int(-1).unwrap(), UDec128::zero());
}

#[test]
fn mul_rounds_half_up() {
    // 0.5 * 0.5 at scale 31 + 1: 0.25 rounds to the largest scale
    let a = Dec128::from_parts(5, 16);
    let b = Dec128::from_parts(5, 16);
    assert_eq!((a * b).parts(), (3, 31));
    let a = Dec32::from_parts(5, 4);
    let b = Dec32::from_parts(5, 4);
    assert_eq!((a * b).parts(), (3, 7));
}

#[test]
fn add_rounds_when_too_big() {
    let max = (1_i64 << 59) - 1;
    let a = Dec64::from_parts(max, 1);
    let s = a + a;
    // 2 * max at scale 1 does not fit: divided by ten, rounded
    assert_eq!(s.parts(), ((2 * max + 5) / 10, 0));
}

#[test]
fn unsigned_sub_negative() {
    let a = UDec32::from_parts(5, 0);
    let b = UDec32::from_parts(6, 0);
    assert!(a.checked_sub(b).is_none());
    assert_eq!(a.checked_sub(a).unwrap(), UDec32::zero());
}

#[test]
fn signs_and_abs() {
    let a = Dec32::from_parts(-5, 1);
    assert!(a.is_negative());
    assert!(!a.is_positive());
    assert!(!a.is_zero());
    assert_eq!(a.abs().parts(), (5, 1));
    assert!((-Dec32::zero()).is_zero());
    assert!(!(-Dec32::zero()).is_negative());
    assert_eq!(Dec32::one().parts(), (1, 0));
    assert_eq!(Dec32::max_value().parts(), ((1 << 28) - 1, 0));
    assert_eq!(Dec32::min_value().parts(), (-((1 << 28) - 1), 0));
    assert_eq!(UDec32::max_value().parts(), ((1 << 29) - 1, 0));
    assert_eq!(UDec32::min_value().parts(), (0, 0));
}

#[test]
fn try_from_parts_ranges() {
    assert!(Dec128::try_from_parts(314, 99).is_none());
    assert!(Dec128::try_from_parts(1 << 122, 0).is_none());
    assert!(Dec128::try_from_parts(-(1 << 122), 0).is_none());
    assert_eq!(Dec128::try_from_parts((1 << 122) - 1, 31).unwrap().parts(), ((1 << 122) - 1, 31));
    assert!(UDec128::try_from_parts(1 << 123, 0).is_none());
    assert!(UDec32::try_from_parts(5, 8).is_none());
}

#[test]
fn sum_of_items() {
    let items = vec![
        Dec64::from_parts(1, 1),
        Dec64::from_parts(2, 1),
        Dec64::from_parts(-5, 2),
    ];
    assert_eq!(Dec64::checked_sum(&items).unwrap().parts(), (25, 2));
    assert_eq!(Dec64::checked_sum(&[]).unwrap().parts(), (0, 0));
    let too_big = vec![Dec32::max_value(), Dec32::from_parts(1, 0)];
    assert!(Dec32::checked_sum(&too_big).is_none());
    let unsigned = vec![UDec32::from_parts(7, 0), UDec32::from_parts(8, 0)];
    assert_eq!(UDec32::checked_sum(&unsigned).unwrap().parts(), (15, 0));
}

#[test]
fn mul_rounds_into_the_largest_mantissa() {
    // the product is ten times the largest mantissa plus one, at scale 1:
    // rounded at scale 0 it is the largest mantissa
    let a = Dec128::from_parts(31, 1);
    let b = Dec128::from_parts(1715132897786988223101686529393993001, 0);
    let p = a.checked_mul(b).unwrap();
    assert_eq!(p.parts(), ((1 << 122) - 1, 0));
    // one more and it no longer fits
    let c = Dec128::from_parts(1715132897786988223101686529393993002, 0);
    assert!(a.checked_mul(c).is_none());
}
