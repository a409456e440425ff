use decimax::{Dec128, Dec32, Dec64, UDec128, UDec32, UDec64};

#[test]
fn from_integers() {
    assert_eq!(Dec128::from(5_i64).parts(), (5, 0));
    assert_eq!(Dec128::from(u64::MAX).parts(), (u64::MAX as i128, 0));
    assert_eq!(Dec64::from(-7_i32).parts(), (-7, 0));
    assert_eq!(Dec64::from(u32::MAX).parts(), (u32::MAX as i64, 0));
    assert_eq!(Dec32::from(-3_i16).parts(), (-3, 0));
    assert_eq!(UDec128::from(9_u64).parts(), (9, 0));
    assert_eq!(UDec64::from(7_u32).parts(), (7, 0));
    assert_eq!(UDec32::from(65535_u16).parts(), (65535, 0));
}

#[test]
fn from_shorter_decimals() {
    assert_eq!(Dec128::from(Dec64::from_parts(-314, 2)).parts(), (-314, 2));
    assert_eq!(Dec128::from(UDec64::from_parts(314, 15)).parts(), (314, 15));
    assert_eq!(Dec64::from(Dec32::from_parts(-1, 7)).parts(), (-1, 7));
    assert_eq!(UDec128::from(UDec32::from_parts(8, 1)).parts(), (8, 1));
}

#[test]
fn try_from_decimals() {
    assert!(UDec128::try_from(Dec128::from_parts(-1, 0)).is_err());
    assert_eq!(UDec128::try_from(Dec128::from_parts(314, 2)).unwrap().parts(), (314, 2));
    assert_eq!(UDec64::try_from(-Dec32::zero()).unwrap().parts(), (0, 0));
    assert!(Dec32::try_from(Dec128::from_parts(1 << 40, 0)).is_err());
    assert!(Dec32::try_from(Dec128::from_parts(5, 20)).is_err());
    assert_eq!(Dec32::try_from(Dec128::from_parts(-5, 7)).unwrap().parts(), (-5, 7));
    assert!(Dec64::try_from(UDec128::from_parts(1 << 59, 0)).is_err());
    assert_eq!(Dec64::try_from(UDec128::from_parts((1 << 59) - 1, 0)).unwrap().parts(), ((1 << 59) - 1, 0));
    assert!(Dec128::try_from(UDec128::from_parts(1 << 122, 0)).is_err());
    assert!(UDec32::try_from(UDec64::from_parts(1 << 29, 0)).is_err());
    assert_eq!(UDec32::try_from(UDec64::from_parts((1 << 29) - 1, 7)).unwrap().parts(), ((1 << 29) - 1, 7));
}
