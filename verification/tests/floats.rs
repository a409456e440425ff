use decimax::{Dec128, Dec32, Dec64, FromFloatError, UDec128};

#[test]
fn from_f32() {
    let a = Dec128::try_from_f32_bits(1.234_f32.to_bits()).unwrap();
    assert_eq!(a.parts(), (1234000, 6));
    // small numbers lose precision: Dec32 has 7 fraction digits at most
    let a = Dec32::try_from_f32_bits(5.123e-7_f32.to_bits()).unwrap();
    assert_eq!(a, Dec32::from_parts(5, 7));
    let a = Dec128::try_from_f32_bits(2.0_f32.to_bits()).unwrap();
    assert_eq!(a.parts(), (2000000, 6));
    let a = Dec128::try_from_f32_bits(1073741824.0_f32.to_bits()).unwrap();
    assert_eq!(a.parts(), (1073741824, 0));
    let a = Dec64::try_from_f32_bits((-0.5_f32).to_bits()).unwrap();
    assert_eq!(a.parts(), (-5000000, 7));
    let z = UDec128::try_from_f32_bits((-0.0_f32).to_bits()).unwrap();
    assert!(z.is_zero());
}

#[test]
fn from_f64() {
    let a = Dec128::try_from_f64_bits(1.234_f64.to_bits()).unwrap();
    assert_eq!(a.parts(), (1234000000000000, 15));
    let a = Dec64::try_from_f64_bits(12345678.12345678_f64.to_bits()).unwrap();
    assert_eq!(a.parts(), (1234567812345678, 8));
}

#[test]
fn float_errors() {
    assert_eq!(Dec128::try_from_f32_bits(f32::NAN.to_bits()), Err(FromFloatError::Nan));
    assert_eq!(Dec128::try_from_f32_bits(f32::INFINITY.to_bits()), Err(FromFloatError::Infinity));
    assert_eq!(Dec128::try_from_f32_bits(1e-40_f32.to_bits()), Err(FromFloatError::Subnormal));
    assert_eq!(UDec128::try_from_f32_bits((-1.0_f32).to_bits()), Err(FromFloatError::Negative));
    assert_eq!(Dec32::try_from_f32_bits(1e10_f32.to_bits()), Err(FromFloatError::Overflow));
    assert_eq!(Dec32::try_from_f32_bits(1e-20_f32.to_bits()), Err(FromFloatError::Underflow));
    assert_eq!(Dec32::try_from_f32_bits(2e-38_f32.to_bits()), Err(FromFloatError::Underflow));
    assert_eq!(Dec128::try_from_f64_bits(1e-300_f64.to_bits()), Err(FromFloatError::Underflow));
    assert_eq!(Dec64::try_from_f64_bits(1e300_f64.to_bits()), Err(FromFloatError::Overflow));
    assert_eq!(Dec64::try_from_f64_bits(f64::NEG_INFINITY.to_bits()), Err(FromFloatError::Infinity));
}
