use core::str::FromStr;
use decimax::{Dec128, Dec32, Dec64, UDec64};

#[test]
fn to_string_at_own_scale() {
    assert_eq!(Dec128::from_parts(314, 2).to_string(), "3.14");
    assert_eq!(Dec128::from_parts(-314, 2).to_string(), "-3.14");
    assert_eq!(Dec128::from_parts(5, 0).to_string(), "5");
    assert_eq!(Dec128::from_parts(0, 3).to_string(), "0.000");
    assert_eq!(Dec128::from_parts(7, 3).to_string(), "0.007");
    assert_eq!((-Dec128::from_parts(0, 1)).to_string(), "0.0");
    assert_eq!(Dec64::from_parts(-1, 15).to_string(), "-0.000000000000001");
    assert_eq!(UDec64::from_parts(1200, 2).to_string(), "12.00");
    assert_eq!(
        Dec128::from_parts((1 << 122) - 1, 31).to_string(),
        "531691.1983139663491615228241121378303"
    );
}

#[test]
fn display_with_precision() {
    let a = Dec64::from_parts(12345, 3);
    assert_eq!(a.display_parts(Some(1)), (true, "12.3".to_string()));
    assert_eq!(a.display_parts(Some(2)), (true, "12.35".to_string()));
    assert_eq!(a.display_parts(Some(0)), (true, "12".to_string()));
    assert_eq!(a.display_parts(Some(5)), (true, "12.34500".to_string()));
    assert_eq!(a.display_parts(None), (true, "12.345".to_string()));
    assert_eq!(
        Dec128::from_parts(123, 0).display_parts(Some(2)),
        (true, "123.00".to_string())
    );
    // at most the largest scale of fraction digits
    assert_eq!(
        Dec32::from_parts(1, 7).display_parts(Some(10)),
        (true, "0.0000001".to_string())
    );
    // a negative number that rounds to zero keeps its sign
    assert_eq!(
        Dec32::from_parts(-1, 3).display_parts(Some(1)),
        (false, "0.0".to_string())
    );
    assert_eq!(
        Dec32::from_parts(-15, 1).display_parts(Some(0)),
        (false, "2".to_string())
    );
}

#[test]
fn display_then_parse() {
    for (m, s) in [(314_i128, 2_u32), (-314, 2), (0, 5), (7, 31), (-((1 << 122) - 1), 31), (123456789, 0)] {
        let d = Dec128::from_parts(m, s);
        let e = Dec128::from_str(&d.to_string()).unwrap();
        assert_eq!(e.parts(), (m, s));
    }
    let z = -Dec64::from_parts(0, 3);
    assert_eq!(Dec64::from_str(&z.to_string()).unwrap().parts(), (0, 3));
    let u = UDec64::from_parts(1, 15);
    assert_eq!(UDec64::from_str(&u.to_string()).unwrap().parts(), (1, 15));
}

#[test]
fn display_length_limit() {
    let a = Dec128::from_parts(123, 0);
    // "123." and 76 zeros: 80 bytes
    assert!(a.display_fits(Some(76)));
    assert!(!a.display_fits(Some(77)));
    assert_eq!(a.display_parts(Some(76)).1.len(), 80);
    // a fraction is never longer than the largest scale
    assert!(Dec128::from_parts(123, 1).display_fits(Some(1000)));
    assert!(a.display_fits(None));
    assert!(a.display_fits(Some(0)));
}
