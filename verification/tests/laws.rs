use decimax::{Dec128, Dec64, UDec32, UDec64};

#[test]
fn add_commutes() {
    let a = Dec128::from_parts(15, 1);
    let b = Dec128::from_parts(-25, 2);
    assert_eq!((a + b).parts(), (125, 2));
    assert_eq!((b + a).parts(), (125, 2));
    // a zero sum may differ only in its sign
    let c = Dec128::from_parts(-15, 1);
    assert_eq!(a + c, c + a);
    assert!((a + c).is_zero());
}

#[test]
fn sub_is_add_of_negation() {
    let a = Dec64::from_parts(1234, 3);
    let b = Dec64::from_parts(-56, 1);
    assert_eq!((a - b).parts(), (a + -b).parts());
    assert_eq!((a - b).parts(), (6834, 3));
}

#[test]
fn add_negated() {
    let a = Dec64::from_parts(1234, 3);
    let b = Dec64::from_parts(56, 1);
    assert_eq!((-a + -b).parts(), (-(a + b)).parts());
}

#[test]
fn add_exact_at_larger_scale() {
    let a = Dec128::from_parts(1, 0);
    let b = Dec128::from_parts(1, 31);
    let s = a + b;
    assert_eq!(s.parts(), (10_i128.pow(31) + 1, 31));
    assert_eq!(s - a, b);
    assert_eq!(s - b, a);
}

#[test]
fn mul_commutes_and_is_exact() {
    let a = Dec128::from_parts(15, 1);
    let b = Dec128::from_parts(-25, 2);
    assert_eq!((a * b).parts(), (-375, 3));
    assert_eq!((b * a).parts(), (-375, 3));
    let a = UDec64::from_parts(7, 3);
    let b = UDec64::from_parts(11, 4);
    assert_eq!((a * b).parts(), (77, 7));
}

#[test]
fn quotient_within_half_unit() {
    let n = Dec128::from_parts(1, 0);
    let d = Dec128::from_parts(3, 0);
    let q = n.checked_div(d).unwrap();
    assert_eq!(q.parts(), (3333333333333333333333333333333, 31));
    let q = Dec128::from_parts(2, 0).checked_div(d).unwrap();
    assert_eq!(q.parts(), (6666666666666666666666666666667, 31));
    let q = Dec128::from_parts(-2, 0).checked_div(d).unwrap();
    assert_eq!(q.parts(), (-6666666666666666666666666666667, 31));
}

#[test]
fn same_value_is_an_equivalence() {
    let a = Dec128::from_parts(1, 1);
    let b = Dec128::from_parts(10, 2);
    let c = Dec128::from_parts(100, 3);
    assert_eq!(a, a);
    assert_eq!(a, b);
    assert_eq!(b, a);
    assert_eq!(b, c);
    assert_eq!(a, c);
}

#[test]
fn order_is_total_and_transitive() {
    let a = Dec128::from_parts(-1, 0);
    let b = Dec128::from_parts(5, 1);
    let c = Dec128::from_parts(51, 2);
    assert!(a < b && b < c && a < c);
    assert!(!(b < a) && b != a);
    assert_eq!(a.cmp(&b), core::cmp::Ordering::Less);
    assert_eq!(c.cmp(&b), core::cmp::Ordering::Greater);
    assert_eq!(b.cmp(&Dec128::from_parts(50, 2)), core::cmp::Ordering::Equal);
}

#[test]
fn zeros_are_equal() {
    assert_eq!(Dec128::from_parts(0, 0), Dec128::from_parts(0, 31));
    assert_eq!(-Dec128::from_parts(0, 5), Dec128::zero());
}

#[test]
fn parts_round_trip() {
    for (m, s) in [(314_i128, 2_u32), (-7, 0), (0, 9), ((1 << 122) - 1, 31)] {
        let d = Dec128::from_parts(m, s);
        assert_eq!(d.parts(), (m, s));
        let e = Dec128::from_parts(d.parts().0, d.parts().1);
        assert_eq!(e.underlying(), d.underlying());
    }
}

#[test]
fn underlying_round_trip() {
    let d = Dec64::from_parts(-12345, 4);
    assert_eq!(Dec64::from_underlying(d.underlying()).parts(), (-12345, 4));
}

#[test]
fn divisor_times_quotient_is_near_dividend() {
    let cases: [(i64, u32, i64, u32); 5] = [(1, 0, 3, 0), (2, 0, 7, 3), (-5, 2, 9, 1), (123456789, 4, -37, 2), (1, 15, 3, 15)];
    for (nm, ns, dm, ds) in cases {
        let n = Dec64::from_parts(nm, ns);
        let d = Dec64::from_parts(dm, ds);
        let q = n.checked_div(d).unwrap();
        assert!(q.parts().1 >= 2);
        let p = d.checked_mul(q).unwrap();
        let diff = n.checked_sub(p).unwrap().abs();
        assert!(diff.checked_add(diff).unwrap() <= d.abs());
    }
    let n = UDec32::from_parts(2, 0);
    let d = UDec32::from_parts(3, 0);
    let q = n.checked_div(d).unwrap();
    let p = d.checked_mul(q).unwrap();
    let diff = if n >= p { n.checked_sub(p).unwrap() } else { p.checked_sub(n).unwrap() };
    assert!(diff.checked_add(diff).unwrap() <= d);
}

#[test]
fn adding_zero_gives_back() {
    for (m, s) in [(0_i64, 0_u32), (5, 0), (-314, 2), (1, 15), (-(1 << 58) + 1, 3)] {
        let a = Dec64::from_parts(m, s);
        assert_eq!(a.checked_add(Dec64::zero()).unwrap().parts(), (m, s));
        assert_eq!(a.checked_add(-Dec64::zero()).unwrap().parts(), (m, s));
        assert_eq!(a.checked_add(Dec64::default()).unwrap().parts(), (m, s));
    }
    let u = UDec64::from_parts(77, 4);
    assert_eq!(u.checked_add(UDec64::zero()).unwrap().parts(), (77, 4));
    assert!(UDec64::default().is_zero());
}
