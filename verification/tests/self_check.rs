use decimax::{Decimal, UnderlyingInt};

fn check_signed<I: UnderlyingInt + core::fmt::Debug>(n_man: I::Signed, n_scale: u32, d_man: I::Signed, d_scale: u32) -> Option<()> {
    let n_scale = n_scale % (I::max_scale() + 1);
    let d_scale = d_scale % (I::max_scale() + 1);

    let n = Decimal::<I, true>::try_from_parts(n_man, n_scale)?;
    let d = Decimal::<I, true>::try_from_parts(d_man, d_scale)?;

    if let Some(q) = n.checked_div(d) {
        // the product with the divisor is within half the divisor
        match d.checked_mul(q) {
            None => {
                let (_, n_scale) = n.parts();
                assert!(n_scale < 1);
            }
            Some(p) => {
                let diff = (n - p).abs();
                let diff2 = diff + diff;
                if diff2 > d.abs() {
                    let (_, q_scale) = q.parts();
                    assert!(q_scale <= 1);
                }
            }
        }
    }

    if n == d {
        assert!(d == n);
    } else if n > d {
        assert!(d < n);
    } else {
        assert!(d > n);
    }

    for x in [n, d] {
        let s = x.to_string();
        assert_eq!(Decimal::<I, true>::from_str(&s).unwrap(), x);
    }
    Some(())
}

fn check_unsigned<I: UnderlyingInt + core::fmt::Debug>(n_man: I, n_scale: u32, d_man: I, d_scale: u32) -> Option<()> {
    let n_scale = n_scale % (I::max_scale() + 1);
    let d_scale = d_scale % (I::max_scale() + 1);

    let n = Decimal::<I, false>::try_from_parts(n_man, n_scale)?;
    let d = Decimal::<I, false>::try_from_parts(d_man, d_scale)?;

    if let Some(q) = n.checked_div(d) {
        match d.checked_mul(q) {
            None => {
                let (_, n_scale) = n.parts();
                assert!(n_scale < 1);
            }
            Some(p) => {
                let diff = if n > p { n - p } else { p - n };
                let diff2 = diff + diff;
                if diff2 > d {
                    let (_, q_scale) = q.parts();
                    assert!(q_scale <= 1);
                }
            }
        }
    }

    if n == d {
        assert!(d == n);
    } else if n > d {
        assert!(d < n);
    } else {
        assert!(d > n);
    }

    for x in [n, d] {
        let s = x.to_string();
        assert_eq!(Decimal::<I, false>::from_str(&s).unwrap(), x);
    }
    Some(())
}

const SCALES: [u32; 6] = [0, 2, 5, 9, 17, 31];

#[test]
fn self_consistent_128() {
    let mans: [i128; 9] = [0, 1, -3, 97, -1000, 12_345_678_901_234, -(1 << 90), (1 << 121) + 7, (1 << 122) - 1];
    for &n in mans.iter() {
        for &ns in SCALES.iter() {
            for &d in mans.iter() {
                for &ds in SCALES.iter() {
                    check_signed::<u128>(n, ns, d, ds);
                    check_unsigned::<u128>(n as u128, ns, d as u128, ds);
                }
            }
        }
    }
}

#[test]
fn self_consistent_64() {
    let mans: [i64; 8] = [0, 1, -3, 97, -1000, 12_345_678_901, -(1 << 40), (1 << 59) - 1];
    for &n in mans.iter() {
        for &ns in SCALES.iter() {
            for &d in mans.iter() {
                for &ds in SCALES.iter() {
                    check_signed::<u64>(n, ns, d, ds);
                    check_unsigned::<u64>(n as u64, ns, d as u64, ds);
                }
            }
        }
    }
}

#[test]
fn self_consistent_32() {
    let mans: [i32; 7] = [0, 1, -3, 97, -1000, 1_234_567, (1 << 28) - 1];
    for &n in mans.iter() {
        for &ns in SCALES.iter() {
            for &d in mans.iter() {
                for &ds in SCALES.iter() {
                    check_signed::<u32>(n, ns, d, ds);
                    check_unsigned::<u32>(n as u32, ns, d as u32, ds);
                }
            }
        }
    }
}
