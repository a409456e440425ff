use core::fmt::Debug;
use decimax::{Decimal, UnderlyingInt};
use primitive_fixed_point_decimal::{FpdecInner, OobScaleFpdec};

fn check_signed<UI, I>(n_man: I, n_scale: u32, d_man: I, d_scale: u32) -> Option<()>
where
    I: FpdecInner + Debug,
    UI: UnderlyingInt<Signed = I>,
{
    let n_scale = n_scale % (UI::max_scale() + 1);
    let d_scale = d_scale % (UI::max_scale() + 1);

    let n = Decimal::<UI, true>::try_from_parts(n_man, n_scale)?;
    let d = Decimal::<UI, true>::try_from_parts(d_man, d_scale)?;

    let n2 = OobScaleFpdec::<I>::from_mantissa(n_man);
    let d2 = OobScaleFpdec::<I>::from_mantissa(d_man);

    // mul
    match n.checked_mul(d) {
        Some(p) => {
            let (p_man, p_scale) = p.parts();
            let diff_scale = (n_scale + d_scale) as i32 - p_scale as i32;
            let p2 = n2.checked_mul(d2, diff_scale).unwrap();
            assert_eq!(p2.mantissa(), p_man);
        }
        None => {
            let diff_scale = (n_scale + d_scale) as i32;
            if let Some(p2) = n2.checked_mul(d2, diff_scale) {
                assert!(Decimal::<UI, true>::try_from_parts(p2.mantissa(), 0).is_none());
            }
        }
    }

    // div
    match n.checked_div(d) {
        Some(q) => {
            let (q_man, q_scale) = q.parts();
            let diff_scale = n_scale as i32 - d_scale as i32 - q_scale as i32;
            let q2 = n2.checked_div(d2, diff_scale).unwrap();
            let q2_man = q2.mantissa();
            // the two crates round a tie of two negative operands apart
            if q2_man != q_man {
                assert!(n.is_negative());
                assert!(d.is_negative());
                assert_eq!(q_man - q2_man, I::ONE);
            }
        }
        None => {
            let diff_scale = n_scale as i32 - d_scale as i32;
            if let Some(q2) = n2.checked_div(d2, diff_scale) {
                assert!(Decimal::<UI, true>::try_from_parts(q2.mantissa(), 0).is_none());
            }
        }
    }
    Some(())
}

fn check_unsigned<I>(n_man: I, n_scale: u32, d_man: I, d_scale: u32) -> Option<()>
where
    I: FpdecInner + UnderlyingInt + Debug,
{
    let n_scale = n_scale % (I::max_scale() + 1);
    let d_scale = d_scale % (I::max_scale() + 1);

    let n = Decimal::<I, false>::try_from_parts(n_man, n_scale)?;
    let d = Decimal::<I, false>::try_from_parts(d_man, d_scale)?;

    let n2 = OobScaleFpdec::<I>::from_mantissa(n_man);
    let d2 = OobScaleFpdec::<I>::from_mantissa(d_man);

    match n.checked_mul(d) {
        Some(p) => {
            let (p_man, p_scale) = p.parts();
            let diff_scale = (n_scale + d_scale) as i32 - p_scale as i32;
            let p2 = n2.checked_mul(d2, diff_scale).unwrap();
            assert_eq!(p2.mantissa(), p_man);
        }
        None => {
            let diff_scale = (n_scale + d_scale) as i32;
            if let Some(p2) = n2.checked_mul(d2, diff_scale) {
                assert!(Decimal::<I, false>::try_from_parts(p2.mantissa(), 0).is_none());
            }
        }
    }

    match n.checked_div(d) {
        Some(q) => {
            let (q_man, q_scale) = q.parts();
            let diff_scale = n_scale as i32 - d_scale as i32 - q_scale as i32;
            let q2 = n2.checked_div(d2, diff_scale).unwrap();
            assert_eq!(q2.mantissa(), q_man);
        }
        None => {
            let diff_scale = n_scale as i32 - d_scale as i32;
            if let Some(q2) = n2.checked_div(d2, diff_scale) {
                assert!(Decimal::<I, false>::try_from_parts(q2.mantissa(), 0).is_none());
            }
        }
    }
    Some(())
}

const SCALES: [u32; 6] = [0, 1, 3, 7, 15, 31];

#[test]
fn same_as_primitive_fixed_point_decimal_128() {
    let mans: [i128; 10] = [
        0,
        1,
        -7,
        59,
        -127,
        10_000_000_019,
        -123_456_789_012_345_678_901,
        (1 << 100) + 12345,
        (1 << 121) - 3,
        -((1 << 122) - 1),
    ];
    for &n in mans.iter() {
        for &ns in SCALES.iter() {
            for &d in mans.iter() {
                for &ds in SCALES.iter() {
                    check_signed::<u128, i128>(n, ns, d, ds);
                    check_unsigned::<u128>(n as u128, ns, d as u128, ds);
                }
            }
        }
    }
}

#[test]
fn same_as_primitive_fixed_point_decimal_64() {
    let mans: [i64; 9] = [0, 1, -7, 59, -127, 10_000_000_019, -123_456_789_012, (1 << 50) + 3, (1 << 59) - 1];
    for &n in mans.iter() {
        for &ns in SCALES.iter() {
            for &d in mans.iter() {
                for &ds in SCALES.iter() {
                    check_signed::<u64, i64>(n, ns, d, ds);
                    check_unsigned::<u64>(n as u64, ns, d as u64, ds);
                }
            }
        }
    }
}

#[test]
fn same_as_primitive_fixed_point_decimal_32() {
    let mans: [i32; 8] = [0, 1, -7, 59, -127, 100_003, -12_345_678, (1 << 28) - 1];
    for &n in mans.iter() {
        for &ns in SCALES.iter() {
            for &d in mans.iter() {
                for &ds in SCALES.iter() {
                    check_signed::<u32, i32>(n, ns, d, ds);
                    check_unsigned::<u32>(n as u32, ns, d as u32, ds);
                }
            }
        }
    }
}
