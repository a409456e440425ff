//! Conversions from binary floating-point numbers, given by their bits
//! (`f32::to_bits`, `f64::to_bits`).
use vstd::arithmetic::power::lemma_pow0;
use vstd::arithmetic::power2::{lemma_pow2_unfold, pow2};
use vstd::bits::lemma_u128_shr_is_div;
use vstd::prelude::*;

use crate::math::{
    btd, div_round, lemma_btd_bounds, lemma_div_round_halves, lemma_div_round_le,
    lemma_div_round_scale, lemma_pow10_mono, lemma_pow10_pos, lemma_pow10_pow5, lemma_pow10_values,
    lemma_pow2_add, lemma_pow2_mono, lemma_pow2_pos, lemma_pow2_values, lemma_pow5_values, pow10,
    pow2n, pow5,
};
use crate::ops::{bits_to_digits, view_of};
use crate::{Decimal, DecimalView, UnderlyingInt};

verus! {

/// Only for `u64` and `u128`, but no `u32`.
///
/// This is used for converting from `f64`, which has 53 bits mantissa,
/// bigger than `u32`.
pub trait BigUnderlyingInt: UnderlyingInt {
    /// At least 64 bits wide.
    proof fn lemma_wide()
        ensures
            Self::spec_bits() >= 64,
    ;

    /// Converts a `u64`.
    fn from_u64(v: u64) -> (r: Self)
        ensures
            r.val() == v,
    ;
}

impl BigUnderlyingInt for u64 {
    proof fn lemma_wide() {
    }

    fn from_u64(v: u64) -> (r: Self) {
        v
    }
}

impl BigUnderlyingInt for u128 {
    proof fn lemma_wide() {
    }

    fn from_u64(v: u64) -> (r: Self) {
        v as u128
    }
}

/// Error in converting from float.
#[derive(Debug, Clone, Copy, PartialEq, Eq, Structural)]
pub enum FromFloatError {
    /// The float is subnormal.
    Subnormal,
    /// The float is infinite.
    Infinity,
    /// The float is not a number.
    Nan,
    /// The float is too small: it rounds to zero at the largest scale.
    Underflow,
    /// The float is too big.
    Overflow,
    /// The float is negative but the decimal is unsigned.
    Negative,
}

/// The sign, integer mantissa and binary exponent of a float, from its sign
/// bit, biased exponent `exp` and fraction `frac` of `frac_bits` bits:
/// `Ok` for zero and normal numbers.
pub open spec fn float_fields(
    sign: nat,
    exp: nat,
    frac: nat,
    frac_bits: nat,
    exp_max: nat,
    bias: int,
) -> Result<(nat, nat, int), FromFloatError> {
    if exp == 0 {
        if frac == 0 {
            Ok((0nat, 0nat, 0int))
        } else {
            Err(FromFloatError::Subnormal)
        }
    } else if exp == exp_max {
        if frac == 0 {
            Err(FromFloatError::Infinity)
        } else {
            Err(FromFloatError::Nan)
        }
    } else {
        Ok((sign, pow2n(frac_bits) + frac, exp - bias - frac_bits))
    }
}

/// The fields of the `f32` with the given bits.
pub open spec fn f32_fields(bits: u32) -> Result<(nat, nat, int), FromFloatError> {
    float_fields(
        bits as nat / pow2n(31),
        (bits as nat / pow2n(23)) % 256,
        bits as nat % pow2n(23),
        23,
        255,
        127,
    )
}

/// The fields of the `f64` with the given bits.
pub open spec fn f64_fields(bits: u64) -> Result<(nat, nat, int), FromFloatError> {
    float_fields(
        bits as nat / pow2n(63),
        (bits as nat / pow2n(52)) % 2048,
        bits as nat % pow2n(52),
        52,
        2047,
        1023,
    )
}

/// The decimal the float `(-1)^sign * m * 2^e` gives, `m` having at most
/// `m_bits` bits: with a negative exponent, the number rounded half up to
/// as many fraction digits as the binary ones give, within the largest
/// scale; with a positive one, the integer, if it fits.
pub open spec fn from_float_spec<I: UnderlyingInt>(
    sign: nat,
    m: nat,
    e: int,
    m_bits: nat,
    signed: bool,
) -> Result<DecimalView, FromFloatError> {
    if !signed && sign == 1 {
        Err(FromFloatError::Negative)
    } else if e < 0 {
        let k = (-e) as nat;
        let scale = if btd(k) <= I::spec_max_scale() {
            btd(k)
        } else {
            I::spec_max_scale()
        };
        let man = div_round(m * pow10(scale), pow2n(k));
        if man == 0 {
            Err(FromFloatError::Underflow)
        } else {
            Ok(view_of(sign, scale, man))
        }
    } else if e == 0 {
        Ok(view_of(sign, 0, m))
    } else if e + m_bits > I::spec_man_bits(signed) {
        Err(FromFloatError::Overflow)
    } else {
        Ok(view_of(sign, 0, m * pow2n(e as nat)))
    }
}

/// What a float with the given fields converts to.
pub open spec fn float_result<I: UnderlyingInt>(
    fields: Result<(nat, nat, int), FromFloatError>,
    m_bits: nat,
    signed: bool,
) -> Result<DecimalView, FromFloatError> {
    match fields {
        Err(e) => Err(e),
        Ok((s, m, e)) => from_float_spec::<I>(s, m, e, m_bits, signed),
    }
}

/// Whether an exec result agrees with a spec result.
pub open spec fn same_float_result<I: UnderlyingInt, const S: bool>(
    r: Result<Decimal<I, S>, FromFloatError>,
    v: Result<DecimalView, FromFloatError>,
) -> bool {
    match (r, v) {
        (Ok(d), Ok(w)) => d@ == w,
        (Err(e), Err(f)) => e == f,
        _ => false,
    }
}

const ALL_5EXPS: [u128; 32] = [
    1,
    5,
    25,
    125,
    625,
    3125,
    15625,
    78125,
    390625,
    1953125,
    9765625,
    48828125,
    244140625,
    1220703125,
    6103515625,
    30517578125,
    152587890625,
    762939453125,
    3814697265625,
    19073486328125,
    95367431640625,
    476837158203125,
    2384185791015625,
    11920928955078125,
    59604644775390625,
    298023223876953125,
    1490116119384765625,
    7450580596923828125,
    37252902984619140625,
    186264514923095703125,
    931322574615478515625,
    4656612873077392578125
];

/// `5^i`, for `i < 32`.
fn get_5exp(i: u32) -> (r: u128)
    requires
        i < 32,
    ensures
        r == pow5(i as nat),
{
    proof {
        lemma_pow5_values();
        assert(ALL_5EXPS@ =~= seq![
            1,
            5,
            25,
            125,
            625,
            3125,
            15625,
            78125,
            390625,
            1953125,
            9765625,
            48828125,
            244140625,
            1220703125,
            6103515625,
            30517578125,
            152587890625,
            762939453125,
            3814697265625,
            19073486328125,
            95367431640625,
            476837158203125,
            2384185791015625,
            11920928955078125,
            59604644775390625,
            298023223876953125,
            1490116119384765625,
            7450580596923828125,
            37252902984619140625,
            186264514923095703125,
            931322574615478515625,
            4656612873077392578125
        ]);
    }
    ALL_5EXPS[i as usize]
}

/// vstd's powers of two are ours.
proof fn lemma_pow2_same(n: nat)
    ensures
        pow2(n) == pow2n(n),
    decreases n,
{
    if n == 0 {
        lemma_pow0(2);
    } else {
        lemma_pow2_unfold(n);
        lemma_pow2_same((n - 1) as nat);
    }
}

/// `(n * m) / 2^sh`, rounded half up.
fn round_mul_shl(n: u128, m: u128, sh: u32) -> (r: u128)
    requires
        sh >= 1,
        n * m <= u128::MAX,
    ensures
        r == div_round(n as nat * m as nat, pow2n(sh as nat)),
{
    proof {
        lemma_pow2_values();
    }
    if sh > 128 {
        // the product is below 2^128, so less than half of 2^sh
        proof {
            lemma_pow2_mono(129, sh as nat);
            lemma_pow2_add(1, (sh - 1) as nat);
            lemma_pow2_mono(128, (sh - 1) as nat);
            lemma_div_round_halves(n as nat * m as nat, pow2n((sh - 1) as nat));
            vstd::arithmetic::div_mod::lemma_basic_div_specific_divisor(pow2n((sh - 1) as nat) as int);
            assert((n as nat * m as nat) / pow2n((sh - 1) as nat) == 0);
        }
        return 0;
    }
    let x = n * m;
    let shift = sh - 1;
    let p1 = x >> shift;
    let p0 = p1 >> 1;
    let round = if p1 & 1 == 1 {
        1
    } else {
        0
    };
    proof {
        let j = shift as u128;
        assert(p1 == x >> j) by (bit_vector)
            requires
                j == shift as u128,
                p1 == x >> shift,
                shift < 128,
        ;
        lemma_u128_shr_is_div(x, j);
        lemma_pow2_same(j as nat);
        assert(p0 == p1 / 2 && (p1 & 1 == 1) == (p1 % 2 == 1)) by (bit_vector)
            requires
                p0 == p1 >> 1,
        ;
        lemma_pow2_pos(j as nat);
        lemma_pow2_add(1, j as nat);
        assert(pow2n(sh as nat) == 2 * pow2n(j as nat));
        lemma_div_round_halves(x as nat, pow2n(j as nat));
        assert(p0 + round == div_round(x as nat, pow2n(sh as nat)));
        assert(p0 + round <= u128::MAX);
    }
    p0 + round
}

/// The fields of an `f32`.
fn decompose_f32(bits: u32) -> (r: Result<(u8, u32, i32), FromFloatError>)
    ensures
        match (r, f32_fields(bits)) {
            (Ok(x), Ok(y)) => x.0 as nat == y.0 && x.1 as nat == y.1 && x.2 as int == y.2,
            (Err(e), Err(f)) => e == f,
            _ => false,
        },
{
    proof {
        lemma_pow2_values();
    }
    let sign = ((bits >> 31u32) & 1) as u8;
    let exp = ((bits >> 23u32) & 0xff) as i32;
    let man = bits & 0x7fffff;
    proof {
        assert(sign as u32 == bits / 0x8000_0000 && exp as u32 == (bits / 0x80_0000) % 256 && 0
            <= exp && man == bits % 0x80_0000) by (bit_vector)
            requires
                sign == ((bits >> 31u32) & 1) as u8,
                exp == ((bits >> 23u32) & 0xff) as i32,
                man == bits & 0x7fffff,
        ;
    }

    if exp == 0 {
        if man == 0 {
            Ok((0, 0, 0))
        } else {
            Err(FromFloatError::Subnormal)
        }
    } else if exp == 0xff {
        if man == 0 {
            Err(FromFloatError::Infinity)
        } else {
            Err(FromFloatError::Nan)
        }
    } else {
        // normal cases
        let man = (1 << 23u32) | man;
        proof {
            assert(man == 0x80_0000 + bits % 0x80_0000) by (bit_vector)
                requires
                    man == (1u32 << 23u32) | (bits & 0x7fffff),
            ;
        }
        let exp = exp - 127 - 23;
        Ok((sign, man, exp))
    }
}

/// The fields of an `f64`.
fn decompose_f64(bits: u64) -> (r: Result<(u8, u64, i32), FromFloatError>)
    ensures
        match (r, f64_fields(bits)) {
            (Ok(x), Ok(y)) => x.0 as nat == y.0 && x.1 as nat == y.1 && x.2 as int == y.2,
            (Err(e), Err(f)) => e == f,
            _ => false,
        },
{
    proof {
        lemma_pow2_values();
    }
    let sign = ((bits >> 63u64) & 1) as u8;
    let exp = ((bits >> 52u64) & 0x7ff) as i32;
    let man = bits & 0xf_ffff_ffff_ffff;
    proof {
        assert(sign as u64 == bits / 0x8000_0000_0000_0000 && exp as u64 == (bits
            / 0x10_0000_0000_0000) % 2048 && 0 <= exp && man == bits % 0x10_0000_0000_0000)
            by (bit_vector)
            requires
                sign == ((bits >> 63u64) & 1) as u8,
                exp == ((bits >> 52u64) & 0x7ff) as i32,
                man == bits & 0xf_ffff_ffff_ffff,
        ;
    }

    if exp == 0 {
        if man == 0 {
            Ok((0, 0, 0))
        } else {
            Err(FromFloatError::Subnormal)
        }
    } else if exp == 0x7ff {
        if man == 0 {
            Err(FromFloatError::Infinity)
        } else {
            Err(FromFloatError::Nan)
        }
    } else {
        // normal cases
        let man = (1 << 52u64) | man;
        proof {
            assert(man == 0x10_0000_0000_0000 + bits % 0x10_0000_0000_0000) by (bit_vector)
                requires
                    man == (1u64 << 52u64) | (bits & 0xf_ffff_ffff_ffff),
            ;
        }
        let exp = exp - 1023 - 52;
        Ok((sign, man, exp))
    }
}

/// The scale a binary exponent `-k` brings: as many decimal digits as
/// binary ones, within the largest scale; and the facts on its size.
fn float_scale<I: UnderlyingInt>(k: u32) -> (r: u32)
    requires
        1 <= k <= 1100,
    ensures
        r == (if btd(k as nat) <= I::spec_max_scale() {
            btd(k as nat)
        } else {
            I::spec_max_scale()
        }),
        r < k,
        r <= 31,
        pow10(r as nat) <= pow2n(k as nat),
{
    proof {
        crate::ops::lemma_sizes::<I>();
    }
    let digits = bits_to_digits(k);
    let scale = if digits < I::max_scale() {
        digits
    } else {
        I::max_scale()
    };
    proof {
        if k <= 130 {
            lemma_btd_bounds(k as nat);
            lemma_pow10_mono(scale as nat, btd(k as nat));
        } else {
            lemma_pow10_values();
            lemma_pow2_values();
            lemma_pow10_mono(scale as nat, 31);
            lemma_pow2_mono(103, k as nat);
        }
    }
    scale
}

/// The rounded mantissa at the scale a negative binary exponent brings is no
/// bigger than the binary mantissa, and is what the multiplication by a
/// power of five gives.
proof fn lemma_float_round(m: nat, scale: nat, k: nat)
    requires
        scale < k,
        pow10(scale) <= pow2n(k),
    ensures
        div_round(m * pow5(scale), pow2n((k - scale) as nat)) == div_round(m * pow10(scale), pow2n(k)),
        div_round(m * pow10(scale), pow2n(k)) <= m,
{
    lemma_pow10_pow5(scale);
    lemma_pow2_add((k - scale) as nat, scale);
    lemma_pow2_pos(scale);
    lemma_pow2_pos((k - scale) as nat);
    let c = pow2n(scale);
    assert(m * pow10(scale) == (m * pow5(scale)) * c && pow2n(k) == pow2n((k - scale) as nat) * c)
        by (nonlinear_arith)
        requires
            pow10(scale) as int == pow5(scale) as int * c as int,
            pow2n(k) == pow2n((k - scale) as nat) * c,
    ;
    lemma_div_round_scale(m * pow5(scale), pow2n((k - scale) as nat), c);
    lemma_pow2_pos(k);
    assert(m * pow10(scale) <= m * pow2n(k)) by (nonlinear_arith)
        requires
            pow10(scale) <= pow2n(k),
    ;
    lemma_div_round_le(m * pow10(scale), pow2n(k), m);
}

impl<I: UnderlyingInt, const S: bool> Decimal<I, S> {
    /// Convert from `f32`, given by its bits (`f32::to_bits`), keeping about
    /// 7 significant digits (see [`from_float_spec`]).
    pub fn try_from_f32_bits(bits: u32) -> (r: Result<Self, FromFloatError>)
        ensures
            same_float_result(r, float_result::<I>(f32_fields(bits), 24, S)),
    {
        proof {
            crate::ops::lemma_sizes::<I>();
            lemma_pow2_values();
            lemma_pow5_values();
            I::lemma_shape(vstd::pervasive::arbitrary());
        }
        let (sign, man, exp) = match decompose_f32(bits) {
            Ok(x) => x,
            Err(e) => {
                return Err(e);
            },
        };

        if !S && sign == 1 {
            return Err(FromFloatError::Negative);
        }

        let (man10, scale) = if exp < 0 {
            // exp < 0: man10 = (man2 * 10^scale) >> -exp
            let exp = (-exp) as u32;

            let scale = float_scale::<I>(exp);

            // calculate: man_scale = (man * 10^scale) >> exp
            //                      = (man * 5^scale) >> (exp - scale)
            //
            // Tha @man has 24 bits, the max of @ALL_5EXPS has 72 bits,
            // so the multiplication will not overflow.
            let p5 = get_5exp(scale);
            proof {
                lemma_pow5_mono(scale as nat, 31);
                assert(man as nat * p5 as nat <= u128::MAX) by (nonlinear_arith)
                    requires
                        man < 0x100_0000,
                        p5 <= 4656612873077392578125,
                ;
                lemma_float_round(man as nat, scale as nat, exp as nat);
            }
            let man10 = round_mul_shl(man as u128, p5, exp - scale);
            if man10 == 0 {
                return Err(FromFloatError::Underflow);
            }

            (I::from_u32(man10 as u32), scale)
        } else if exp == 0 {
            // integer, no scale
            (I::from_u32(man), 0)
        } else {
            // exp > 0: man10 = man2 << exp
            let exp = exp as u32;

            if exp + 24 > I::man_bits(S) {
                return Err(FromFloatError::Overflow);
            }
            proof {
                lemma_pow2_add(24, exp as nat);
                lemma_pow2_mono(24 + exp as nat, I::spec_man_bits(S));
                assert(man as nat * pow2n(exp as nat) < pow2n(24) * pow2n(exp as nat)) by (nonlinear_arith)
                    requires
                        man < pow2n(24),
                        pow2n(exp as nat) > 0,
                ;
                lemma_pow2_pos(exp as nat);
            }
            (I::from_u32(man).shl_bits(exp), 0)
        };

        Ok(Decimal::pack(sign, scale, man10))
    }
}

impl<I: BigUnderlyingInt, const S: bool> Decimal<I, S> {
    /// Convert from `f64`, given by its bits (`f64::to_bits`), keeping about
    /// 15 significant digits (see [`from_float_spec`]).
    ///
    /// This only works for 64-bit and 128-bit decimal types, but not for
    /// 32-bit type, because `f64` has 53 bits mantissa.
    pub fn try_from_f64_bits(bits: u64) -> (r: Result<Self, FromFloatError>)
        ensures
            same_float_result(r, float_result::<I>(f64_fields(bits), 53, S)),
    {
        proof {
            crate::ops::lemma_sizes::<I>();
            lemma_pow2_values();
            lemma_pow5_values();
            I::lemma_shape(vstd::pervasive::arbitrary());
            I::lemma_wide();
        }
        let (sign, man, exp) = match decompose_f64(bits) {
            Ok(x) => x,
            Err(e) => {
                return Err(e);
            },
        };

        if !S && sign == 1 {
            return Err(FromFloatError::Negative);
        }

        let (man10, scale) = if exp < 0 {
            // exp < 0: man10 = (man2 * 10^scale) >> -exp
            let exp = (-exp) as u32;
            let scale = float_scale::<I>(exp);

            // calculate: man_scale = (man * 10^scale) >> exp
            //                      = (man * 5^scale) >> (exp - scale)
            //
            // Tha @man has 53 bits, the max of @ALL_5EXPS has 72 bits,
            // so the multiplication will not overflow. What a luck!
            let p5 = get_5exp(scale);
            proof {
                lemma_pow5_mono(scale as nat, 31);
                assert(man as nat * p5 as nat <= u128::MAX) by (nonlinear_arith)
                    requires
                        man < 0x20_0000_0000_0000,
                        p5 <= 4656612873077392578125,
                ;
                lemma_float_round(man as nat, scale as nat, exp as nat);
            }
            let man10 = round_mul_shl(man as u128, p5, exp - scale);
            if man10 == 0 {
                return Err(FromFloatError::Underflow);
            }

            (I::from_u64(man10 as u64), scale)
        } else if exp == 0 {
            // integer, no scale
            (I::from_u64(man), 0)
        } else {
            // exp > 0: man10 = man2 << exp
            let exp = exp as u32;

            if exp + 53 > I::man_bits(S) {
                return Err(FromFloatError::Overflow);
            }
            proof {
                lemma_pow2_add(53, exp as nat);
                lemma_pow2_mono(53 + exp as nat, I::spec_man_bits(S));
                assert(man as nat * pow2n(exp as nat) < pow2n(53) * pow2n(exp as nat)) by (nonlinear_arith)
                    requires
                        man < pow2n(53),
                        pow2n(exp as nat) > 0,
                ;
                lemma_pow2_pos(exp as nat);
            }
            (I::from_u64(man).shl_bits(exp), 0)
        };

        Ok(Decimal::pack(sign, scale, man10))
    }
}

/// Powers of five grow.
proof fn lemma_pow5_mono(a: nat, b: nat)
    requires
        a <= b,
    ensures
        pow5(a) <= pow5(b),
    decreases b - a,
{
    if a < b {
        lemma_pow5_mono(a, (b - 1) as nat);
        assert(pow5(b) == 5 * pow5((b - 1) as nat));
    }
}

} // verus!
