//! `u128` as the underlying integer: 1 sign bit, 5 scale bits, 122 mantissa bits
//! (123 when unsigned).
use vstd::arithmetic::div_mod::*;
use vstd::arithmetic::mul::*;
use vstd::prelude::*;

use crate::int64::lemma_u64_leading_zeros;
use crate::ops::bits_to_digits;
use crate::pow10div::div_double_128;
use crate::math::{
    lemma_qr, lemma_quot_below, lemma_div_round_of_qr, lemma_tz10, tz10, lemma_btd_bounds,
    lemma_div_cancel, lemma_pow10_add, lemma_pow10_factor_of_pow2, lemma_div_round_mono,
    lemma_low_bits_exact, lemma_reduce_step, lemma_mul_lt_bounds, lemma_pow2_pos,
    big_clear_digits, big_mul_clear_digits, btd, ceil_digits, clear_digits_min, div_round, lemma_div_lt_bound,
    lemma_div_round_le, lemma_div_round_le_iff, lemma_div_round_mono_divisor, lemma_div_round_one,
    lemma_mul_bit_len,
    lemma_mul_clear, lemma_pow10_even, lemma_pow2_mono, mul_clear_digits, sat_sub,
    bit_len, lemma_bit_len, lemma_bit_len_gt, lemma_bit_len_le, lemma_pow2_add, pow2n, lemma_div_round_add_half, lemma_pow10_mono, lemma_pow10_pos, lemma_pow10_values,
    lemma_pow2_values, pow10,
};
use crate::pow10div::div_single_128;
use crate::quotient::{long_div_scale, quotient_at, room, short_div_scale};
use crate::UnderlyingInt;

verus! {

/// Bit length of a 128-bit number made of two 64-bit halves.
proof fn lemma_bit_len_halves(high: nat, low: nat)
    requires
        high > 0,
        low < pow2n(64),
    ensures
        bit_len(high * pow2n(64) + low) == 64 + bit_len(high),
{
    let v = high * pow2n(64) + low;
    let k = bit_len(high);
    lemma_bit_len(high);
    lemma_pow2_add((k - 1) as nat, 64);
    lemma_pow2_add(k, 64);
    assert(v < pow2n(k + 64)) by (nonlinear_arith)
        requires
            v == high * pow2n(64) + low,
            high < pow2n(k),
            low < pow2n(64),
            pow2n(k + 64) == pow2n(k) * pow2n(64),
    ;
    assert(v >= pow2n((k - 1 + 64) as nat)) by (nonlinear_arith)
        requires
            v == high * pow2n(64) + low,
            high >= pow2n((k - 1) as nat),
            pow2n((k - 1 + 64) as nat) == pow2n((k - 1) as nat) * pow2n(64),
    ;
    lemma_bit_len_le(v, k + 64);
    lemma_bit_len_gt(v, (k - 1 + 64) as nat);
}

const ALL_EXPS: [u128; 39] = [
    1,
    10,
    100,
    1000,
    10000,
    100000,
    1000000,
    10000000,
    100000000,
    1000000000,
    10000000000,
    100000000000,
    1000000000000,
    10000000000000,
    100000000000000,
    1000000000000000,
    10000000000000000,
    100000000000000000,
    1000000000000000000,
    10000000000000000000,
    100000000000000000000,
    1000000000000000000000,
    10000000000000000000000,
    100000000000000000000000,
    1000000000000000000000000,
    10000000000000000000000000,
    100000000000000000000000000,
    1000000000000000000000000000,
    10000000000000000000000000000,
    100000000000000000000000000000,
    1000000000000000000000000000000,
    10000000000000000000000000000000,
    100000000000000000000000000000000,
    1000000000000000000000000000000000,
    10000000000000000000000000000000000,
    100000000000000000000000000000000000,
    1000000000000000000000000000000000000,
    10000000000000000000000000000000000000,
    100000000000000000000000000000000000000,
];

// the caller must make sure that: @i < 39
fn get_exp(i: u32) -> (r: u128)
    requires
        i < 39,
    ensures
        r as nat == pow10(i as nat),
{
    proof {
        lemma_pow10_values();
        assert(ALL_EXPS@ =~= seq![
            1u128,
            10,
            100,
            1000,
            10000,
            100000,
            1000000,
            10000000,
            100000000,
            1000000000,
            10000000000,
            100000000000,
            1000000000000,
            10000000000000,
            100000000000000,
            1000000000000000,
            10000000000000000,
            100000000000000000,
            1000000000000000000,
            10000000000000000000,
            100000000000000000000,
            1000000000000000000000,
            10000000000000000000000,
            100000000000000000000000,
            1000000000000000000000000,
            10000000000000000000000000,
            100000000000000000000000000,
            1000000000000000000000000000,
            10000000000000000000000000000,
            100000000000000000000000000000,
            1000000000000000000000000000000,
            10000000000000000000000000000000,
            100000000000000000000000000000000,
            1000000000000000000000000000000000,
            10000000000000000000000000000000000,
            100000000000000000000000000000000000,
            1000000000000000000000000000000000000,
            10000000000000000000000000000000000000,
            100000000000000000000000000000000000000,
        ]);
    }
    ALL_EXPS[i as usize]
}

fn max_mantissa(signed: bool) -> (r: u128)
    ensures
        r == u128::spec_max_man(signed),
{
    if signed {
        0x03ff_ffff_ffff_ffff_ffff_ffff_ffff_ffff
    } else {
        0x07ff_ffff_ffff_ffff_ffff_ffff_ffff_ffff
    }
}

fn meta_bits(signed: bool) -> (r: u32)
    ensures
        r == 128 - u128::spec_man_bits(signed),
{
    if signed {
        6
    } else {
        5
    }
}

/// `x + y` modulo `2^128`, and whether it wrapped.
fn add_carry(x: u128, y: u128) -> (r: (u128, bool))
    ensures
        r.0 as nat + (if r.1 {
            0x1_0000_0000_0000_0000_0000_0000_0000_0000nat
        } else {
            0nat
        }) == x as nat + y as nat,
{
    let s = x.wrapping_add(y);
    (s, s < x)
}

// calculate: n / d and n % d
#[inline]
fn div_rem(n: u128, d: u128) -> (r: (u128, u128))
    requires
        d > 0,
    ensures
        r.0 == n / d,
        r.1 == n % d,
        r.0 as nat * d as nat + r.1 as nat == n as nat,
{
    proof {
        lemma_qr(n as nat, d as nat);
    }
    if (n | d) <= u64::MAX as u128 {
        proof {
            assert(n <= 0xffff_ffff_ffff_ffff && d <= 0xffff_ffff_ffff_ffff) by (bit_vector)
                requires
                    (n | d) <= 0xffff_ffff_ffff_ffffu128,
            ;
        }
        let n64 = n as u64;
        let d64 = d as u64;
        ((n64 / d64) as u128, (n64 % d64) as u128)
    } else {
        (n / d, n % d)
    }
}

/// `a / b` and `a % b` for a dividend below `2^96`, in two 64-bit steps.
fn div96_by32(a: u128, b: u32) -> (r: (u128, u128))
    requires
        a < 0x1_0000_0000_0000_0000_0000_0000,
        b > 0,
    ensures
        r.0 == a / (b as u128),
        r.1 == a % (b as u128),
        r.0 as nat * b as nat + r.1 as nat == a as nat,
{
    let b = b as u64;

    let high = (a >> 64u32) as u64;
    let low = a as u64;

    let n = high << 32u32 | low >> 32u32;
    proof {
        assert(n as nat == a as nat / 0x1_0000_0000 && low as nat % 0x1_0000_0000 == a as nat
            % 0x1_0000_0000) by (bit_vector)
            requires
                a < 0x1_0000_0000_0000_0000_0000_0000u128,
                high == (a >> 64u32) as u64,
                low == a as u64,
                n == high << 32u32 | low >> 32u32,
        ;
    }
    let q1 = n / b;
    let r = n % b;
    proof {
        lemma_qr(n as nat, b as nat);
    }

    let n = r << 32u32 | low & u32::MAX as u64;
    proof {
        assert(n as nat == r as nat * 0x1_0000_0000 + low as nat % 0x1_0000_0000) by (bit_vector)
            requires
                r < 0x1_0000_0000u64,
                n == r << 32u32 | low & 0xffff_ffffu64,
        ;
    }
    let q2 = n / b;
    let r2 = n % b;
    proof {
        lemma_qr(n as nat, b as nat);
        assert(low as nat % 0x1_0000_0000 < 0x1_0000_0000) by (bit_vector);
        assert(q2 < 0x1_0000_0000) by (nonlinear_arith)
            requires
                q2 as nat * b as nat + r2 as nat == r as nat * 0x1_0000_0000 + low as nat
                    % 0x1_0000_0000,
                r < b,
                low as nat % 0x1_0000_0000 < 0x1_0000_0000,
        ;
        assert(q2 as nat * b as nat + r2 as nat == r as nat * 0x1_0000_0000 + a as nat
            % 0x1_0000_0000);
    }
    let q = ((q1 as u128) << 32u32) | q2 as u128;
    proof {
        assert(q as nat == q1 as nat * 0x1_0000_0000 + q2 as nat) by (bit_vector)
            requires
                q2 < 0x1_0000_0000u64,
                q == ((q1 as u128) << 32u32) | q2 as u128,
        ;
        lemma_qr(a as nat, 0x1_0000_0000);
        assert(q as nat * b as nat + r2 as nat == a as nat) by (nonlinear_arith)
            requires
                q as nat == q1 as nat * 0x1_0000_0000 + q2 as nat,
                q2 as nat * b as nat + r2 as nat == r as nat * 0x1_0000_0000 + a as nat
                    % 0x1_0000_0000,
                q1 as nat * b as nat + r as nat == a as nat / 0x1_0000_0000,
                (a as nat / 0x1_0000_0000) * 0x1_0000_0000 + a as nat % 0x1_0000_0000 == a as nat,
        ;
        lemma_div_round_of_qr(a as nat, b as nat, q as nat, r2 as nat);
    }
    (q, r2 as u128)
}

/// `a / b` and `a % b` in three 64-bit steps.
fn div128_by32(a: u128, b: u32) -> (r: (u128, u128))
    requires
        b > 0,
    ensures
        r.0 == a / (b as u128),
        r.1 == a % (b as u128),
        r.0 as nat * b as nat + r.1 as nat == a as nat,
{
    let b = b as u64;

    let high = (a >> 64u32) as u64;
    let low = a as u64;
    proof {
        assert(a as nat == high as nat * 0x1_0000_0000_0000_0000 + low as nat) by (bit_vector)
            requires
                high == (a >> 64u32) as u64,
                low == a as u64,
        ;
    }

    let q0 = high / b;
    let r0 = high % b;
    proof {
        lemma_qr(high as nat, b as nat);
    }

    let n = r0 << 32u32 | low >> 32u32;
    proof {
        assert(n as nat == r0 as nat * 0x1_0000_0000 + low as nat / 0x1_0000_0000) by (bit_vector)
            requires
                r0 < 0x1_0000_0000u64,
                n == r0 << 32u32 | low >> 32u32,
        ;
    }
    let q1 = n / b;
    let r = n % b;
    proof {
        lemma_qr(n as nat, b as nat);
        assert(low as nat / 0x1_0000_0000 < 0x1_0000_0000) by (bit_vector);
        assert(q1 < 0x1_0000_0000) by (nonlinear_arith)
            requires
                q1 as nat * b as nat + r as nat == r0 as nat * 0x1_0000_0000 + low as nat
                    / 0x1_0000_0000,
                r0 < b,
                low as nat / 0x1_0000_0000 < 0x1_0000_0000,
        ;
    }

    let n = r << 32u32 | low & u32::MAX as u64;
    proof {
        assert(n as nat == r as nat * 0x1_0000_0000 + low as nat % 0x1_0000_0000) by (bit_vector)
            requires
                r < 0x1_0000_0000u64,
                n == r << 32u32 | low & 0xffff_ffffu64,
        ;
    }
    let q2 = n / b;
    let r2 = n % b;
    proof {
        lemma_qr(n as nat, b as nat);
        assert(low as nat % 0x1_0000_0000 < 0x1_0000_0000) by (bit_vector);
        assert(q2 < 0x1_0000_0000) by (nonlinear_arith)
            requires
                q2 as nat * b as nat + r2 as nat == r as nat * 0x1_0000_0000 + low as nat
                    % 0x1_0000_0000,
                r < b,
                low as nat % 0x1_0000_0000 < 0x1_0000_0000,
        ;
    }
    let q = (q0 as u128) << 64u32 | ((q1 as u128) << 32u32) | q2 as u128;
    proof {
        assert(q as nat == q0 as nat * 0x1_0000_0000_0000_0000 + q1 as nat * 0x1_0000_0000
            + q2 as nat) by (bit_vector)
            requires
                q1 < 0x1_0000_0000u64,
                q2 < 0x1_0000_0000u64,
                q == (q0 as u128) << 64u32 | ((q1 as u128) << 32u32) | q2 as u128,
        ;
        lemma_qr(low as nat, 0x1_0000_0000);
        assert(q as nat * b as nat + r2 as nat == a as nat) by (nonlinear_arith)
            requires
                q as nat == q0 as nat * 0x1_0000_0000_0000_0000 + q1 as nat * 0x1_0000_0000
                    + q2 as nat,
                a as nat == high as nat * 0x1_0000_0000_0000_0000 + low as nat,
                q0 as nat * b as nat + r0 as nat == high as nat,
                q1 as nat * b as nat + r as nat == r0 as nat * 0x1_0000_0000 + low as nat
                    / 0x1_0000_0000,
                q2 as nat * b as nat + r2 as nat == r as nat * 0x1_0000_0000 + low as nat
                    % 0x1_0000_0000,
                (low as nat / 0x1_0000_0000) * 0x1_0000_0000 + low as nat % 0x1_0000_0000
                    == low as nat,
        ;
        lemma_div_round_of_qr(a as nat, b as nat, q as nat, r2 as nat);
    }
    (q, r2 as u128)
}

/// The low bits tell the divisibility by small powers of two.
proof fn lemma_low_bits(n: u128)
    by (bit_vector)
    ensures
        (n as u8 == 0u8) == (n % 256u128 == 0u128),
        (n & 0xFu128 == 0u128) == (n % 16u128 == 0u128),
        (n & 0x3u128 == 0u128) == (n % 4u128 == 0u128),
        (n & 0x1u128 == 0u128) == (n % 2u128 == 0u128),
{
}

/// Removes trailing decimal zeros, at most `max_scale` of them.
fn reduce_scale(n: u128, max_scale: u32) -> (r: (u128, u32))
    ensures
        r.1 <= max_scale,
        n == 0 ==> r.1 == 0,
        r.0 as nat * pow10(r.1 as nat) == n as nat,
        n > 0 ==> r.1 == (if tz10(n as nat) <= max_scale {
            tz10(n as nat)
        } else {
            max_scale as nat
        }),
{
    if n == 0 {
        assert(0 * pow10(0) == 0);
        return (0, 0);
    }
    proof {
        assert(1u128 << 96u128 == 0x1_0000_0000_0000_0000_0000_0000u128) by (bit_vector);
    }
    if n < 1 << 96 {
        reduce_scale_96(n, max_scale)
    } else {
        reduce_scale_full(n, max_scale)
    }
}

/// [`reduce_scale`] for a number below `2^96`, with 96-bit divisions.
fn reduce_scale_96(n: u128, max_scale: u32) -> (r: (u128, u32))
    requires
        0 < n < 0x1_0000_0000_0000_0000_0000_0000,
    ensures
        r.1 <= max_scale,
        r.0 as nat * pow10(r.1 as nat) == n as nat,
        r.1 == (if tz10(n as nat) <= max_scale {
            tz10(n as nat)
        } else {
            max_scale as nat
        }),
{
    proof {
        lemma_pow10_values();
    }
    let ghost n0 = n as nat;
    let mut n = n;
    let mut left_scale = max_scale;
    assert(n as nat * pow10(0) == n0);
    while n as u8 == 0 && left_scale >= 8
        invariant
            0 < n < 0x1_0000_0000_0000_0000_0000_0000,
            left_scale <= max_scale,
            n as nat * pow10((max_scale - left_scale) as nat) == n0,
            tz10(n0) == (max_scale - left_scale) + tz10(n as nat),
            pow10(8) == 100000000,
        ensures
            0 < n < 0x1_0000_0000_0000_0000_0000_0000,
            left_scale <= max_scale,
            n as nat * pow10((max_scale - left_scale) as nat) == n0,
            tz10(n0) == (max_scale - left_scale) + tz10(n as nat),
            left_scale < 8 || n as u8 != 0 || n % 100000000 != 0,
        decreases left_scale,
    {
        let (q, r) = div96_by32(n, 10000_0000);
        if r != 0 {
            break;
        }
        proof {
            lemma_reduce_step(n0, n as nat, q as nat, (max_scale - left_scale) as nat, 8);
        }
        n = q;
        left_scale -= 8;
    }
    proof {
        lemma_tz10(n as nat, 8);
        if left_scale >= 8 && n % 100000000 == 0 {
            lemma_low_bits(n);
            assert(n % 256 == 0) by (nonlinear_arith)
                requires
                    n % 100000000 == 0,
            ;
        }
        assert(tz10(n as nat) < 8 || left_scale < 8);
    }
    if n & 0xF == 0 && left_scale >= 4 {
        let (q, r) = div96_by32(n, 10000);
        proof {
            lemma_tz10(n as nat, 4);
        }
        if r == 0 {
            proof {
                lemma_reduce_step(n0, n as nat, q as nat, (max_scale - left_scale) as nat, 4);
            }
            n = q;
            left_scale -= 4;
        }
    } else {
        proof {
            lemma_tz10(n as nat, 4);
            if left_scale >= 4 && n % 10000 == 0 {
                lemma_low_bits(n);
                assert(n % 16 == 0) by (nonlinear_arith)
                    requires
                        n % 10000 == 0,
                ;
            }
        }
    }
    proof {
        lemma_tz10(n as nat, 4);
        assert(tz10(n as nat) < 4 || left_scale < 4);
    }
    if n & 0x3 == 0 && left_scale >= 2 {
        let (q, r) = div96_by32(n, 100);
        proof {
            lemma_tz10(n as nat, 2);
        }
        if r == 0 {
            proof {
                lemma_reduce_step(n0, n as nat, q as nat, (max_scale - left_scale) as nat, 2);
            }
            n = q;
            left_scale -= 2;
        }
    } else {
        proof {
            lemma_tz10(n as nat, 2);
            if left_scale >= 2 && n % 100 == 0 {
                lemma_low_bits(n);
                assert(n % 4 == 0) by (nonlinear_arith)
                    requires
                        n % 100 == 0,
                ;
            }
        }
    }
    proof {
        lemma_tz10(n as nat, 2);
        assert(tz10(n as nat) < 2 || left_scale < 2);
    }
    if n & 0x1 == 0 && left_scale >= 1 {
        let (q, r) = div96_by32(n, 10);
        proof {
            lemma_tz10(n as nat, 1);
        }
        if r == 0 {
            proof {
                lemma_reduce_step(n0, n as nat, q as nat, (max_scale - left_scale) as nat, 1);
            }
            n = q;
            left_scale -= 1;
        }
    } else {
        proof {
            lemma_tz10(n as nat, 1);
            if left_scale >= 1 && n % 10 == 0 {
                lemma_low_bits(n);
            }
        }
    }
    proof {
        lemma_tz10(n as nat, 1);
        assert(tz10(n as nat) == 0 || left_scale == 0);
    }
    (n, max_scale - left_scale)
}

/// Whether `10^k` divides `n`, tested on the low 32 bits of the quotient
/// `q = n / 10^k` the way [`reduce_scale_full`] does.
proof fn lemma_exact_by_low_bits(n: u128, q: u128, k: nat)
    requires
        1 <= k <= 8,
        q as nat == n as nat / pow10(k),
    ensures
        ((q as u32).wrapping_mul(pow10(k) as u32) == n as u32) == (n as nat % pow10(k) == 0),
{
    lemma_pow10_values();
    lemma_pow10_mono(k, 8);
    lemma_pow10_pos(k);
    let c = pow10(k);
    lemma_qr(n as nat, c);
    lemma_low_bits_exact(n as nat, q as nat, c, n as nat % c);
    assert((q as u32) as nat == q as nat % 0x1_0000_0000 && (n as u32) as nat == n as nat
        % 0x1_0000_0000) by (bit_vector);
}

/// [`reduce_scale`] for any number, with the division by powers of ten of
/// the `div_pow10` crate.
fn reduce_scale_full(n: u128, max_scale: u32) -> (r: (u128, u32))
    requires
        0 < n,
    ensures
        r.1 <= max_scale,
        r.0 as nat * pow10(r.1 as nat) == n as nat,
        r.1 == (if tz10(n as nat) <= max_scale {
            tz10(n as nat)
        } else {
            max_scale as nat
        }),
{
    proof {
        lemma_pow10_values();
    }
    let ghost n0 = n as nat;
    let mut n = n;
    let mut left_scale = max_scale;
    assert(n as nat * pow10(0) == n0);
    while n as u8 == 0 && left_scale >= 8
        invariant
            0 < n,
            left_scale <= max_scale,
            n as nat * pow10((max_scale - left_scale) as nat) == n0,
            tz10(n0) == (max_scale - left_scale) + tz10(n as nat),
            pow10(8) == 100000000,
        ensures
            0 < n,
            left_scale <= max_scale,
            n as nat * pow10((max_scale - left_scale) as nat) == n0,
            tz10(n0) == (max_scale - left_scale) + tz10(n as nat),
            left_scale < 8 || n as u8 != 0 || n % 100000000 != 0,
        decreases left_scale,
    {
        let q = div_single_128(n, 8).unwrap();
        proof {
            lemma_exact_by_low_bits(n, q, 8);
        }
        if (q as u32).wrapping_mul(10000_0000) != n as u32 {
            break;
        }
        proof {
            lemma_qr(n as nat, 100000000);
            lemma_reduce_step(n0, n as nat, q as nat, (max_scale - left_scale) as nat, 8);
        }
        n = q;
        left_scale -= 8;
    }
    proof {
        lemma_tz10(n as nat, 8);
        if left_scale >= 8 && n % 100000000 == 0 {
            lemma_low_bits(n);
            assert(n % 256 == 0) by (nonlinear_arith)
                requires
                    n % 100000000 == 0,
            ;
        }
        assert(tz10(n as nat) < 8 || left_scale < 8);
    }
    if n & 0xF == 0 && left_scale >= 4 {
        let q = div_single_128(n, 4).unwrap();
        proof {
            lemma_exact_by_low_bits(n, q, 4);
            lemma_tz10(n as nat, 4);
            lemma_qr(n as nat, 10000);
        }
        if (q as u32).wrapping_mul(10000) == n as u32 {
            proof {
                lemma_reduce_step(n0, n as nat, q as nat, (max_scale - left_scale) as nat, 4);
            }
            n = q;
            left_scale -= 4;
        }
    } else {
        proof {
            lemma_tz10(n as nat, 4);
            if left_scale >= 4 && n % 10000 == 0 {
                lemma_low_bits(n);
                assert(n % 16 == 0) by (nonlinear_arith)
                    requires
                        n % 10000 == 0,
                ;
            }
        }
    }
    proof {
        lemma_tz10(n as nat, 4);
        assert(tz10(n as nat) < 4 || left_scale < 4);
    }
    if n & 0x3 == 0 && left_scale >= 2 {
        let q = div_single_128(n, 2).unwrap();
        proof {
            lemma_exact_by_low_bits(n, q, 2);
            lemma_tz10(n as nat, 2);
            lemma_qr(n as nat, 100);
        }
        if (q as u32).wrapping_mul(100) == n as u32 {
            proof {
                lemma_reduce_step(n0, n as nat, q as nat, (max_scale - left_scale) as nat, 2);
            }
            n = q;
            left_scale -= 2;
        }
    } else {
        proof {
            lemma_tz10(n as nat, 2);
            if left_scale >= 2 && n % 100 == 0 {
                lemma_low_bits(n);
                assert(n % 4 == 0) by (nonlinear_arith)
                    requires
                        n % 100 == 0,
                ;
            }
        }
    }
    proof {
        lemma_tz10(n as nat, 2);
        assert(tz10(n as nat) < 2 || left_scale < 2);
    }
    if n & 0x1 == 0 && left_scale >= 1 {
        let q = div_single_128(n, 1).unwrap();
        proof {
            lemma_exact_by_low_bits(n, q, 1);
            lemma_tz10(n as nat, 1);
            lemma_qr(n as nat, 10);
        }
        if (q as u32).wrapping_mul(10) == n as u32 {
            proof {
                lemma_reduce_step(n0, n as nat, q as nat, (max_scale - left_scale) as nat, 1);
            }
            n = q;
            left_scale -= 1;
        }
    } else {
        proof {
            lemma_tz10(n as nat, 1);
            if left_scale >= 1 && n % 10 == 0 {
                lemma_low_bits(n);
            }
        }
    }
    proof {
        lemma_tz10(n as nat, 1);
        assert(tz10(n as nat) == 0 || left_scale == 0);
    }
    (n, max_scale - left_scale)
}

fn increase_scale(q: u128, r: u128, d: u128, scale: u32, signed: bool) -> (res: Option<(u128, u128)>)
    requires
        0 < d,
        r < d,
        scale <= 38,
        r as nat * pow10(scale as nat) <= u128::MAX,
    ensures
        res is None ==> (q as nat * d as nat + r as nat) * pow10(scale as nat) / (d as nat)
            > u128::spec_max_man(signed),
        res matches Some(qr) ==> {
            &&& qr.0 as nat * d as nat + qr.1 as nat == (q as nat * d as nat + r as nat) * pow10(
                scale as nat,
            )
            &&& qr.1 < d
            &&& qr.0 <= u128::spec_max_man(signed)
        },
{
    let q0 = q;
    let rr = match r.checked_mul_exp(scale) {
        Some(x) => x,
        None => {
            return None;
        },
    };
    let (q2, r2) = div_rem(rr, d);
    proof {
        // the whole quotient, whether it fits or not
        let p = pow10(scale as nat);
        let big = q0 as nat * p + q2 as nat;
        assert(big * (d as nat) + (r2 as nat) == ((q0 as nat) * (d as nat) + (r as nat)) * p)
            by (nonlinear_arith)
            requires
                big == q0 as nat * p + q2 as nat,
                q2 as nat * d as nat + r2 as nat == rr as nat,
                rr as nat == r as nat * p,
        ;
        lemma_div_round_of_qr(((q0 as nat) * (d as nat) + (r as nat)) * p, d as nat, big, r2 as nat);
        lemma_pow2_values();
    }
    let qq = match q.checked_mul_exp(scale) {
        Some(x) => x,
        None => {
            return None;
        },
    };
    let q = match qq.checked_add(q2) {
        Some(x) => x,
        None => {
            return None;
        },
    };
    proof {
        let p = pow10(scale as nat);
        assert((q as nat) * (d as nat) + (r2 as nat) == ((q0 as nat) * (d as nat) + (r as nat)) * p)
            by (nonlinear_arith)
            requires
                q as nat == qq as nat + q2 as nat,
                q2 as nat * d as nat + r2 as nat == rr as nat,
                qq as nat == q0 as nat * p,
                rr as nat == r as nat * p,
        ;
    }
    if q <= max_mantissa(signed) {
        Some((q, r2))
    } else {
        None
    }
}

/// Quotient `q` and remainder `r` of `n * 10^act / d` for a 32-bit divisor,
/// with `act` as many decimal digits as `q` and `r` can take (at most
/// `max_scale`), or 0 when `d` divides `n`.
fn div_with_scales_by32(n: u128, d: u32, max_scale: u32, signed: bool) -> (res: (u128, u128, u32))
    requires
        n <= u128::spec_max_man(signed),
        0 < d,
        max_scale <= 31,
    ensures
        res.0 as nat * d as nat + res.1 as nat == n as nat * pow10(res.2 as nat),
        res.1 < d,
        res.2 <= max_scale,
        res.0 <= u128::spec_max_man(signed),
        res.2 < max_scale ==> res.1 < 20 * pow10(res.2 as nat),
        res.0 == u128::spec_max_man(signed) ==> res.2 == 0,
        res.2 == short_div_scale(n as nat, d as nat, max_scale as nat, u128::spec_man_bits(signed)),
        res.0 == (n as nat * pow10(res.2 as nat)) / (d as nat),
        res.1 == (n as nat * pow10(res.2 as nat)) % (d as nat),
{
    proof {
        lemma_pow10_values();
        lemma_pow2_values();
    }
    let (q, r) = div128_by32(n, d);
    proof {
        assert(n as nat * pow10(0) == n as nat);
    }
    if r == 0 {
        return (q, 0, 0);
    }
    let ghost mb = u128::spec_man_bits(signed);
    proof {
        assert(q <= n) by (nonlinear_arith)
            requires
                q as nat * d as nat + r as nat == n as nat,
                d >= 1,
        ;
        lemma_bit_len(q as nat);
        lemma_bit_len(r as nat);
        lemma_bit_len_le(q as nat, mb);
        lemma_bit_len_le(r as nat, 32);
    }

    // find the biggest @act_scale that
    // - r * 10.pow(act_scale) fits in u128 (128-bit)
    // - q * 10.pow(act_scale) fits in mantissa
    // - act_scale <= max_scale
    let lz_r = UnderlyingInt::leading_zeros(r);
    let lz_q = UnderlyingInt::leading_zeros(q);
    let free_q = lz_q - meta_bits(signed);
    let avail_bits = if lz_r < free_q {
        lz_r
    } else {
        free_q
    };
    let digits = bits_to_digits(avail_bits);
    let act_scale = if digits < max_scale {
        digits
    } else {
        max_scale
    };
    let ghost e = pow10(act_scale as nat);
    proof {
        let bq = bit_len(q as nat);
        lemma_btd_bounds(avail_bits as nat);
        lemma_pow10_mono(act_scale as nat, btd(avail_bits as nat));
        lemma_pow2_mono(avail_bits as nat, free_q as nat);
        lemma_pow2_mono(avail_bits as nat, lz_r as nat);
        lemma_pow2_add(bq, free_q as nat);
        // the divisor is small when the scale is limited by the free bits of `q`
        if act_scale < max_scale {
            if avail_bits < 96 {
                assert(q > 0);
                lemma_pow2_add((bq - 1) as nat, avail_bits as nat + 1);
                assert(d < 2 * pow2n(avail_bits as nat)) by (nonlinear_arith)
                    requires
                        pow2n((bq - 1) as nat) <= q,
                        q as nat * d as nat <= n as nat,
                        n < pow2n(mb),
                        pow2n(mb) == pow2n((bq - 1) as nat) * pow2n(avail_bits as nat + 1),
                        pow2n(avail_bits as nat + 1) == 2 * pow2n(avail_bits as nat),
                ;
            } else {
                lemma_pow10_mono(28, act_scale as nat);
            }
            assert(d < 20 * e);
        }
    }
    proof {
        let bq = bit_len(q as nat);
        assert(room(n as nat, d as nat, 0, mb, 128) == btd(avail_bits as nat));
    }
    if act_scale == 0 {
        return (q, r, 0);
    }

    // We do the division once only, but no loop. So in worst cases (@d is big
    // and @n < @d), the @q may only have 96 significant bits. Although it is
    // not fill the 121 bits, it should be enough.
    proof {
        lemma_pow2_add((128 - lz_r) as nat, lz_r as nat);
        lemma_pow2_pos(lz_r as nat);
        lemma_mul_lt_bounds(r as nat, e, pow2n((128 - lz_r) as nat), pow2n(lz_r as nat));
    }
    let (q2, r2) = div128_by32(r.mul_exp(act_scale), d);
    proof {
        let bq = bit_len(q as nat);
        lemma_pow10_pos(act_scale as nat);
        lemma_quot_below(q2 as nat, d as nat, r2 as nat, r as nat, e);
        assert((q as nat + 1) * e <= pow2n(mb)) by (nonlinear_arith)
            requires
                q as nat + 1 <= pow2n(bq),
                e <= pow2n(free_q as nat),
                pow2n(bq + free_q as nat) == pow2n(bq) * pow2n(free_q as nat),
                bq + free_q == mb,
        ;
        assert((q as nat) * e + (q2 as nat) <= u128::spec_max_man(signed)) by (nonlinear_arith)
            requires
                (q as nat + 1) * e <= u128::spec_max_man(signed) + 1,
                q2 < e,
        ;
        assert(((q as nat) * e + (q2 as nat)) * (d as nat) + (r2 as nat) == (n as nat) * e)
            by (nonlinear_arith)
            requires
                q2 as nat * d as nat + r2 as nat == r as nat * e,
                q as nat * d as nat + r as nat == n as nat,
        ;
        if (q as nat) * e + (q2 as nat) == u128::spec_max_man(signed) {
            assert((q as nat + 1) * e == pow2n(mb)) by (nonlinear_arith)
                requires
                    (q as nat + 1) * e <= pow2n(mb),
                    (q as nat) * e + (q2 as nat) + 1 == pow2n(mb),
                    q2 < e,
            ;
            lemma_pow10_factor_of_pow2(q as nat + 1, act_scale as nat, mb);
        }
    }
    proof {
        lemma_div_round_of_qr(n as nat * e, d as nat, (q as nat) * e + (q2 as nat), r2 as nat);
    }
    (q.mul_exp(act_scale) + q2, r2, act_scale)
}

/// Long division of `n * 10^act` by `d`, with `act` as many decimal digits
/// as `q` and `r` can take (at most `max_scale`), or fewer when `d` divides
/// it earlier.
fn div_with_scales_full(n: u128, d: u128, max_scale: u32, signed: bool) -> (res: (u128, u128, u32))
    requires
        n <= u128::spec_max_man(signed),
        0 < d,
        max_scale <= 31,
    ensures
        res.0 as nat * d as nat + res.1 as nat == n as nat * pow10(res.2 as nat),
        res.1 < d,
        res.2 <= max_scale,
        res.0 <= u128::spec_max_man(signed),
        res.2 < max_scale && d <= u128::spec_max_man(signed) ==> res.1 < 20 * pow10(res.2 as nat),
        res.0 == u128::spec_max_man(signed) ==> res.2 == 0,
        res.2 == long_div_scale(n as nat, d as nat, 0, max_scale as nat, u128::spec_man_bits(signed)),
        res.0 == (n as nat * pow10(res.2 as nat)) / (d as nat),
        res.1 == (n as nat * pow10(res.2 as nat)) % (d as nat),
{
    proof {
        lemma_pow10_values();
        lemma_pow2_values();
    }
    let (mut q, mut r) = div_rem(n, d);
    proof {
        assert(q <= n) by (nonlinear_arith)
            requires
                q as nat * d as nat + r as nat == n as nat,
                d >= 1,
        ;
        assert(n as nat * pow10(0) == n as nat);
        lemma_div_round_of_qr(n as nat, d as nat, q as nat, r as nat);
    }
    let ghost mb = u128::spec_man_bits(signed);

    // long division
    let mut act_scale: u32 = 0;
    while r != 0
        invariant
            q as nat * d as nat + r as nat == n as nat * pow10(act_scale as nat),
            r < d,
            act_scale <= max_scale,
            q <= u128::spec_max_man(signed),
            act_scale > 0 ==> q < u128::spec_max_man(signed),
            pow10(act_scale as nat) > 0,
            n <= u128::spec_max_man(signed),
            0 < d,
            max_scale <= 31,
            mb == u128::spec_man_bits(signed),
            u128::spec_max_man(signed) + 1 == pow2n(mb),
            mb == 122 || mb == 123,
            r as nat == (n as nat * pow10(act_scale as nat)) % (d as nat),
            long_div_scale(n as nat, d as nat, 0, max_scale as nat, mb) == long_div_scale(
                n as nat,
                d as nat,
                act_scale as nat,
                max_scale as nat,
                mb,
            ),
        ensures
            long_div_scale(n as nat, d as nat, 0, max_scale as nat, mb) == act_scale,
            q as nat * d as nat + r as nat == n as nat * pow10(act_scale as nat),
            r < d,
            act_scale <= max_scale,
            q <= u128::spec_max_man(signed),
            act_scale > 0 ==> q < u128::spec_max_man(signed),
            act_scale < max_scale && d <= u128::spec_max_man(signed) ==> r < 20 * pow10(
                act_scale as nat,
            ),
        decreases max_scale - act_scale,
    {
        proof {
            lemma_bit_len(q as nat);
            lemma_bit_len(r as nat);
            lemma_bit_len_le(q as nat, mb);
            lemma_div_round_of_qr(n as nat * pow10(act_scale as nat), d as nat, q as nat, r as nat);
        }
        let lz_r = UnderlyingInt::leading_zeros(r);
        let lz_q = UnderlyingInt::leading_zeros(q);
        let free_q = lz_q - meta_bits(signed);
        let avail_bits = if lz_r < free_q {
            lz_r
        } else {
            free_q
        };
        let digits = bits_to_digits(avail_bits);
        let scale = if digits < max_scale - act_scale {
            digits
        } else {
            max_scale - act_scale
        };
        proof {
            assert(room(n as nat, d as nat, act_scale as nat, mb, 128) == btd(avail_bits as nat));
        }
        if scale == 0 {
            proof {
                // the free bits of `q` stopped the division, so `d` is small
                if act_scale < max_scale && d <= u128::spec_max_man(signed) {
                    lemma_pow2_values();
                    lemma_bit_len_le(r as nat, mb);
                    let bq = bit_len(q as nat);
                    assert(avail_bits <= 3);
                    assert(q > 0);
                    lemma_pow2_add((bq - 1) as nat, 4);
                    lemma_pow2_add((bq - 1) as nat, free_q as nat + 1);
                    lemma_pow2_mono(free_q as nat + 1, 4);
                    assert(d * pow2n((bq - 1) as nat) < (16 * pow10(act_scale as nat)) * pow2n(
                        (bq - 1) as nat,
                    )) by (nonlinear_arith)
                        requires
                            pow2n((bq - 1) as nat) <= q,
                            q as nat * d as nat + r as nat == n as nat * pow10(act_scale as nat),
                            n < pow2n(mb),
                            pow2n(mb) == pow2n((bq - 1) as nat) * pow2n(free_q as nat + 1),
                            pow2n(free_q as nat + 1) <= 16,
                            pow10(act_scale as nat) > 0,
                    ;
                    lemma_mul_strict_inequality_converse(
                        d as int,
                        (16 * pow10(act_scale as nat)) as int,
                        pow2n((bq - 1) as nat) as int,
                    );
                }
            }
            break;
        }
        let ghost e = pow10(scale as nat);
        proof {
            lemma_pow2_values();
            let bq = bit_len(q as nat);
            lemma_btd_bounds(avail_bits as nat);
            lemma_pow10_mono(scale as nat, btd(avail_bits as nat));
            lemma_pow2_mono(avail_bits as nat, free_q as nat);
            lemma_pow2_mono(avail_bits as nat, lz_r as nat);
            lemma_pow2_add(bq, free_q as nat);
            lemma_pow2_add((128 - lz_r) as nat, lz_r as nat);
            lemma_pow2_pos(lz_r as nat);
            lemma_mul_lt_bounds(r as nat, e, pow2n((128 - lz_r) as nat), pow2n(lz_r as nat));
            assert((q as nat + 1) * e <= pow2n(mb)) by (nonlinear_arith)
                requires
                    q as nat + 1 <= pow2n(bq),
                    e <= pow2n(free_q as nat),
                    pow2n(bq + free_q as nat) == pow2n(bq) * pow2n(free_q as nat),
                    bq + free_q == mb,
            ;
            lemma_pow10_pos(scale as nat);
        }
        let ghost q_old = q;
        let ghost r_old = r;

        r = r.mul_exp(scale);
        let q2 = r / d;
        proof {
            lemma_qr(r as nat, d as nat);
            lemma_quot_below(q2 as nat, d as nat, (r % d) as nat, r_old as nat, e);
            assert(q2 as nat * d as nat <= r as nat);
        }
        r -= q2 * d;

        proof {
            if (q as nat) * e + (q2 as nat) == u128::spec_max_man(signed) {
                assert((q as nat + 1) * e == pow2n(mb)) by (nonlinear_arith)
                    requires
                        (q as nat + 1) * e <= pow2n(mb),
                        (q as nat) * e + (q2 as nat) + 1 == pow2n(mb),
                        q2 < e,
                ;
                lemma_pow10_factor_of_pow2(q as nat + 1, scale as nat, mb);
            }
            assert((q as nat) * e + (q2 as nat) < u128::spec_max_man(signed)) by (nonlinear_arith)
                requires
                    (q as nat + 1) * e <= u128::spec_max_man(signed) + 1,
                    q2 < e,
                    (q as nat) * e + (q2 as nat) != u128::spec_max_man(signed),
            ;
        }
        q = q.mul_exp(scale) + q2;
        proof {
            lemma_pow10_add(act_scale as nat, scale as nat);
            assert(q as nat * d as nat + r as nat == n as nat * pow10((act_scale + scale) as nat))
                by (nonlinear_arith)
                requires
                    q as nat == q_old as nat * e + q2 as nat,
                    r as nat == r_old as nat * e - q2 as nat * d as nat,
                    q_old as nat * d as nat + r_old as nat == n as nat * pow10(act_scale as nat),
                    pow10((act_scale + scale) as nat) == pow10(act_scale as nat) * e,
            ;
            lemma_pow10_pos((act_scale + scale) as nat);
        }
        act_scale += scale;
        proof {
            lemma_div_round_of_qr(n as nat * pow10(act_scale as nat), d as nat, q as nat, r as nat);
        }
    }
    proof {
        lemma_div_round_of_qr(n as nat * pow10(act_scale as nat), d as nat, q as nat, r as nat);
    }
    (q, r, act_scale)
}

// calculate: a * b = (mhigh,mlow)
#[inline]
fn mul2(a: u128, b: u128) -> (r: (u128, u128))
    ensures
        r.0 as nat * 0x1_0000_0000_0000_0000_0000_0000_0000_0000nat + r.1 as nat == (a as nat) * (
        b as nat),
{
    let (ahigh, alow) = (a >> 64u32, a & 0xffff_ffff_ffff_ffff);
    let (bhigh, blow) = (b >> 64u32, b & 0xffff_ffff_ffff_ffff);
    let ghost t: nat = 0x1_0000_0000_0000_0000;
    proof {
        assert(a == ahigh * 0x1_0000_0000_0000_0000 + alow && ahigh < 0x1_0000_0000_0000_0000
            && alow < 0x1_0000_0000_0000_0000) by (bit_vector)
            requires
                ahigh == a >> 64u32,
                alow == a & 0xffff_ffff_ffff_ffffu128,
        ;
        assert(b == bhigh * 0x1_0000_0000_0000_0000 + blow && bhigh < 0x1_0000_0000_0000_0000
            && blow < 0x1_0000_0000_0000_0000) by (bit_vector)
            requires
                bhigh == b >> 64u32,
                blow == b & 0xffff_ffff_ffff_ffffu128,
        ;
        lemma_mul_lt_pow64(alow as nat, bhigh as nat);
        lemma_mul_lt_pow64(ahigh as nat, blow as nat);
        lemma_mul_lt_pow64(alow as nat, blow as nat);
        lemma_mul_lt_pow64(ahigh as nat, bhigh as nat);
    }
    let (mid, carry1) = add_carry(alow * bhigh, ahigh * blow);
    let shifted = mid << 64u32;
    let mid_high = mid >> 64u32;
    proof {
        assert(shifted == (mid % 0x1_0000_0000_0000_0000) * 0x1_0000_0000_0000_0000 && mid_high
            == mid / 0x1_0000_0000_0000_0000) by (bit_vector)
            requires
                shifted == mid << 64u32,
                mid_high == mid >> 64u32,
        ;
    }
    let (mlow, carry2) = add_carry(alow * blow, shifted);
    proof {
        lemma_mul2_sum(
            a as nat,
            b as nat,
            ahigh as nat,
            alow as nat,
            bhigh as nat,
            blow as nat,
            mid as nat,
            if carry1 {
                1nat
            } else {
                0nat
            },
            mlow as nat,
            if carry2 {
                1nat
            } else {
                0nat
            },
        );
    }
    let c1 = carry1 as u128;
    let c2 = carry2 as u128;
    let c1_shifted = c1 << 64u32;
    proof {
        assert(c1_shifted == c1 * 0x1_0000_0000_0000_0000) by (bit_vector)
            requires
                c1 <= 1,
                c1_shifted == c1 << 64u32,
        ;
    }
    let mhigh = ahigh * bhigh + mid_high + c1_shifted + c2;
    (mhigh, mlow)
}

/// `(a1 t + a0)(b1 t + b0)` multiplied out.
proof fn lemma_expand_product(a: int, b: int, a1: int, a0: int, b1: int, b0: int, t: int)
    requires
        a == a1 * t + a0,
        b == b1 * t + b0,
    ensures
        a * b == a1 * b1 * (t * t) + (a0 * b1 + a1 * b0) * t + a0 * b0,
{
    lemma_mul_is_distributive_add_other_way(b, a1 * t, a0);
    lemma_mul_is_distributive_add(a1 * t, b1 * t, b0);
    lemma_mul_is_distributive_add(a0, b1 * t, b0);
    assert((a1 * t) * (b1 * t) == a1 * b1 * (t * t)) by (nonlinear_arith);
    assert((a1 * t) * b0 == (a1 * b0) * t) by (nonlinear_arith);
    assert(a0 * (b1 * t) == (a0 * b1) * t) by (nonlinear_arith);
    lemma_mul_is_distributive_add_other_way(t, a0 * b1, a1 * b0);
}

/// Two numbers below `2^64` have a product below `2^128`.
proof fn lemma_mul_lt_pow64(x: nat, y: nat)
    requires
        x < 0x1_0000_0000_0000_0000,
        y < 0x1_0000_0000_0000_0000,
    ensures
        x * y < 0x1_0000_0000_0000_0000_0000_0000_0000_0000nat,
        x * y <= (0x1_0000_0000_0000_0000 - 1) * (0x1_0000_0000_0000_0000 - 1),
{
    assert(x * y <= (0x1_0000_0000_0000_0000 - 1) * (0x1_0000_0000_0000_0000 - 1))
        by (nonlinear_arith)
        requires
            x < 0x1_0000_0000_0000_0000,
            y < 0x1_0000_0000_0000_0000,
    ;
}

/// The schoolbook product of two 128-bit numbers from their 64-bit halves.
proof fn lemma_mul2_sum(
    a: nat,
    b: nat,
    a1: nat,
    a0: nat,
    b1: nat,
    b0: nat,
    mid: nat,
    c1: nat,
    mlow: nat,
    c2: nat,
)
    requires
        a == a1 * 0x1_0000_0000_0000_0000 + a0,
        b == b1 * 0x1_0000_0000_0000_0000 + b0,
        a1 < 0x1_0000_0000_0000_0000,
        a0 < 0x1_0000_0000_0000_0000,
        b1 < 0x1_0000_0000_0000_0000,
        b0 < 0x1_0000_0000_0000_0000,
        mid + c1 * 0x1_0000_0000_0000_0000_0000_0000_0000_0000nat == a0 * b1 + a1 * b0,
        mlow + c2 * 0x1_0000_0000_0000_0000_0000_0000_0000_0000nat == a0 * b0 + (mid
            % 0x1_0000_0000_0000_0000) * 0x1_0000_0000_0000_0000,
        c1 <= 1,
        c2 <= 1,
        mlow < 0x1_0000_0000_0000_0000_0000_0000_0000_0000nat,
    ensures
        (a1 * b1 + mid / 0x1_0000_0000_0000_0000 + c1 * 0x1_0000_0000_0000_0000 + c2)
            * 0x1_0000_0000_0000_0000_0000_0000_0000_0000nat + mlow == a * b,
        a1 * b1 + mid / 0x1_0000_0000_0000_0000 + c1 * 0x1_0000_0000_0000_0000 + c2
            < 0x1_0000_0000_0000_0000_0000_0000_0000_0000nat,
{
    let t = 0x1_0000_0000_0000_0000nat;
    let tt = 0x1_0000_0000_0000_0000_0000_0000_0000_0000nat;
    assert(tt == t * t);
    lemma_fundamental_div_mod(mid as int, t as int);
    let mh = mid / t;
    let ml = mid % t;
    lemma_expand_product(a as int, b as int, a1 as int, a0 as int, b1 as int, b0 as int, t as int);
    assert((a0 * b1 + a1 * b0) * t == mh * tt + ml * t + c1 * tt * t) by (nonlinear_arith)
        requires
            mid + c1 * tt == a0 * b1 + a1 * b0,
            mid == t * mh + ml,
            tt == t * t,
    ;
    let h = a1 * b1 + mh + c1 * t + c2;
    assert(h * tt + mlow == a * b) by (nonlinear_arith)
        requires
            a * b == a1 * b1 * tt + (a0 * b1 + a1 * b0) * t + a0 * b0,
            (a0 * b1 + a1 * b0) * t == mh * tt + ml * t + c1 * tt * t,
            mlow + c2 * tt == a0 * b0 + ml * t,
            h == a1 * b1 + mh + c1 * t + c2,
    ;
    assert(a * b < tt * tt) by (nonlinear_arith)
        requires
            a == a1 * t + a0,
            b == b1 * t + b0,
            a1 < t,
            a0 < t,
            b1 < t,
            b0 < t,
            tt == t * t,
    ;
    assert(h < tt) by (nonlinear_arith)
        requires
            h * tt + mlow == a * b,
            a * b < tt * tt,
            tt > 0,
    ;
}

// reduce the @man to under MAX_MANTISSA
fn big128_with_sum_scale(man: u128, sum_scale: u32, signed: bool) -> (r: Option<(u128, u32)>)
    requires
        sum_scale <= 62,
    ensures
        r is Some <==> div_round(man as nat, pow10(sum_scale as nat)) <= u128::spec_max_man(signed),
        r matches Some(qs) ==> {
            &&& qs.1 == sum_scale - big_mul_clear_digits(
                man as nat,
                u128::spec_max_man(signed),
                sum_scale as nat,
                31,
            )
            &&& qs.0 == div_round(man as nat, pow10((sum_scale - qs.1) as nat))
            &&& qs.0 <= u128::spec_max_man(signed)
        },
{
    let max = max_mantissa(signed);
    let ghost m = max as nat;
    let ghost ss = sum_scale as nat;
    proof {
        lemma_pow10_values();
        lemma_pow2_values();
    }
    // check the mantissa @man
    let mut clear_digits: u32 = match max.checked_mul(100) {
        Some(m100) if man > m100 => 3,
        _ => {
            if man > max * 10 {
                2
            } else if man > max {
                1
            } else {
                0
            }
        },
    };
    let ghost c0 = clear_digits as nat;
    proof {
        assert(man as nat <= m * pow10(c0));
        lemma_div_round_le(man as nat, pow10(c0), m);
    }
    // check the scale @sum_scale
    if sum_scale > 31 && sum_scale - 31 > clear_digits {
        clear_digits = sum_scale - 31;
    }
    proof {
        assert(clear_digits == big_clear_digits(man as nat, m, ss, 31));
        lemma_big_clear(man as nat, m, ss);
    }
    if clear_digits > sum_scale {
        if clear_digits == sum_scale + 1 {
            // the digits were counted without rounding, which may still
            // bring the product in with one digit fewer
            clear_digits = sum_scale;
        } else {
            return None;  // overflow
        }
    }
    let ghost c = clear_digits as nat;
    proof {
        assert(c == big_mul_clear_digits(man as nat, m, ss, 31));
        lemma_pow10_pos(c);
        lemma_pow10_mono(c, ss);
        lemma_div_round_mono_divisor(man as nat, pow10(c), pow10(ss));
        if c0 <= c {
            lemma_pow10_pos(c0);
            lemma_pow10_mono(c0, c);
            lemma_div_round_mono_divisor(man as nat, pow10(c0), pow10(c));
        }
        // fitting at scale `ss - c` and at scale 0 go together
        assert((div_round(man as nat, pow10(ss)) <= m) == (div_round(man as nat, pow10(c)) <= m));
    }
    // rescale if need
    if clear_digits == 0 {
        proof {
            lemma_div_round_one(man as nat);
        }
        if man > max {
            return None;
        }
        Some((man, sum_scale))
    } else {
        proof {
            lemma_pow10_mono(clear_digits as nat, 38);
        }
        let mut q = div_single_128(man, clear_digits).unwrap();
        let exp = get_exp(clear_digits);
        proof {
            lemma_fundamental_div_mod(man as int, exp as int);
            lemma_pow10_even(clear_digits as nat);
            let n = man as int;
            let e = exp as int;
            assert(q * e == n - n % e) by (nonlinear_arith)
                requires
                    n == e * (n / e) + n % e,
                    q == n / e,
            ;
        }
        let r = man - q * exp;
        if r >= exp / 2 {
            q += 1;
        }
        if q > max {
            return None;
        }
        Some((q, sum_scale - clear_digits))
    }
}

/// The digits cleared from a product `p` below `2^128`: more than one above
/// `ss` only when the product does not fit even at scale 0; and, unless none
/// or just enough to reach the largest scale, few: `10^c * (m + 1) <= 20 * p`.
proof fn lemma_big_clear(p: nat, m: nat, ss: nat)
    requires
        m >= 1,
    ensures
        big_clear_digits(p, m, ss, 31) > ss + 1 ==> div_round(p, pow10(ss)) > m,
        ({
            let c = big_mul_clear_digits(p, m, ss, 31);
            ||| c == 0
            ||| ss > 31 && c == ss - 31
            ||| pow10(c) * (m + 1) <= 20 * p
        }),
{
    lemma_pow10_values();
    lemma_pow10_pos(ss);
    lemma_div_round_le_iff(p, pow10(ss), m);
    let c = big_mul_clear_digits(p, m, ss, 31);
    if big_clear_digits(p, m, ss, 31) > ss + 1 {
        // only the mantissa count can be that big, so `ss` is 0 or 1
        if ss == 0 {
            assert(p > m * 10);
            assert(pow10(ss) == 1);
            assert((2 * m + 1) * pow10(ss) == 2 * m + 1) by (nonlinear_arith)
                requires
                    pow10(ss) == 1,
            ;
        } else {
            assert(ss == 1);
            assert(p > m * 100);
            assert(pow10(ss) == 10);
            assert((2 * m + 1) * pow10(ss) == 20 * m + 10) by (nonlinear_arith)
                requires
                    pow10(ss) == 10,
            ;
        }
    }
    if p > m * 100 {
        assert(1000 * (m + 1) <= 20 * p);
        if c == 2 {
            assert(100 * (m + 1) <= 20 * p);
        }
    } else if p > m * 10 {
        assert(100 * (m + 1) <= 20 * p);
        if c == 1 {
            assert(10 * (m + 1) <= 20 * p);
        }
    } else if p > m {
        assert(10 * (m + 1) <= 20 * p);
    }
}

/// The multiplication when the product may not fit in the mantissa.
fn mul_with_sum_scale_full(a: u128, b: u128, sum_scale: u32, signed: bool) -> (r: Option<(u128, u32)>)
    requires
        a <= u128::spec_max_man(signed),
        sum_scale <= 62,
        b <= u128::spec_max_man(signed) || sum_scale <= 31,
        b <= 0x8000_0000_0000_0000_0000_0000_0000_0000,
    ensures
        r is Some <==> div_round((a as nat) * (b as nat), pow10(sum_scale as nat))
            <= u128::spec_max_man(signed),
        r matches Some(qs) ==> {
            &&& qs.1 == sum_scale - (if (a as nat) * (b as nat)
                < 0x1_0000_0000_0000_0000_0000_0000_0000_0000nat {
                big_mul_clear_digits(
                    (a as nat) * (b as nat),
                    u128::spec_max_man(signed),
                    sum_scale as nat,
                    31,
                )
            } else {
                mul_clear_digits((a as nat) * (b as nat), u128::spec_man_bits(signed), sum_scale as nat, 31)
            })
            &&& qs.1 <= sum_scale
            &&& qs.0 == div_round((a as nat) * (b as nat), pow10((sum_scale - qs.1) as nat))
            &&& qs.0 <= u128::spec_max_man(signed)
        },
{
    let ghost mb = u128::spec_man_bits(signed);
    let ghost ss = sum_scale as nat;
    let ghost pn = (a as nat) * (b as nat);
    let (high, low) = mul2(a, b);

    if high == 0 {
        // the production @low is in range [MAX_MATISSA / 2, u128::MAX]
        return big128_with_sum_scale(low, sum_scale, signed);
    }
    proof {
        lemma_u128_mul_facts(a, b, signed);
        lemma_bit_len_halves_128(high as nat, low as nat);
    }
    // check the mantissa @high..@low
    //
    // It's hard to calculate how many digits to shrink exactly, so here we
    // get the ceiling value @clear_digits, which may be 1 more than need.
    let bits = (128 + meta_bits(signed)).saturating_sub(UnderlyingInt::leading_zeros(high));
    proof {
        assert(bits as nat == sat_sub(bit_len(pn), mb));
    }
    let mut clear_digits = bits_to_digits(bits) + 1;  // +1 for ceiling
    proof {
        assert(clear_digits == ceil_digits(pn, mb));
    }
    // check the scale @sum_scale
    if sum_scale > 31 && sum_scale - 31 > clear_digits {
        clear_digits = sum_scale - 31;
    }
    proof {
        assert(clear_digits == clear_digits_min(pn, mb, ss, 31));
        lemma_mul_clear(pn, mb, ss, 31, 38);
    }
    if clear_digits > sum_scale {
        // edge case, overflow, return None
        if clear_digits == sum_scale + 1 {
            // edge case in edge case. The overflow may be false because
            // the @clear_digits maybe 1 more than need. So here we give
            // it one more chance by decreasing it by 1 and check it later.
            clear_digits -= 1;
        } else {
            return None;
        }
    }
    proof {
        assert(clear_digits == mul_clear_digits(pn, mb, ss, 31));
        lemma_pow10_mono(clear_digits as nat, 38);
    }
    // prepare for rounding
    let (low, carry) = add_carry(low, get_exp(clear_digits) / 2);
    proof {
        let d = pow10(clear_digits as nat);
        let k = (pn + d / 2) / d;
        lemma_pow10_pos(clear_digits as nat);
        lemma_div_lt_bound(pn + d / 2, d, 0x1_0000_0000_0000_0000_0000_0000_0000_0000nat);
        lemma_carry_bound(high as nat, low as nat, if carry { 1nat } else { 0nat }, pn + d / 2, d);
    }
    let high = high + carry as u128;

    let (q, _r) = div_double_128(high, low, clear_digits).unwrap();
    proof {
        assert(q as nat == div_round(pn, pow10(clear_digits as nat)));
    }
    // handle the edge case above
    if q > max_mantissa(signed) {
        return None;
    }
    Some((q, sum_scale - clear_digits))
}

/// After adding with a carry, the high half of a dividend below `d * 2^128`
/// is below `d`.
proof fn lemma_carry_bound(high: nat, low: nat, c: nat, n: nat, d: nat)
    requires
        (high + c) * 0x1_0000_0000_0000_0000_0000_0000_0000_0000nat + low == n,
        low < 0x1_0000_0000_0000_0000_0000_0000_0000_0000nat,
        n < 0x1_0000_0000_0000_0000_0000_0000_0000_0000nat * d,
        d > 0,
    ensures
        high + c < d,
{
    let t = 0x1_0000_0000_0000_0000_0000_0000_0000_0000nat;
    assert((high + c) * t < t * d) by (nonlinear_arith)
        requires
            (high + c) * t + low == n,
            n < t * d,
    ;
    assert(high + c < d) by (nonlinear_arith)
        requires
            (high + c) * t < t * d,
            t > 0,
    ;
}

/// Bit length of a 256-bit number made of two 128-bit halves.
proof fn lemma_bit_len_halves_128(high: nat, low: nat)
    requires
        high > 0,
        low < 0x1_0000_0000_0000_0000_0000_0000_0000_0000nat,
    ensures
        bit_len(high * 0x1_0000_0000_0000_0000_0000_0000_0000_0000nat + low) == 128 + bit_len(high),
{
    lemma_pow2_values();
    let v = high * pow2n(128) + low;
    let k = bit_len(high);
    lemma_bit_len(high);
    lemma_pow2_add((k - 1) as nat, 128);
    lemma_pow2_add(k, 128);
    assert(v < pow2n(k + 128)) by (nonlinear_arith)
        requires
            v == high * pow2n(128) + low,
            high < pow2n(k),
            low < pow2n(128),
            pow2n(k + 128) == pow2n(k) * pow2n(128),
    ;
    assert(v >= pow2n((k - 1 + 128) as nat)) by (nonlinear_arith)
        requires
            v == high * pow2n(128) + low,
            high >= pow2n((k - 1) as nat),
            pow2n((k - 1 + 128) as nat) == pow2n((k - 1) as nat) * pow2n(128),
    ;
    lemma_bit_len_le(v, k + 128);
    lemma_bit_len_gt(v, (k - 1 + 128) as nat);
}

/// The facts on the sizes of `u128` that the multiplication needs.
proof fn lemma_u128_mul_facts(a: u128, b: u128, signed: bool)
    requires
        a <= u128::spec_max_man(signed),
        b <= 0x8000_0000_0000_0000_0000_0000_0000_0000,
    ensures
        bit_len((a as nat) * (b as nat)) <= u128::spec_man_bits(signed) + 128,
        b <= u128::spec_max_man(signed) ==> bit_len((a as nat) * (b as nat)) <= 2
            * u128::spec_man_bits(signed),
        pow10(31) <= 10 * pow2n(u128::spec_man_bits(signed)),
        btd(u128::spec_man_bits(signed) + 1) >= 31,
        btd(u128::spec_man_bits(signed)) + 1 <= 38,
        pow2n(u128::spec_man_bits(signed)) == u128::spec_max_man(signed) + 1,
        16 * pow2n(u128::spec_man_bits(signed)) <= 0x1_0000_0000_0000_0000_0000_0000_0000_0000nat,
{
    let mb = u128::spec_man_bits(signed);
    lemma_pow2_values();
    lemma_pow10_values();
    lemma_mul_bit_len(a as nat, b as nat);
    lemma_bit_len_le(a as nat, mb);
    lemma_bit_len_le(b as nat, 128);
    if b <= u128::spec_max_man(signed) {
        lemma_bit_len_le(b as nat, mb);
    }
}

/// `x << k` is `x * 2^k` when that fits.
proof fn lemma_shl_is_mul(x: u128, k: u32)
    requires
        k < 128,
        x * pow2n(k as nat) <= u128::MAX,
    ensures
        x << k == x * pow2n(k as nat),
    decreases k,
{
    if k == 0 {
        assert(x << 0u32 == x) by (bit_vector);
        assert(x * pow2n(0) == x) by (nonlinear_arith)
            requires
                pow2n(0) == 1,
        ;
    } else {
        let j = (k - 1) as u32;
        crate::math::lemma_pow2_pos(j as nat);
        assert(pow2n(k as nat) == 2 * pow2n(j as nat));
        assert(x * pow2n(j as nat) <= x * pow2n(k as nat)) by (nonlinear_arith)
            requires
                pow2n(k as nat) == 2 * pow2n(j as nat),
        ;
        lemma_shl_is_mul(x, j);
        let y = x << j;
        assert(x * pow2n(k as nat) == 2 * (x * pow2n(j as nat))) by (nonlinear_arith)
            requires
                pow2n(k as nat) == 2 * pow2n(j as nat),
        ;
        assert(x << k == y * 2) by (bit_vector)
            requires
                y == x << j,
                j + 1 == k,
                k < 128,
                y * 2 <= u128::MAX,
        ;
    }
}

/// Reading the fields with bit operations is arithmetic on the integer.
proof fn lemma_layout_read(x: u128, y: u128, meta: u32)
    by (bit_vector)
    ensures
        x & 0x3ff_ffff_ffff_ffff_ffff_ffff_ffff_ffffu128 == x % 0x400_0000_0000_0000_0000_0000_0000_0000u128,
        meta == ((x >> 122u32) as u32) ==> ((meta & 31u32) as u128 == (x / 0x400_0000_0000_0000_0000_0000_0000_0000u128) % 32u128 && (meta >> 5u32) as u128 == x / 0x8000_0000_0000_0000_0000_0000_0000_0000u128),
        x & 0x7ff_ffff_ffff_ffff_ffff_ffff_ffff_ffffu128 == x % 0x800_0000_0000_0000_0000_0000_0000_0000u128,
        x >> 123u32 == (x / 0x800_0000_0000_0000_0000_0000_0000_0000u128) % 32u128,
        (x << 1u32 >> 1u32) / 0x8000_0000_0000_0000_0000_0000_0000_0000u128 == 0u128,
        (x << 1u32 >> 1u32) % 0x400_0000_0000_0000_0000_0000_0000_0000u128 == x % 0x400_0000_0000_0000_0000_0000_0000_0000u128,
        ((x << 1u32 >> 1u32) / 0x400_0000_0000_0000_0000_0000_0000_0000u128) % 32u128 == (x / 0x400_0000_0000_0000_0000_0000_0000_0000u128) % 32u128,
        (x ^ 0x8000_0000_0000_0000_0000_0000_0000_0000u128) / 0x8000_0000_0000_0000_0000_0000_0000_0000u128 == 1u128 - x / 0x8000_0000_0000_0000_0000_0000_0000_0000u128,
        (x ^ 0x8000_0000_0000_0000_0000_0000_0000_0000u128) % 0x400_0000_0000_0000_0000_0000_0000_0000u128 == x % 0x400_0000_0000_0000_0000_0000_0000_0000u128,
        ((x ^ 0x8000_0000_0000_0000_0000_0000_0000_0000u128) / 0x400_0000_0000_0000_0000_0000_0000_0000u128) % 32u128 == (x / 0x400_0000_0000_0000_0000_0000_0000_0000u128) % 32u128,
        (x / 0x8000_0000_0000_0000_0000_0000_0000_0000u128 == y / 0x8000_0000_0000_0000_0000_0000_0000_0000u128 && (x / 0x400_0000_0000_0000_0000_0000_0000_0000u128) % 32u128 == (y / 0x400_0000_0000_0000_0000_0000_0000_0000u128) % 32u128 && x % 0x400_0000_0000_0000_0000_0000_0000_0000u128 == y
            % 0x400_0000_0000_0000_0000_0000_0000_0000u128) ==> x == y,
        ((x / 0x800_0000_0000_0000_0000_0000_0000_0000u128) % 32u128 == (y / 0x800_0000_0000_0000_0000_0000_0000_0000u128) % 32u128 && x % 0x800_0000_0000_0000_0000_0000_0000_0000u128 == y % 0x800_0000_0000_0000_0000_0000_0000_0000u128) ==> x == y,
{
}

/// Writing the fields with bit operations puts them where reading finds them.
proof fn lemma_layout_write(sign: u8, scale: u32, man: u128)
    by (bit_vector)
    ensures
        (sign <= 1 && scale <= 31 && man <= 0x3ff_ffff_ffff_ffff_ffff_ffff_ffff_ffffu128) ==> ((((((sign as u32) << 5u32) | scale) as u128) << 122u32) | man) % 0x400_0000_0000_0000_0000_0000_0000_0000u128 == man && (((((((sign as u32) << 5u32) | scale) as u128) << 122u32) | man)
            / 0x400_0000_0000_0000_0000_0000_0000_0000u128) % 32u128 == scale as u128 && ((((((sign as u32) << 5u32) | scale) as u128) << 122u32) | man) / 0x8000_0000_0000_0000_0000_0000_0000_0000u128 == sign as u128,
        (scale <= 31 && man <= 0x7ff_ffff_ffff_ffff_ffff_ffff_ffff_ffffu128) ==> (((scale as u128) << 123u32) | man) % 0x800_0000_0000_0000_0000_0000_0000_0000u128 == man && ((((scale as u128) << 123u32) | man) / 0x800_0000_0000_0000_0000_0000_0000_0000u128) % 32u128
            == scale as u128,
{
}

impl UnderlyingInt for u128 {
    type Signed = i128;

    open spec fn val(self) -> nat {
        self as nat
    }

    open spec fn signed_val(s: i128) -> int {
        s as int
    }

    open spec fn spec_bits() -> nat {
        128
    }

    open spec fn spec_max_scale() -> nat {
        31
    }

    open spec fn spec_man_bits(signed: bool) -> nat {
        if signed {
            122
        } else {
            123
        }
    }

    open spec fn spec_max_exp() -> nat {
        38
    }

    open spec fn spec_max_man(signed: bool) -> nat {
        if signed {
            0x3ff_ffff_ffff_ffff_ffff_ffff_ffff_ffff
        } else {
            0x7ff_ffff_ffff_ffff_ffff_ffff_ffff_ffff
        }
    }

    open spec fn spec_int_base() -> nat {
        0x1_0000_0000_0000_0000_0000_0000_0000_0000nat
    }

    open spec fn sign_field(self, signed: bool) -> nat {
        if signed {
            self as nat / 0x8000_0000_0000_0000_0000_0000_0000_0000
        } else {
            0
        }
    }

    open spec fn scale_field(self, signed: bool) -> nat {
        if signed {
            (self as nat / 0x400_0000_0000_0000_0000_0000_0000_0000) % 32
        } else {
            (self as nat / 0x800_0000_0000_0000_0000_0000_0000_0000) % 32
        }
    }

    open spec fn man_field(self, signed: bool) -> nat {
        if signed {
            self as nat % 0x400_0000_0000_0000_0000_0000_0000_0000
        } else {
            self as nat % 0x800_0000_0000_0000_0000_0000_0000_0000
        }
    }

    proof fn lemma_shape(x: Self) {
        lemma_pow2_values();
        lemma_pow10_values();
    }

    proof fn lemma_signed_range(s: i128) {
        lemma_pow2_values();
    }

    fn max_scale() -> (r: u32) {
        31
    }

    fn bits() -> (r: u32) {
        128
    }

    fn man_bits(signed: bool) -> (r: u32) {
        if signed {
            122
        } else {
            123
        }
    }

    fn max_mantissa(signed: bool) -> (r: Self) {
        proof {
            lemma_pow2_values();
        }
        if signed {
            0x3ff_ffff_ffff_ffff_ffff_ffff_ffff_ffff
        } else {
            0x7ff_ffff_ffff_ffff_ffff_ffff_ffff_ffff
        }
    }

    fn zero() -> (r: Self) {
        0
    }

    fn unpack_fields(self, signed: bool) -> (r: (u8, u32, Self)) {
        proof {
            lemma_pow2_values();
        }
        let x = self;
        if signed {
            let mantissa = x & 0x3ff_ffff_ffff_ffff_ffff_ffff_ffff_ffff;
            let meta = (x >> 122u32) as u32;
            let scale = meta & 31;
            let sign = meta >> 5u32;
            proof {
                lemma_layout_read(x, x, meta);
            }
            (sign as u8, scale, mantissa)
        } else {
            let mantissa = x & 0x7ff_ffff_ffff_ffff_ffff_ffff_ffff_ffff;
            let scale = (x >> 123u32) as u32;
            proof {
                lemma_layout_read(x, x, 0);
            }
            (0, scale, mantissa)
        }
    }

    fn pack_fields(sign: u8, scale: u32, man: Self, signed: bool) -> (r: Self) {
        proof {
            lemma_pow2_values();
            lemma_layout_write(sign, scale, man);
        }
        if signed {
            let meta = ((sign as u32) << 5u32) | scale;
            let r = ((meta as u128) << 122u32) | man;
            r
        } else {
            let r = ((scale as u128) << 123u32) | man;
            r
        }
    }

    proof fn lemma_fields_determine(x: Self, y: Self, signed: bool) {
        lemma_layout_read(x, y, 0);
    }

    fn clear_sign_bit(self) -> (r: Self) {
        proof {
            lemma_pow2_values();
            lemma_layout_read(self, self, 0);
        }
        let x = self;
        x << 1u32 >> 1u32
    }

    fn flip_sign_bit(self) -> (r: Self) {
        proof {
            lemma_pow2_values();
            lemma_layout_read(self, self, 0);
        }
        let x = self;
        x ^ 0x8000_0000_0000_0000_0000_0000_0000_0000
    }

    fn to_signed(self, sign: u8) -> (r: i128) {
        proof {
            lemma_pow2_values();
        }
        let i = self as i128;  // self as mantissa fits 127-bits
        if sign == 0 {
            i
        } else {
            -i
        }
    }

    fn from_signed(s: i128) -> (r: (Self, u8)) {
        if s == i128::MIN {
            (0x8000_0000_0000_0000_0000_0000_0000_0000, 1)
        } else if s < 0 {
            ((-s) as u128, 1)
        } else {
            (s as u128, 0)
        }
    }

    fn as_u32(self) -> (r: u32) {
        self as u32
    }

    fn from_u32(n: u32) -> (r: Self) {
        n as u128
    }

    fn leading_zeros(self) -> (r: u32) {
        let x = self;
        let high = (x >> 64u32) as u64;
        let low = x as u64;
        proof {
            lemma_pow2_values();
            lemma_u64_leading_zeros(high);
            lemma_u64_leading_zeros(low);
            assert(x as nat == high as nat * 0x1_0000_0000_0000_0000 + low as nat) by (bit_vector)
                requires
                    high == (x >> 64u32) as u64,
                    low == x as u64,
            ;
            if high != 0 {
                lemma_bit_len_halves(high as nat, low as nat);
            }
        }
        if high != 0 {
            high.leading_zeros()
        } else {
            64 + low.leading_zeros()
        }
    }

    fn int_eq(self, o: Self) -> (r: bool) {
        self == o
    }

    fn int_lt(self, o: Self) -> (r: bool) {
        self < o
    }

    fn int_add(self, o: Self) -> (r: Self) {
        proof {
            lemma_pow2_values();
        }
        self + o
    }

    fn checked_add_int(self, o: Self) -> (r: Option<Self>) {
        proof {
            lemma_pow2_values();
        }
        self.checked_add(o)
    }

    fn shl_bits(self, k: u32) -> (r: Self) {
        proof {
            lemma_pow2_values();
            lemma_shl_is_mul(self, k);
        }
        self << k
    }

    fn int_sub(self, o: Self) -> (r: Self) {
        self - o
    }

    // caller must make sure that no overflow
    fn mul_exp(self, iexp: u32) -> (r: Self) {
        proof {
            lemma_pow2_values();
        }
        self * get_exp(iexp)
    }

    // we check the overflow
    fn checked_mul_exp(self, iexp: u32) -> (r: Option<Self>) {
        proof {
            lemma_pow2_values();
        }
        self.checked_mul(get_exp(iexp))
    }

    fn div_exp(self, iexp: u32) -> (r: Self) {
        proof {
            lemma_pow2_values();
            lemma_pow10_values();
            lemma_pow10_mono(iexp as nat, 38);
        }
        let exp = get_exp(iexp);
        let n = self + exp / 2;  // no addition overflow: self is a mantissa
        proof {
            if iexp >= 1 {
                lemma_div_round_add_half(self as nat, iexp as nat);
            }
        }
        div_single_128(n, iexp).unwrap()
    }

    open spec fn spec_mul_scale(a: nat, b: nat, sum_scale: nat, signed: bool) -> nat {
        let mb = u128::spec_man_bits(signed);
        if bit_len(a) + bit_len(b) <= mb {
            if sum_scale <= 31 {
                sum_scale
            } else {
                31
            }
        } else if a * b < 0x1_0000_0000_0000_0000_0000_0000_0000_0000nat {
            (sum_scale - big_mul_clear_digits(a * b, u128::spec_max_man(signed), sum_scale, 31)) as nat
        } else {
            (sum_scale - mul_clear_digits(a * b, mb, sum_scale, 31)) as nat
        }
    }

    open spec fn spec_mul_fits(a: nat, b: nat, sum_scale: nat, signed: bool) -> bool {
        let mb = u128::spec_man_bits(signed);
        if bit_len(a) + bit_len(b) <= mb {
            true
        } else {
            div_round(a * b, pow10(sum_scale)) <= u128::spec_max_man(signed)
        }
    }

    open spec fn spec_div(n: nat, d: nat, s_scale: nat, d_scale: nat, signed: bool) -> Option<
        (nat, nat),
    > {
        quotient_at(
            n,
            d,
            s_scale,
            d_scale,
            if d <= 0xffff_ffff {
                short_div_scale(n, d, (31 - sat_sub(s_scale, d_scale)) as nat, u128::spec_man_bits(signed))
            } else {
                long_div_scale(n, d, 0, (31 - sat_sub(s_scale, d_scale)) as nat, u128::spec_man_bits(signed))
            },
            u128::spec_max_man(signed),
        )
    }

    proof fn lemma_mul_scale_bound(a: nat, b: nat, sum_scale: nat, signed: bool) {
        lemma_pow2_values();
        lemma_pow10_values();
        let mb = u128::spec_man_bits(signed);
        let m = u128::spec_max_man(signed);
        let p = a * b;
        if bit_len(a) + bit_len(b) <= mb {
        } else if p < 0x1_0000_0000_0000_0000_0000_0000_0000_0000nat {
            // the fewest digits, at most three, that bring the product to a mantissa
            lemma_big_clear(p, m, sum_scale);
        } else {
            crate::math::lemma_mul_clear_few(a, b, mb, sum_scale, 31, 38);
        }
    }

    proof fn lemma_mul_spec_symmetric(a: nat, b: nat, sum_scale: nat, signed: bool) {
        lemma_mul_is_commutative(a as int, b as int);
    }

    #[inline]
    fn mul_with_sum_scale(self, right: Self, sum_scale: u32, signed: bool) -> (r: Option<(Self, u32)>) {
        let ghost p = (self as nat) * (right as nat);
        let ghost m = u128::spec_max_man(signed);
        proof {
            lemma_pow2_values();
            lemma_pow10_pos(sum_scale as nat);
            if p <= m * pow10(sum_scale as nat) {
                lemma_div_round_le(p, pow10(sum_scale as nat), m);
            }
        }
        let lz = UnderlyingInt::leading_zeros(self) + UnderlyingInt::leading_zeros(right);
        if lz >= 128 + meta_bits(signed) {
            // fast path, keep the code simple
            proof {
                lemma_mul_bit_len(self as nat, right as nat);
                lemma_pow2_mono(bit_len(self as nat) + bit_len(right as nat), u128::spec_man_bits(signed));
                assert(p <= p * pow10(sum_scale as nat)) by (nonlinear_arith)
                    requires
                        pow10(sum_scale as nat) >= 1,
                ;
                lemma_div_round_le(p, pow10(sum_scale as nat), p);
            }
            let p = self * right;
            if sum_scale <= 31 {
                Some((p, sum_scale))
            } else {
                proof {
                    lemma_pow10_values();
                    lemma_pow10_mono((sum_scale - 31) as nat, 31);
                }
                proof {
                    let k = pow10((sum_scale - 31) as nat);
                    lemma_pow10_pos((sum_scale - 31) as nat);
                    assert((self as nat) * (right as nat) <= (self as nat) * (right as nat) * k)
                        by (nonlinear_arith)
                        requires
                            k >= 1,
                    ;
                    lemma_div_round_le((self as nat) * (right as nat), k, (self as nat) * (right as nat));
                }
                Some((p.div_exp(sum_scale - 31), 31))
            }
        } else {
            // full path
            let r = mul_with_sum_scale_full(self, right, sum_scale, signed);
            proof {
                if let Some(qs) = r {
                    lemma_pow10_pos((sum_scale - qs.1) as nat);
                    lemma_pow10_mono((sum_scale - qs.1) as nat, sum_scale as nat);
                    lemma_div_round_mono_divisor(
                        p,
                        pow10((sum_scale - qs.1) as nat),
                        pow10(sum_scale as nat),
                    );
                }
            }
            r
        }
    }

    #[inline]
    #[verifier::rlimit(40)]
    fn div_with_scales(self, d: Self, s_scale: u32, d_scale: u32, signed: bool) -> (r: Option<(Self, u32)>) {
        let n = self;
        let diff_scale = s_scale.saturating_sub(d_scale);
        let max_scale = 31 - diff_scale;

        let (mut q, mut r, mut act_scale) = if d <= u32::MAX as u128 {
            div_with_scales_by32(n, d as u32, max_scale, signed)
        } else {
            div_with_scales_full(n, d, max_scale, signed)
        };
        let ghost act0 = act_scale;
        let ghost q_0 = q;
        let ghost r_0 = r;
        let ghost branch: nat = 2;

        // increase the scale if d_scale > s_scale
        let min_scale = d_scale.saturating_sub(s_scale);
        if act_scale < min_scale {
            proof {
                lemma_pow10_add(act_scale as nat, (min_scale - act_scale) as nat);
                assert((q as nat * d as nat + r as nat) * pow10((min_scale - act_scale) as nat)
                    == (n as nat) * pow10(min_scale as nat)) by (nonlinear_arith)
                    requires
                        q as nat * d as nat + r as nat == n as nat * pow10(act_scale as nat),
                        pow10(min_scale as nat) == pow10(act_scale as nat) * pow10(
                            (min_scale - act_scale) as nat,
                        ),
                ;
                // the remainder is small enough to take the missing digits
                lemma_pow10_values();
                lemma_pow10_mono(min_scale as nat, 31);
                lemma_pow2_values();
                assert(r as nat * pow10((min_scale - act_scale) as nat) <= u128::MAX)
                    by (nonlinear_arith)
                    requires
                        r < 20 * pow10(act_scale as nat),
                        pow10(act_scale as nat) * pow10((min_scale - act_scale) as nat) == pow10(
                            min_scale as nat,
                        ),
                        pow10(min_scale as nat) <= 10000000000000000000000000000000,
                ;
                assert(div_round(n as nat * pow10(min_scale as nat), d as nat) >= (n as nat
                    * pow10(min_scale as nat)) / (d as nat));
            }
            match increase_scale(q, r, d, min_scale - act_scale, signed) {
                Some((q2, r2)) => {
                    proof {
                        lemma_div_round_of_qr(
                            n as nat * pow10(min_scale as nat),
                            d as nat,
                            q2 as nat,
                            r2 as nat,
                        );
                        branch = 0;
                    }
                    q = q2;
                    r = r2;
                },
                None => {
                    return None;
                },
            }
            act_scale = min_scale;
        }
        // reduce the scale if division exactly
         else if r == 0 && act_scale > min_scale {
            let (q0, red_scale) = reduce_scale(q, act_scale - min_scale);
            proof {
                lemma_pow10_add((act_scale - red_scale) as nat, red_scale as nat);
                lemma_pow10_pos(red_scale as nat);
                lemma_div_cancel(
                    q0 as nat,
                    d as nat,
                    n as nat,
                    pow10((act_scale - red_scale) as nat),
                    pow10(red_scale as nat),
                );
                assert(q0 <= q) by (nonlinear_arith)
                    requires
                        q0 as nat * pow10(red_scale as nat) == q as nat,
                        pow10(red_scale as nat) >= 1,
                ;
            }
            proof {
                lemma_div_round_of_qr(q as nat, pow10(red_scale as nat), q0 as nat, 0);
                branch = 1;
            }
            q = q0;
            act_scale -= red_scale;
        }
        // round
        proof {
            lemma_div_round_of_qr(n as nat * pow10(act_scale as nat), d as nat, q as nat, r as nat);
            lemma_pow2_values();
        }
        if r * 2 >= d {
            if q == max_mantissa(signed) {
                return None;
            }
            q += 1;
        }
        proof {
            // no smaller scale could have held the quotient either
            let e = (diff_scale + act_scale - min_scale + d_scale - s_scale) as nat;
            lemma_pow10_mono(min_scale as nat, e);
            assert(n as nat * pow10(min_scale as nat) <= n as nat * pow10(e)) by (nonlinear_arith)
                requires
                    pow10(min_scale as nat) <= pow10(e),
            ;
            lemma_div_round_mono(n as nat * pow10(min_scale as nat), n as nat * pow10(e), d as nat);
        }
        proof {
            let t = n as nat * pow10(act0 as nat);
            assert(branch == 2 ==> q_0 == t / (d as nat) && r_0 == t % (d as nat));
            if branch == 1 {
                assert(r_0 == 0 && act0 > min_scale);
                if q_0 == 0 {
                    assert(tz10(0) == 0);
                }
            }
        }
        Some((q, diff_scale + act_scale - min_scale))
    }

    fn div_rem_exp(self, iexp: u32) -> (r: (Self, Self)) {
        let exp = get_exp(iexp);
        let q = div_single_128(self, iexp).unwrap();
        proof {
            lemma_pow10_pos(iexp as nat);
            lemma_fundamental_div_mod(self as int, exp as int);
            let n = self as int;
            let e = exp as int;
            assert(q * e == n - n % e && n % e >= 0) by (nonlinear_arith)
                requires
                    n == e * (n / e) + n % e,
                    q == n / e,
                    0 <= n % e < e,
            ;
        }
        (q, self - q * exp)
    }
}

} // verus!
