//! `u32` as the underlying integer: 1 sign bit, 3 scale bits, 28 mantissa bits
//! (29 when unsigned).
use vstd::arithmetic::div_mod::*;
use vstd::arithmetic::mul::lemma_mul_is_commutative;
use vstd::prelude::*;

use crate::int64::lemma_u64_leading_zeros;
use crate::ops::bits_to_digits;
use crate::math::{
    lemma_tz10, tz10, lemma_bit_len, lemma_btd_bounds, lemma_pow2_add, lemma_div_round_of_qr,
    lemma_div_cancel, lemma_qr, lemma_quot_below, lemma_pow10_add, lemma_pow10_factor_of_pow2,
    lemma_div_round_mono,
    btd, clear_digits_min, div_round, lemma_div_round_le, ceil_digits, sat_sub,
    lemma_mul_bit_len, lemma_mul_clear, lemma_pow2_mono, mul_clear_digits, pow2n,
    bit_len, lemma_bit_len_le, lemma_div_round_add_half, lemma_pow10_mono, lemma_pow10_pos, lemma_pow10_values,
    lemma_pow2_values, pow10,
};
use crate::quotient::{one_step_scale, quotient_at};
use crate::UnderlyingInt;

verus! {

const ALL_EXPS: [u32; 10] = [
    1,
    10,
    100,
    1000,
    10000,
    100000,
    1000000,
    10000000,
    100000000,
    1000000000,
];

// the caller must make sure that: @i < 10
fn get_exp(i: u32) -> (r: u32)
    requires
        i < 10,
    ensures
        r as nat == pow10(i as nat),
{
    proof {
        lemma_pow10_values();
        assert(ALL_EXPS@ =~= seq![
            1u32,
            10,
            100,
            1000,
            10000,
            100000,
            1000000,
            10000000,
            100000000,
            1000000000,
        ]);
    }
    ALL_EXPS[i as usize]
}

fn max_mantissa(signed: bool) -> (r: u32)
    ensures
        r == u32::spec_max_man(signed),
{
    if signed {
        0x0fff_ffff
    } else {
        0x1fff_ffff
    }
}

fn meta_bits(signed: bool) -> (r: u32)
    ensures
        r == 32 - u32::spec_man_bits(signed),
{
    if signed {
        4
    } else {
        3
    }
}

/// The multiplication when the product may not fit in the mantissa: the
/// 64-bit product is divided by a power of ten chosen from its bit length.
fn mul_with_sum_scale_full(a: u32, b: u32, sum_scale: u32, signed: bool) -> (r: Option<(u32, u32)>)
    requires
        a <= u32::spec_max_man(signed),
        sum_scale <= 14,
        b <= u32::spec_max_man(signed) || sum_scale <= 7,
        b <= 0x8000_0000,
    ensures
        r is Some <==> div_round((a as nat) * (b as nat), pow10(sum_scale as nat)) <= u32::spec_max_man(
            signed,
        ),
        r matches Some(qs) ==> {
            &&& qs.1 == sum_scale - mul_clear_digits(
                (a as nat) * (b as nat),
                u32::spec_man_bits(signed),
                sum_scale as nat,
                7,
            )
            &&& qs.1 <= sum_scale
            &&& qs.1 <= 7
            &&& qs.0 == div_round((a as nat) * (b as nat), pow10((sum_scale - qs.1) as nat))
            &&& qs.0 <= u32::spec_max_man(signed)
        },
{
    let ghost mb = u32::spec_man_bits(signed);
    let ghost ss = sum_scale as nat;
    proof {
        lemma_u32_mul_facts(a, b, signed);
    }
    let p = a as u64 * b as u64;
    let ghost pn = p as nat;
    let lz = UnderlyingInt::leading_zeros(p);
    let bits = (32 + meta_bits(signed)).saturating_sub(lz);
    proof {
        assert(lz as nat + bit_len(pn) == 64);
        assert(bits as nat == sat_sub(bit_len(pn), mb));
    }
    let mut clear_digits = bits_to_digits(bits) + 1;  // +1 for ceiling
    proof {
        assert(clear_digits == ceil_digits(pn, mb));
    }
    // check the scale @sum_scale
    if sum_scale > 7 && sum_scale - 7 > clear_digits {
        clear_digits = sum_scale - 7;
    }
    proof {
        assert(clear_digits == clear_digits_min(pn, mb, ss, 7));
        lemma_mul_clear(pn, mb, ss, 7, 9);
    }
    if clear_digits > sum_scale {
        // edge case, overflow, return None
        if clear_digits == sum_scale + 1 {
            // edge case in edge case. The overflow may be false because
            // the @clear_digits maybe 1 more than need. So here we give
            // it one more chance by decreasing it by 1 and check it later.
            clear_digits -= 1;
        } else {
            return None;
        }
    }
    proof {
        assert(clear_digits == mul_clear_digits(pn, mb, ss, 7));
        lemma_pow10_mono(clear_digits as nat, 9);
    }
    // prepare for rounding
    let exp = get_exp(clear_digits) as u64;
    let p = p + exp / 2;
    proof {
        let d = pow10(clear_digits as nat);
        assert(p as nat == pn + d / 2);
        lemma_pow10_pos(clear_digits as nat);
    }
    let q = p / exp;
    proof {
        assert(q as nat == div_round(pn, pow10(clear_digits as nat)));
    }

    // handle the edge case above
    if q > max_mantissa(signed) as u64 {
        return None;
    }
    Some((q as u32, sum_scale - clear_digits))
}

/// The facts on the sizes of `u32` that the multiplication needs.
proof fn lemma_u32_mul_facts(a: u32, b: u32, signed: bool)
    requires
        a <= u32::spec_max_man(signed),
        b <= 0x8000_0000,
    ensures
        (a as nat) * (b as nat) < 0x2000_0000_0000_0000,
        bit_len((a as nat) * (b as nat)) <= u32::spec_man_bits(signed) + 32,
        b <= u32::spec_max_man(signed) ==> bit_len((a as nat) * (b as nat)) <= 2 * u32::spec_man_bits(
            signed,
        ),
        pow10(7) <= 10 * pow2n(u32::spec_man_bits(signed)),
        btd(u32::spec_man_bits(signed) + 1) >= 7,
        btd(u32::spec_man_bits(signed)) + 1 <= 9,
        pow10(9) == 1000000000,
        pow2n(u32::spec_man_bits(signed)) == u32::spec_max_man(signed) + 1,
        16 * pow2n(u32::spec_man_bits(signed)) <= 0x2_0000_0000,
{
    let mb = u32::spec_man_bits(signed);
    lemma_pow2_values();
    lemma_pow10_values();
    lemma_mul_bit_len(a as nat, b as nat);
    lemma_bit_len_le(a as nat, mb);
    lemma_bit_len_le(b as nat, 32);
    if b <= u32::spec_max_man(signed) {
        lemma_bit_len_le(b as nat, mb);
    }
    lemma_pow2_mono(bit_len(a as nat) + bit_len(b as nat), mb + 32);
}

// calculate: n / d and n % d
#[inline]
fn div_rem(n: u32, d: u32) -> (r: (u32, u32))
    requires
        d > 0,
    ensures
        r.0 == n / d,
        r.1 == n % d,
        r.0 as nat * d as nat + r.1 as nat == n as nat,
{
    proof {
        lemma_qr(n as nat, d as nat);
    }
    (n / d, n % d)
}

/// The low bits tell the divisibility by small powers of two.
proof fn lemma_low_bits(n: u32)
    by (bit_vector)
    ensures
        (n & 0xFu32 == 0u32) == (n % 16u32 == 0u32),
        (n & 0x3u32 == 0u32) == (n % 4u32 == 0u32),
        (n & 0x1u32 == 0u32) == (n % 2u32 == 0u32),
{
}

/// Removes trailing decimal zeros, at most `max_scale` of them.
fn reduce_scale(n: u32, max_scale: u32) -> (r: (u32, u32))
    ensures
        r.1 <= max_scale,
        n == 0 ==> r.1 == 0,
        r.0 as nat * pow10(r.1 as nat) == n as nat,
        n > 0 ==> r.1 == (if tz10(n as nat) <= max_scale {
            tz10(n as nat)
        } else {
            max_scale as nat
        }),
{
    proof {
        lemma_pow10_values();
    }
    if n == 0 {
        assert(0 * pow10(0) == 0);
        return (0, 0);
    }
    let ghost n0 = n as nat;
    let mut n = n;
    let mut left_scale = max_scale;
    assert(pow10((max_scale - left_scale) as nat) == 1);
    assert(n as nat * 1 == n as nat);
    while n & 0xF == 0 && left_scale >= 4
        invariant
            n > 0,
            left_scale <= max_scale,
            n as nat * pow10((max_scale - left_scale) as nat) == n0,
            tz10(n0) == (max_scale - left_scale) + tz10(n as nat),
            pow10(4) == 10000,
        ensures
            n > 0,
            left_scale <= max_scale,
            n as nat * pow10((max_scale - left_scale) as nat) == n0,
            tz10(n0) == (max_scale - left_scale) + tz10(n as nat),
            left_scale < 4 || n & 0xF != 0 || n % 10000 != 0,
        decreases left_scale,
    {
        let (q, r) = div_rem(n, 10000);
        if r != 0 {
            break;
        }
        proof {
            lemma_tz10(n as nat, 4);
            lemma_pow10_add((max_scale - left_scale) as nat, 4);
            assert(q as nat * pow10((max_scale - left_scale + 4) as nat) == n0) by (nonlinear_arith)
                requires
                    q as nat * 10000 == n as nat,
                    n as nat * pow10((max_scale - left_scale) as nat) == n0,
                    pow10((max_scale - left_scale + 4) as nat) == pow10(
                        (max_scale - left_scale) as nat,
                    ) * 10000,
            ;
        }
        n = q;
        left_scale -= 4;
    }
    proof {
        // here fewer than 4 zeros can still go
        lemma_tz10(n as nat, 4);
        if left_scale >= 4 && n % 10000 == 0 {
            lemma_low_bits(n);
            assert(n % 16 == 0) by (nonlinear_arith)
                requires
                    n % 10000 == 0,
            ;
        }
        assert(tz10(n as nat) < 4 || left_scale < 4);
    }
    let ghost k = if tz10(n as nat) <= left_scale { tz10(n as nat) } else { left_scale as nat };
    if n & 0x3 == 0 && left_scale >= 2 {
        let (q, r) = div_rem(n, 100);
        proof {
            lemma_tz10(n as nat, 2);
        }
        if r == 0 {
            proof {
                lemma_pow10_add((max_scale - left_scale) as nat, 2);
                assert(q as nat * pow10((max_scale - left_scale + 2) as nat) == n0) by (nonlinear_arith)
                    requires
                        q as nat * 100 == n as nat,
                        n as nat * pow10((max_scale - left_scale) as nat) == n0,
                        pow10((max_scale - left_scale + 2) as nat) == pow10(
                            (max_scale - left_scale) as nat,
                        ) * 100,
                ;
            }
            n = q;
            left_scale -= 2;
            proof {
                assert(tz10(n0) == (max_scale - left_scale) + tz10(n as nat));
            }
        }
    } else {
        proof {
            lemma_tz10(n as nat, 2);
            if left_scale >= 2 && n % 100 == 0 {
                lemma_low_bits(n);
                assert(n % 4 == 0) by (nonlinear_arith)
                    requires
                        n % 100 == 0,
                ;
            }
        }
    }
    proof {
        lemma_tz10(n as nat, 2);
        assert(tz10(n as nat) < 2 || left_scale < 2);
    }
    if n & 0x1 == 0 && left_scale >= 1 {
        let (q, r) = div_rem(n, 10);
        proof {
            lemma_tz10(n as nat, 1);
        }
        if r == 0 {
            proof {
                lemma_pow10_add((max_scale - left_scale) as nat, 1);
                assert(q as nat * pow10((max_scale - left_scale + 1) as nat) == n0) by (nonlinear_arith)
                    requires
                        q as nat * 10 == n as nat,
                        n as nat * pow10((max_scale - left_scale) as nat) == n0,
                        pow10((max_scale - left_scale + 1) as nat) == pow10(
                            (max_scale - left_scale) as nat,
                        ) * 10,
                ;
            }
            n = q;
            left_scale -= 1;
            proof {
                assert(tz10(n0) == (max_scale - left_scale) + tz10(n as nat));
            }
        }
    } else {
        proof {
            lemma_tz10(n as nat, 1);
            if left_scale >= 1 && n % 10 == 0 {
                lemma_low_bits(n);
            }
        }
    }
    proof {
        lemma_tz10(n as nat, 1);
        assert(tz10(n as nat) == 0 || left_scale == 0);
    }
    (n, max_scale - left_scale)
}

fn increase_scale(q: u32, r: u32, d: u32, scale: u32, signed: bool) -> (res: Option<(u32, u32)>)
    requires
        0 < d,
        r < d,
        scale <= 9,
        r as nat * pow10(scale as nat) <= u32::MAX,
    ensures
        res is None ==> (q as nat * d as nat + r as nat) * pow10(scale as nat) / (d as nat)
            > u32::spec_max_man(signed),
        res matches Some(qr) ==> {
            &&& qr.0 as nat * d as nat + qr.1 as nat == (q as nat * d as nat + r as nat) * pow10(
                scale as nat,
            )
            &&& qr.1 < d
            &&& qr.0 <= u32::spec_max_man(signed)
        },
{
    let q0 = q;
    let rr = match r.checked_mul_exp(scale) {
        Some(x) => x,
        None => {
            return None;
        },
    };
    let (q2, r2) = div_rem(rr, d);
    proof {
        // the whole quotient, whether it fits or not
        let p = pow10(scale as nat);
        let big = q0 as nat * p + q2 as nat;
        assert(big * (d as nat) + (r2 as nat) == ((q0 as nat) * (d as nat) + (r as nat)) * p)
            by (nonlinear_arith)
            requires
                big == q0 as nat * p + q2 as nat,
                q2 as nat * d as nat + r2 as nat == rr as nat,
                rr as nat == r as nat * p,
        ;
        lemma_div_round_of_qr(((q0 as nat) * (d as nat) + (r as nat)) * p, d as nat, big, r2 as nat);
        lemma_pow2_values();
    }
    let qq = match q.checked_mul_exp(scale) {
        Some(x) => x,
        None => {
            return None;
        },
    };
    let q = match qq.checked_add(q2) {
        Some(x) => x,
        None => {
            return None;
        },
    };
    proof {
        let p = pow10(scale as nat);
        assert((q as nat) * (d as nat) + (r2 as nat) == ((q0 as nat) * (d as nat) + (r as nat)) * p)
            by (nonlinear_arith)
            requires
                q as nat == qq as nat + q2 as nat,
                q2 as nat * d as nat + r2 as nat == rr as nat,
                qq as nat == q0 as nat * p,
                rr as nat == r as nat * p,
        ;
    }
    if q <= max_mantissa(signed) {
        Some((q, r2))
    } else {
        None
    }
}

/// Quotient `q` and remainder `r` of `n * 10^act / d`, with `act` as many
/// decimal digits as `q` can take (at most `max_scale`), or 0 when `d`
/// divides `n`.
fn div_with_scales_full(n: u32, d: u32, max_scale: u32, signed: bool) -> (res: (u32, u32, u32))
    requires
        n <= u32::spec_max_man(signed),
        0 < d,
        max_scale <= 7,
    ensures
        res.0 as nat * d as nat + res.1 as nat == n as nat * pow10(res.2 as nat),
        res.1 < d,
        res.2 <= max_scale,
        res.0 <= u32::spec_max_man(signed),
        res.2 < max_scale ==> res.1 < 2 * pow10(res.2 as nat + 1),
        res.0 == u32::spec_max_man(signed) ==> res.2 == 0,
        res.2 == one_step_scale(n as nat, d as nat, max_scale as nat, u32::spec_man_bits(signed)),
        res.0 == (n as nat * pow10(res.2 as nat)) / (d as nat),
        res.1 == (n as nat * pow10(res.2 as nat)) % (d as nat),
{
    proof {
        lemma_pow10_values();
        lemma_pow2_values();
    }
    let (q, r) = div_rem(n, d);
    if r == 0 {
        proof {
            assert(n as nat * pow10(0) == n as nat);
        }
        return (q, 0, 0);
    }
    proof {
        assert(q <= n) by (nonlinear_arith)
            requires
                q as nat * d as nat + r as nat == n as nat,
                d >= 1,
        ;
                lemma_bit_len(q as nat);
        lemma_bit_len_le(q as nat, u32::spec_man_bits(signed));
    }
    let free = UnderlyingInt::leading_zeros(q) - meta_bits(signed);
    let digits = bits_to_digits(free);
    let act_scale = if digits < max_scale {
        digits
    } else {
        max_scale
    };
    let exp = get_exp(act_scale);
    let ghost e = exp as nat;
    proof {
        // q * 10^act + (10^act - 1) still fits in the mantissa
        let bq = bit_len(q as nat);
        let f = (u32::spec_man_bits(signed) - bq) as nat;
        lemma_btd_bounds(f);
        lemma_pow10_mono(act_scale as nat, btd(f));
        lemma_pow2_add(bq, f);
        assert((q as nat + 1) * e <= pow2n(u32::spec_man_bits(signed))) by (nonlinear_arith)
            requires
                q as nat + 1 <= pow2n(bq),
                e <= pow2n(f),
                pow2n(bq + f) == pow2n(bq) * pow2n(f),
                bq + f == u32::spec_man_bits(signed),
        ;
        lemma_mul_bit_len(r as nat, e);
    }
    let (q2, r2) = if UnderlyingInt::leading_zeros(r) + UnderlyingInt::leading_zeros(exp) >= 32 {
        proof {
            lemma_pow2_mono(bit_len(r as nat) + bit_len(e), 32);
        }
        div_rem(r * exp, d)
    } else {
        let n = r as u64 * exp as u64;
        let q2 = n / d as u64;
        let r2 = n % d as u64;
        proof {
            lemma_qr(n as nat, d as nat);
            lemma_pow10_pos(act_scale as nat);
            lemma_quot_below(q2 as nat, d as nat, r2 as nat, r as nat, e);
        }
        (q2 as u32, r2 as u32)
    };
    proof {
        lemma_pow10_pos(act_scale as nat);
        lemma_quot_below(q2 as nat, d as nat, r2 as nat, r as nat, e);
        assert((q as nat) * e + (q2 as nat) <= u32::spec_max_man(signed)) by (nonlinear_arith)
            requires
                (q as nat + 1) * e <= u32::spec_max_man(signed) + 1,
                q2 < e,
        ;
        let mb = u32::spec_man_bits(signed);
        let bq = bit_len(q as nat);
        let f = (mb - bq) as nat;
        if act_scale < max_scale {
            // the scale was limited by the free bits, so `d` is small
            lemma_btd_bounds(f);
            if q == 0 {
                assert(btd(f) >= 8);
            } else {
                lemma_bit_len(q as nat);
                lemma_pow2_add((bq - 1) as nat, f + 1);
                assert(d < 2 * pow2n(f)) by (nonlinear_arith)
                    requires
                        pow2n((bq - 1) as nat) <= q,
                        q as nat * d as nat <= n as nat,
                        n < pow2n(mb),
                        pow2n(mb) == pow2n((bq - 1) as nat) * pow2n(f + 1),
                        pow2n(f + 1) == 2 * pow2n(f),
                ;
            }
        }
        if (q as nat) * e + (q2 as nat) == u32::spec_max_man(signed) {
            assert((q as nat + 1) * e == pow2n(mb)) by (nonlinear_arith)
                requires
                    (q as nat + 1) * e <= pow2n(mb),
                    (q as nat) * e + (q2 as nat) + 1 == pow2n(mb),
                    q2 < e,
            ;
            lemma_pow10_factor_of_pow2(q as nat + 1, act_scale as nat, mb);
        }
        assert(((q as nat) * e + (q2 as nat)) * (d as nat) + (r2 as nat) == (n as nat) * e)
            by (nonlinear_arith)
            requires
                q2 as nat * d as nat + r2 as nat == r as nat * e,
                q as nat * d as nat + r as nat == n as nat,
        ;
    }
    proof {
        lemma_div_round_of_qr(n as nat * e, d as nat, (q as nat) * e + (q2 as nat), r2 as nat);
    }
    (q * exp + q2, r2, act_scale)
}

/// `x << k` is `x * 2^k` when that fits.
proof fn lemma_shl_is_mul(x: u32, k: u32)
    requires
        k < 32,
        x * pow2n(k as nat) <= u32::MAX,
    ensures
        x << k == x * pow2n(k as nat),
    decreases k,
{
    if k == 0 {
        assert(x << 0u32 == x) by (bit_vector);
        assert(x * pow2n(0) == x) by (nonlinear_arith)
            requires
                pow2n(0) == 1,
        ;
    } else {
        let j = (k - 1) as u32;
        crate::math::lemma_pow2_pos(j as nat);
        assert(pow2n(k as nat) == 2 * pow2n(j as nat));
        assert(x * pow2n(j as nat) <= x * pow2n(k as nat)) by (nonlinear_arith)
            requires
                pow2n(k as nat) == 2 * pow2n(j as nat),
        ;
        lemma_shl_is_mul(x, j);
        let y = x << j;
        assert(x * pow2n(k as nat) == 2 * (x * pow2n(j as nat))) by (nonlinear_arith)
            requires
                pow2n(k as nat) == 2 * pow2n(j as nat),
        ;
        assert(x << k == y * 2) by (bit_vector)
            requires
                y == x << j,
                j + 1 == k,
                k < 32,
                y * 2 <= u32::MAX,
        ;
    }
}

/// Reading the fields with bit operations is arithmetic on the integer.
proof fn lemma_layout_read(x: u32, y: u32, meta: u32)
    by (bit_vector)
    ensures
        x & 0x0fff_ffffu32 == x % 0x1000_0000u32,
        meta == (x >> 28u32) ==> (meta & 7u32 == ((x / 0x1000_0000u32) % 8u32) as u32 && meta >> 3u32 == (x / 0x8000_0000u32) as u32),
        x & 0x1fff_ffffu32 == x % 0x2000_0000u32,
        (x >> 29u32) == ((x / 0x2000_0000u32) % 8u32) as u32,
        (x << 1u32 >> 1u32) / 0x8000_0000u32 == 0u32,
        (x << 1u32 >> 1u32) % 0x1000_0000u32 == x % 0x1000_0000u32,
        ((x << 1u32 >> 1u32) / 0x1000_0000u32) % 8u32 == (x / 0x1000_0000u32) % 8u32,
        (x ^ 0x8000_0000u32) / 0x8000_0000u32 == 1u32 - x / 0x8000_0000u32,
        (x ^ 0x8000_0000u32) % 0x1000_0000u32 == x % 0x1000_0000u32,
        ((x ^ 0x8000_0000u32) / 0x1000_0000u32) % 8u32 == (x / 0x1000_0000u32) % 8u32,
        (x / 0x8000_0000u32 == y / 0x8000_0000u32 && (x / 0x1000_0000u32) % 8u32 == (y / 0x1000_0000u32) % 8u32 && x % 0x1000_0000u32 == y
            % 0x1000_0000u32) ==> x == y,
        ((x / 0x2000_0000u32) % 8u32 == (y / 0x2000_0000u32) % 8u32 && x % 0x2000_0000u32 == y % 0x2000_0000u32) ==> x == y,
{
}

/// Writing the fields with bit operations puts them where reading finds them.
proof fn lemma_layout_write(sign: u8, scale: u32, man: u32)
    by (bit_vector)
    ensures
        (sign <= 1 && scale <= 7 && man <= 0x0fff_ffffu32) ==> (((((sign as u32) << 3u32) | scale) << 28u32) | man) % 0x1000_0000u32 == man && ((((((sign as u32) << 3u32) | scale) << 28u32) | man)
            / 0x1000_0000u32) % 8u32 == scale && (((((sign as u32) << 3u32) | scale) << 28u32) | man) / 0x8000_0000u32 == sign as u32,
        (scale <= 7 && man <= 0x1fff_ffffu32) ==> ((scale << 29u32) | man) % 0x2000_0000u32 == man && (((scale << 29u32) | man) / 0x2000_0000u32) % 8u32
            == scale,
{
}

impl UnderlyingInt for u32 {
    type Signed = i32;

    open spec fn val(self) -> nat {
        self as nat
    }

    open spec fn signed_val(s: i32) -> int {
        s as int
    }

    open spec fn spec_bits() -> nat {
        32
    }

    open spec fn spec_max_scale() -> nat {
        7
    }

    open spec fn spec_man_bits(signed: bool) -> nat {
        if signed {
            28
        } else {
            29
        }
    }

    open spec fn spec_max_exp() -> nat {
        9
    }

    open spec fn spec_max_man(signed: bool) -> nat {
        if signed {
            0x0fff_ffff
        } else {
            0x1fff_ffff
        }
    }

    open spec fn spec_int_base() -> nat {
        0x1_0000_0000
    }

    open spec fn sign_field(self, signed: bool) -> nat {
        if signed {
            self as nat / 0x8000_0000
        } else {
            0
        }
    }

    open spec fn scale_field(self, signed: bool) -> nat {
        if signed {
            (self as nat / 0x1000_0000) % 8
        } else {
            (self as nat / 0x2000_0000) % 8
        }
    }

    open spec fn man_field(self, signed: bool) -> nat {
        if signed {
            self as nat % 0x1000_0000
        } else {
            self as nat % 0x2000_0000
        }
    }

    proof fn lemma_shape(x: Self) {
        lemma_pow2_values();
        lemma_pow10_values();
    }

    proof fn lemma_signed_range(s: i32) {
        lemma_pow2_values();
    }

    fn max_scale() -> (r: u32) {
        7
    }

    fn bits() -> (r: u32) {
        32
    }

    fn man_bits(signed: bool) -> (r: u32) {
        if signed {
            28
        } else {
            29
        }
    }

    fn max_mantissa(signed: bool) -> (r: Self) {
        proof {
            lemma_pow2_values();
        }
        if signed {
            0x0fff_ffff
        } else {
            0x1fff_ffff
        }
    }

    fn zero() -> (r: Self) {
        0
    }

    fn unpack_fields(self, signed: bool) -> (r: (u8, u32, Self)) {
        proof {
            lemma_pow2_values();
        }
        let x = self;
        if signed {
            let mantissa = x & 0x0fff_ffff;
            let meta = x >> 28u32;
            let scale = meta & 7;
            let sign = meta >> 3u32;
            proof {
                lemma_layout_read(x, x, meta);
            }
            (sign as u8, scale, mantissa)
        } else {
            let mantissa = x & 0x1fff_ffff;
            let scale = x >> 29u32;
            proof {
                lemma_layout_read(x, x, 0);
            }
            (0, scale, mantissa)
        }
    }

    fn pack_fields(sign: u8, scale: u32, man: Self, signed: bool) -> (r: Self) {
        proof {
            lemma_pow2_values();
            lemma_layout_write(sign, scale, man);
        }
        if signed {
            let meta = ((sign as u32) << 3u32) | scale;
            let r = (meta << 28u32) | man;
            r
        } else {
            let r = (scale << 29u32) | man;
            r
        }
    }

    proof fn lemma_fields_determine(x: Self, y: Self, signed: bool) {
        lemma_layout_read(x, y, 0);
    }

    fn clear_sign_bit(self) -> (r: Self) {
        proof {
            lemma_pow2_values();
            lemma_layout_read(self, self, 0);
        }
        let x = self;
        x << 1u32 >> 1u32
    }

    fn flip_sign_bit(self) -> (r: Self) {
        proof {
            lemma_pow2_values();
            lemma_layout_read(self, self, 0);
        }
        let x = self;
        x ^ 0x8000_0000
    }

    fn to_signed(self, sign: u8) -> (r: i32) {
        proof {
            lemma_pow2_values();
        }
        let i = self as i32;  // self as mantissa fits 31-bits
        if sign == 0 {
            i
        } else {
            -i
        }
    }

    fn from_signed(s: i32) -> (r: (Self, u8)) {
        if s < 0 {
            ((0i64 - s as i64) as u32, 1)
        } else {
            (s as u32, 0)
        }
    }

    fn as_u32(self) -> (r: u32) {
        self
    }

    fn from_u32(n: u32) -> (r: Self) {
        n
    }

    fn leading_zeros(self) -> (r: u32) {
        proof {
            lemma_u64_leading_zeros(self as u64);
            lemma_pow2_values();
            lemma_bit_len_le(self as nat, 32);
        }
        (self as u64).leading_zeros() - 32
    }

    fn int_eq(self, o: Self) -> (r: bool) {
        self == o
    }

    fn int_lt(self, o: Self) -> (r: bool) {
        self < o
    }

    fn int_add(self, o: Self) -> (r: Self) {
        proof {
            lemma_pow2_values();
        }
        self + o
    }

    fn checked_add_int(self, o: Self) -> (r: Option<Self>) {
        proof {
            lemma_pow2_values();
        }
        self.checked_add(o)
    }

    fn shl_bits(self, k: u32) -> (r: Self) {
        proof {
            lemma_pow2_values();
            lemma_shl_is_mul(self, k);
        }
        self << k
    }

    fn int_sub(self, o: Self) -> (r: Self) {
        self - o
    }

    // caller must make sure that no overflow
    fn mul_exp(self, iexp: u32) -> (r: Self) {
        proof {
            lemma_pow2_values();
        }
        self * get_exp(iexp)
    }

    // we check the overflow
    fn checked_mul_exp(self, iexp: u32) -> (r: Option<Self>) {
        proof {
            lemma_pow2_values();
        }
        self.checked_mul(get_exp(iexp))
    }

    fn div_exp(self, iexp: u32) -> (r: Self) {
        proof {
            lemma_pow2_values();
            lemma_pow10_values();
            lemma_pow10_mono(iexp as nat, 9);
        }
        let exp = get_exp(iexp);
        let n = self + exp / 2;  // no addition overflow: self is a mantissa
        proof {
            if iexp >= 1 {
                lemma_div_round_add_half(self as nat, iexp as nat);
            }
        }
        n / exp
    }

    open spec fn spec_mul_scale(a: nat, b: nat, sum_scale: nat, signed: bool) -> nat {
        let mb = u32::spec_man_bits(signed);
        if bit_len(a) + bit_len(b) <= mb {
            if sum_scale <= 7 {
                sum_scale
            } else {
                7
            }
        } else {
            (sum_scale - mul_clear_digits(a * b, mb, sum_scale, 7)) as nat
        }
    }

    open spec fn spec_mul_fits(a: nat, b: nat, sum_scale: nat, signed: bool) -> bool {
        div_round(a * b, pow10(sum_scale)) <= u32::spec_max_man(signed)
    }

    open spec fn spec_div(n: nat, d: nat, s_scale: nat, d_scale: nat, signed: bool) -> Option<
        (nat, nat),
    > {
        quotient_at(
            n,
            d,
            s_scale,
            d_scale,
            one_step_scale(n, d, (7 - sat_sub(s_scale, d_scale)) as nat, u32::spec_man_bits(signed)),
            u32::spec_max_man(signed),
        )
    }

    proof fn lemma_mul_scale_bound(a: nat, b: nat, sum_scale: nat, signed: bool) {
        lemma_pow2_values();
        lemma_pow10_values();
        let mb = u32::spec_man_bits(signed);
        if bit_len(a) + bit_len(b) > mb {
            crate::math::lemma_mul_clear_few(a, b, mb, sum_scale, 7, 9);
        }
    }

    proof fn lemma_mul_spec_symmetric(a: nat, b: nat, sum_scale: nat, signed: bool) {
        lemma_mul_is_commutative(a as int, b as int);
    }

    #[inline]
    fn mul_with_sum_scale(self, right: Self, sum_scale: u32, signed: bool) -> (r: Option<(Self, u32)>) {
        proof {
            lemma_pow10_pos(sum_scale as nat);
            if (self as nat) * (right as nat) <= u32::spec_max_man(signed) * pow10(sum_scale as nat) {
                lemma_div_round_le(
                    (self as nat) * (right as nat),
                    pow10(sum_scale as nat),
                    u32::spec_max_man(signed),
                );
            }
            lemma_pow2_values();
            lemma_pow10_values();
            lemma_u64_leading_zeros(self as u64);
            lemma_u64_leading_zeros(right as u64);
        }
        if UnderlyingInt::leading_zeros(self) + UnderlyingInt::leading_zeros(right) >= 32 + meta_bits(signed) {
            // fast path, keep the code simple
            proof {
                lemma_mul_bit_len(self as nat, right as nat);
                lemma_pow2_mono(bit_len(self as nat) + bit_len(right as nat), u32::spec_man_bits(signed));
                lemma_pow10_pos(sum_scale as nat);
                assert(self * right <= self * right * pow10(sum_scale as nat)) by (nonlinear_arith)
                    requires
                        pow10(sum_scale as nat) >= 1,
                ;
                lemma_div_round_le(
                    (self * right) as nat,
                    pow10(sum_scale as nat),
                    (self * right) as nat,
                );
            }
            let p = self * right;
            if sum_scale <= 7 {
                Some((p, sum_scale))
            } else {
                proof {
                    lemma_pow10_mono((sum_scale - 7) as nat, 7);
                }
                proof {
                    let k = pow10((sum_scale - 7) as nat);
                    lemma_pow10_pos((sum_scale - 7) as nat);
                    assert((self as nat) * (right as nat) <= (self as nat) * (right as nat) * k)
                        by (nonlinear_arith)
                        requires
                            k >= 1,
                    ;
                    lemma_div_round_le((self as nat) * (right as nat), k, (self as nat) * (right as nat));
                }
                Some((p.div_exp(sum_scale - 7), 7))
            }
        } else {
            // full path
            mul_with_sum_scale_full(self, right, sum_scale, signed)
        }
    }

    #[inline]
    #[verifier::rlimit(40)]
    fn div_with_scales(self, d: Self, s_scale: u32, d_scale: u32, signed: bool) -> (r: Option<(Self, u32)>) {
        let n = self;
        let diff_scale = s_scale.saturating_sub(d_scale);
        let max_scale = 7 - diff_scale;

        let (mut q, mut r, mut act_scale) = div_with_scales_full(n, d, max_scale, signed);
        let ghost act0 = act_scale;
        let ghost q_0 = q;
        let ghost r_0 = r;
        let ghost branch: nat = 2;

        // increase the scale if d_scale > s_scale
        let min_scale = d_scale.saturating_sub(s_scale);
        if act_scale < min_scale {
            proof {
                lemma_pow10_add(act_scale as nat, (min_scale - act_scale) as nat);
                assert((q as nat * d as nat + r as nat) * pow10((min_scale - act_scale) as nat)
                    == (n as nat) * pow10(min_scale as nat)) by (nonlinear_arith)
                    requires
                        q as nat * d as nat + r as nat == n as nat * pow10(act_scale as nat),
                        pow10(min_scale as nat) == pow10(act_scale as nat) * pow10(
                            (min_scale - act_scale) as nat,
                        ),
                ;
                // the remainder is small enough to take the missing digits
                lemma_pow10_values();
                lemma_pow10_add(act_scale as nat + 1, (min_scale - act_scale) as nat);
                lemma_pow10_mono(min_scale as nat + 1, 8);
                assert(r as nat * pow10((min_scale - act_scale) as nat) <= u32::MAX)
                    by (nonlinear_arith)
                    requires
                        r < 2 * pow10(act_scale as nat + 1),
                        pow10(act_scale as nat + 1) * pow10((min_scale - act_scale) as nat) == pow10(
                            min_scale as nat + 1,
                        ),
                        pow10(min_scale as nat + 1) <= 100000000,
                ;
                assert(div_round(n as nat * pow10(min_scale as nat), d as nat) >= (n as nat
                    * pow10(min_scale as nat)) / (d as nat));
            }
            match increase_scale(q, r, d, min_scale - act_scale, signed) {
                Some((q2, r2)) => {
                    proof {
                        lemma_div_round_of_qr(
                            n as nat * pow10(min_scale as nat),
                            d as nat,
                            q2 as nat,
                            r2 as nat,
                        );
                        branch = 0;
                    }
                    q = q2;
                    r = r2;
                },
                None => {
                    return None;
                },
            }
            act_scale = min_scale;
        }
        // reduce the scale if division exactly
         else if r == 0 && act_scale > min_scale {
            let (q0, red_scale) = reduce_scale(q, act_scale - min_scale);
            proof {
                lemma_pow10_add((act_scale - red_scale) as nat, red_scale as nat);
                lemma_pow10_pos(red_scale as nat);
                lemma_div_cancel(
                    q0 as nat,
                    d as nat,
                    n as nat,
                    pow10((act_scale - red_scale) as nat),
                    pow10(red_scale as nat),
                );
                assert(q0 <= q) by (nonlinear_arith)
                    requires
                        q0 as nat * pow10(red_scale as nat) == q as nat,
                        pow10(red_scale as nat) >= 1,
                ;
            }
            proof {
                lemma_div_round_of_qr(q as nat, pow10(red_scale as nat), q0 as nat, 0);
                branch = 1;
            }
            q = q0;
            act_scale -= red_scale;
        }
        // round
        proof {
            lemma_div_round_of_qr(n as nat * pow10(act_scale as nat), d as nat, q as nat, r as nat);
            lemma_pow2_values();
        }
        if r * 2 >= d {
            if q == max_mantissa(signed) {
                return None;
            }
            q += 1;
        }
        proof {
            // no smaller scale could have held the quotient either
            let e = (diff_scale + act_scale - min_scale + d_scale - s_scale) as nat;
            lemma_pow10_mono(min_scale as nat, e);
            assert(n as nat * pow10(min_scale as nat) <= n as nat * pow10(e)) by (nonlinear_arith)
                requires
                    pow10(min_scale as nat) <= pow10(e),
            ;
            lemma_div_round_mono(n as nat * pow10(min_scale as nat), n as nat * pow10(e), d as nat);
        }
        proof {
            let t = n as nat * pow10(act0 as nat);
            assert(branch == 2 ==> q_0 == t / (d as nat) && r_0 == t % (d as nat));
            if branch == 1 {
                assert(r_0 == 0 && act0 > min_scale);
                if q_0 == 0 {
                    assert(tz10(0) == 0);
                }
            }
        }
        Some((q, diff_scale + act_scale - min_scale))
    }

    fn div_rem_exp(self, iexp: u32) -> (r: (Self, Self)) {
        let exp = get_exp(iexp);
        proof {
            lemma_pow10_pos(iexp as nat);
        }
        let q = self / exp;
        proof {
            lemma_fundamental_div_mod(self as int, exp as int);
        }
        (q, self % exp)
    }
}

} // verus!
