//! Integer facts the decimal arithmetic rests on: powers of ten and two,
//! bit lengths, and rounding division.
use vstd::arithmetic::div_mod::*;
use vstd::arithmetic::mul::*;
use vstd::prelude::*;

verus! {

/// `10^n`.
pub open spec fn pow10(n: nat) -> nat
    decreases n,
{
    if n == 0 {
        1
    } else {
        10 * pow10((n - 1) as nat)
    }
}

/// `2^n`.
pub open spec fn pow2n(n: nat) -> nat
    decreases n,
{
    if n == 0 {
        1
    } else {
        2 * pow2n((n - 1) as nat)
    }
}

/// Number of bits needed to write `n` in binary (0 for 0).
pub open spec fn bit_len(n: nat) -> nat
    decreases n,
{
    if n == 0 {
        0
    } else {
        1 + bit_len(n / 2)
    }
}

/// How many decimal digits fit in `f` bits, as the library estimates it.
pub open spec fn btd(f: nat) -> nat {
    (f * 1233) / 4096
}

/// `n / d` rounded half up.
pub open spec fn div_round(n: nat, d: nat) -> nat {
    if 2 * (n % d) >= d {
        n / d + 1
    } else {
        n / d
    }
}

pub proof fn lemma_pow10_pos(n: nat)
    ensures
        pow10(n) >= 1,
    decreases n,
{
    if n > 0 {
        lemma_pow10_pos((n - 1) as nat);
    }
}

pub proof fn lemma_pow2_pos(n: nat)
    ensures
        pow2n(n) >= 1,
    decreases n,
{
    if n > 0 {
        lemma_pow2_pos((n - 1) as nat);
    }
}

pub proof fn lemma_pow10_add(a: nat, b: nat)
    ensures
        pow10(a + b) == pow10(a) * pow10(b),
    decreases a,
{
    if a > 0 {
        lemma_pow10_add((a - 1) as nat, b);
        let x = pow10((a - 1) as nat);
        let y = pow10(b);
        assert(pow10(a + b) == 10 * pow10((a - 1 + b) as nat));
        assert(10 * (x * y) == (10 * x) * y) by (nonlinear_arith);
    } else {
        assert(1 * pow10(b) == pow10(b));
    }
}

pub proof fn lemma_pow2_add(a: nat, b: nat)
    ensures
        pow2n(a + b) == pow2n(a) * pow2n(b),
    decreases a,
{
    if a > 0 {
        lemma_pow2_add((a - 1) as nat, b);
        let x = pow2n((a - 1) as nat);
        let y = pow2n(b);
        assert(pow2n(a + b) == 2 * pow2n((a - 1 + b) as nat));
        assert(2 * (x * y) == (2 * x) * y) by (nonlinear_arith);
    } else {
        assert(1 * pow2n(b) == pow2n(b));
    }
}

pub proof fn lemma_pow10_mono(a: nat, b: nat)
    requires
        a <= b,
    ensures
        pow10(a) <= pow10(b),
{
    lemma_pow10_add(a, (b - a) as nat);
    lemma_pow10_pos(a);
    lemma_pow10_pos((b - a) as nat);
    lemma_mul_increases(pow10((b - a) as nat) as int, pow10(a) as int);
}

pub proof fn lemma_pow2_mono(a: nat, b: nat)
    requires
        a <= b,
    ensures
        pow2n(a) <= pow2n(b),
{
    lemma_pow2_add(a, (b - a) as nat);
    lemma_pow2_pos(a);
    lemma_pow2_pos((b - a) as nat);
    lemma_mul_increases(pow2n((b - a) as nat) as int, pow2n(a) as int);
}

/// `pow10(n)` is even for `n >= 1`.
pub proof fn lemma_pow10_even(n: nat)
    requires
        n >= 1,
    ensures
        pow10(n) % 2 == 0,
        pow10(n) == 2 * (pow10(n) / 2),
{
    assert(pow10(n) == 10 * pow10((n - 1) as nat));
}

/// The bit length brackets a number between powers of two.
pub proof fn lemma_bit_len(n: nat)
    ensures
        n < pow2n(bit_len(n)),
        n > 0 ==> pow2n((bit_len(n) - 1) as nat) <= n,
    decreases n,
{
    if n > 0 {
        lemma_bit_len(n / 2);
    }
}

/// A number below `2^k` has at most `k` bits.
pub proof fn lemma_bit_len_le(n: nat, k: nat)
    requires
        n < pow2n(k),
    ensures
        bit_len(n) <= k,
    decreases n,
{
    if n > 0 {
        if k == 0 {
            assert(false);
        } else {
            lemma_bit_len_le(n / 2, (k - 1) as nat);
        }
    }
}

/// A number of at least `2^k` has more than `k` bits.
pub proof fn lemma_bit_len_gt(n: nat, k: nat)
    requires
        n >= pow2n(k),
    ensures
        bit_len(n) > k,
{
    lemma_bit_len(n);
    if bit_len(n) <= k {
        lemma_pow2_mono(bit_len(n), k);
    }
}

/// A quotient below `k` means a dividend below `k * d`.
pub proof fn lemma_div_lt_bound(n: nat, d: nat, k: nat)
    requires
        d > 0,
        n / d < k,
    ensures
        n < k * d,
{
    lemma_fundamental_div_mod(n as int, d as int);
    let q = n / d;
    assert(d * (q + 1) == d * q + d) by (nonlinear_arith);
    assert(d * (q + 1) <= d * k) by (nonlinear_arith)
        requires
            q + 1 <= k,
            d > 0,
    ;
    assert(k * d == d * k) by (nonlinear_arith);
}

/// Division with rounding half up, written as the library computes it.
pub proof fn lemma_div_round_add_half(n: nat, k: nat)
    requires
        k >= 1,
    ensures
        (n + pow10(k) / 2) / pow10(k) == div_round(n, pow10(k)),
{
    let d = pow10(k);
    lemma_pow10_even(k);
    lemma_pow10_pos(k);
    let h = d / 2;
    lemma_fundamental_div_mod(n as int, d as int);
    let q = n / d;
    let r = n % d;
    if 2 * r >= d {
        assert(n + h == d * (q + 1) + (r - h)) by (nonlinear_arith)
            requires
                n == d * q + r,
                d == 2 * h,
        ;
        lemma_div_multiples_vanish_fancy((q + 1) as int, (r - h) as int, d as int);
        assert((n + h) / d == q + 1);
    } else {
        assert(n + h == d * q + (r + h)) by (nonlinear_arith)
            requires
                n == d * q + r,
        ;
        lemma_div_multiples_vanish_fancy(q as int, (r + h) as int, d as int);
        assert((n + h) / d == q);
    }
}

/// `div_round` with divisor one is the identity.
pub proof fn lemma_div_round_one(n: nat)
    ensures
        div_round(n, 1) == n,
{
}

/// Rounding-dividing a value no larger than `m * d` gives at most `m`.
pub proof fn lemma_div_round_le(n: nat, d: nat, m: nat)
    requires
        d > 0,
        n <= m * d,
    ensures
        div_round(n, d) <= m,
{
    lemma_fundamental_div_mod(n as int, d as int);
    lemma_div_is_ordered(n as int, (m * d) as int, d as int);
    lemma_div_by_multiple(m as int, d as int);
    if n / d == m {
        assert(n % d == 0) by (nonlinear_arith)
            requires
                n == d * (n / d) + n % d,
                n <= m * d,
                n / d == m,
                n % d >= 0,
        ;
    }
}

/// Rounding-division is monotonic in the dividend.
pub proof fn lemma_div_round_mono(a: nat, b: nat, d: nat)
    requires
        d > 0,
        a <= b,
    ensures
        div_round(a, d) <= div_round(b, d),
{
    lemma_fundamental_div_mod(a as int, d as int);
    lemma_fundamental_div_mod(b as int, d as int);
    lemma_div_is_ordered(a as int, b as int, d as int);
    if a / d == b / d {
        let q = a / d;
        let ra = a % d;
        let rb = b % d;
        assert(a == d * q + ra);
        assert(b == d * q + rb);
        assert(ra <= rb);
    }
}

/// `div_round(n, d) <= m` exactly when `2n < (2m + 1) d`.
pub proof fn lemma_div_round_le_iff(n: nat, d: nat, m: nat)
    requires
        d > 0,
    ensures
        (div_round(n, d) <= m) == (2 * n < (2 * m + 1) * d),
{
    lemma_fundamental_div_mod(n as int, d as int);
    let q = n / d;
    let r = n % d;
    assert(n == d * q + r);
    assert(r < d);
    if 2 * r >= d {
        assert((q + 1 <= m) == (2 * n < (2 * m + 1) * d)) by (nonlinear_arith)
            requires
                n == d * q + r,
                2 * r >= d,
                r < d,
                d > 0,
        ;
    } else {
        assert((q <= m) == (2 * n < (2 * m + 1) * d)) by (nonlinear_arith)
            requires
                n == d * q + r,
                2 * r < d,
                d > 0,
        ;
    }
}

/// Dividing by more rounds to no more.
pub proof fn lemma_div_round_mono_divisor(n: nat, d1: nat, d2: nat)
    requires
        0 < d1 <= d2,
    ensures
        div_round(n, d2) <= div_round(n, d1),
{
    let m = div_round(n, d1);
    lemma_div_round_le_iff(n, d1, m);
    lemma_div_round_le_iff(n, d2, m);
    assert((2 * m + 1) * d1 <= (2 * m + 1) * d2) by (nonlinear_arith)
        requires
            d1 <= d2,
    ;
}

/// Rounding a product of `mb + bits` bits by a power of ten above `2^bits`
/// leaves a number below `2^mb`, when `bits <= mb`.
pub proof fn lemma_round_fits(p: nat, mb: nat, bits: nat, c: nat)
    requires
        p < pow2n(mb + bits),
        pow2n(bits) < pow10(c),
        bits <= mb,
        c >= 1,
    ensures
        div_round(p, pow10(c)) < pow2n(mb),
{
    let d = pow10(c);
    let t = pow2n(bits);
    let m = pow2n(mb);
    lemma_pow2_add(mb, bits);
    lemma_pow2_mono(bits, mb);
    lemma_pow2_pos(bits);
    lemma_pow10_even(c);
    lemma_div_round_le_iff(p, d, (m - 1) as nat);
    // d >= t + 1; if d < 2t then d - t >= 1 and d / 2 < t <= m
    if d >= 2 * t {
        assert(2 * p < (2 * (m - 1) + 1) * d) by (nonlinear_arith)
            requires
                p < m * t,
                d >= 2 * t,
                t >= 1,
                m >= t,
        ;
    } else {
        assert(2 * p < (2 * (m - 1) + 1) * d) by (nonlinear_arith)
            requires
                p < m * t,
                d < 2 * t,
                d >= t + 1,
                t >= 1,
                m >= t,
        ;
    }
}

/// A product of at least `mb + bits` bits, divided by `10^s` with
/// `10^(s+1) <= 2^bits`, rounds to `2^mb` or more.
pub proof fn lemma_round_too_big(p: nat, mb: nat, bits: nat, s: nat)
    requires
        mb >= 1,
        pow2n((mb + bits - 1) as nat) <= p,
        pow10(s + 1) <= pow2n(bits),
    ensures
        div_round(p, pow10(s)) >= pow2n(mb),
{
    let d = pow10(s);
    let m = pow2n(mb);
    lemma_pow10_pos(s);
    lemma_pow2_add((mb - 1) as nat, bits);
    assert(pow2n(mb) == 2 * pow2n((mb - 1) as nat));
    assert(pow10(s + 1) == 10 * d);
    lemma_div_round_le_iff(p, d, (m - 1) as nat);
    assert(2 * p >= (2 * (m - 1) + 1) * d) by (nonlinear_arith)
        requires
            p >= pow2n((mb - 1) as nat) * pow2n(bits),
            pow2n(bits) >= 10 * d,
            m == 2 * pow2n((mb - 1) as nat),
            d >= 1,
    ;
}

/// The rounded quotient of a product of `mb + bits` bits by `10^c`, where
/// `2^bits < 10^(c+1)` and `10^c <= 10 * 2^mb`, is below `16 * 2^mb`.
pub proof fn lemma_round_quotient_bound(p: nat, mb: nat, bits: nat, c: nat)
    requires
        p < pow2n(mb + bits),
        pow2n(bits) < pow10(c + 1),
        pow10(c) <= 10 * pow2n(mb),
    ensures
        (p + pow10(c) / 2) / pow10(c) < 16 * pow2n(mb),
{
    let d = pow10(c);
    let m = pow2n(mb);
    lemma_pow10_pos(c);
    lemma_pow2_add(mb, bits);
    assert(pow10(c + 1) == 10 * d);
    let h = d / 2;
    assert(p + h < 16 * m * d) by (nonlinear_arith)
        requires
            p < m * pow2n(bits),
            pow2n(bits) < 10 * d,
            h <= 5 * m,
            d >= 1,
            m >= 1,
    ;
    let k = (16 * m) as int;
    lemma_fundamental_div_mod((p + h) as int, d as int);
    let q = (p + h) / d;
    assert(q < k) by (nonlinear_arith)
        requires
            p + h == d * q + (p + h) % d,
            (p + h) % d >= 0,
            p + h < k * d,
            d >= 1,
    ;
}

/// `x - y`, or 0 when `y` is larger.
pub open spec fn sat_sub(x: nat, y: nat) -> nat {
    if x >= y {
        (x - y) as nat
    } else {
        0
    }
}

/// One more than the decimal digits of the bits by which `p` exceeds `mb` bits.
pub open spec fn ceil_digits(p: nat, mb: nat) -> nat {
    btd(sat_sub(bit_len(p), mb)) + 1
}

/// [`ceil_digits`], but at least `ss - max_scale`.
pub open spec fn clear_digits_min(p: nat, mb: nat, ss: nat, max_scale: nat) -> nat {
    let c0 = ceil_digits(p, mb);
    if ss > max_scale && (ss - max_scale) as nat > c0 {
        (ss - max_scale) as nat
    } else {
        c0
    }
}

/// Digits the multiplication clears from a product `p` of mantissas at scale
/// `ss` when it does not obviously fit in `mb` bits: one more than the digits
/// of its excess bits (a ceiling, so possibly one too many), at least
/// `ss - max_scale`, and `ss` when the ceiling is just one above it.
pub open spec fn mul_clear_digits(p: nat, mb: nat, ss: nat, max_scale: nat) -> nat {
    let c1 = clear_digits_min(p, mb, ss, max_scale);
    if c1 == ss + 1 {
        ss
    } else {
        c1
    }
}

/// What the digit clearing of the multiplication gives: either the product
/// does not fit even at scale 0, or the digits are in range and rounding by
/// them gives a quotient below `16 * 2^mb`, below `2^mb` unless they are all
/// of `ss`.
pub proof fn lemma_mul_clear(p: nat, mb: nat, ss: nat, max_scale: nat, max_exp: nat)
    requires
        mb >= 1,
        ss <= 2 * max_scale,
        max_scale <= max_exp,
        pow10(max_scale) <= 10 * pow2n(mb),
        btd(mb + 1) >= max_scale,
        btd(mb) + 1 <= max_exp,
        bit_len(p) <= 2 * mb || ss <= max_scale,
        bit_len(p) <= mb + 130,
    ensures
        clear_digits_min(p, mb, ss, max_scale) > ss + 1 ==> div_round(p, pow10(ss)) >= pow2n(
            mb,
        ),
        clear_digits_min(p, mb, ss, max_scale) <= ss + 1 ==> ({
            let c = mul_clear_digits(p, mb, ss, max_scale);
            &&& c <= ss
            &&& c <= max_exp
            &&& (p + pow10(c) / 2) / pow10(c) == div_round(p, pow10(c))
            &&& (p + pow10(c) / 2) / pow10(c) < 16 * pow2n(mb)
            &&& c < ss ==> div_round(p, pow10(c)) < pow2n(mb)
            &&& div_round(p, pow10(ss)) <= div_round(p, pow10(c))
        }),
{
    let bits = sat_sub(bit_len(p), mb);
    let c0 = ceil_digits(p, mb);
    let c1 = clear_digits_min(p, mb, ss, max_scale);
    let c = mul_clear_digits(p, mb, ss, max_scale);
    assert(bits <= 130);
    lemma_btd_bounds(bits);
    lemma_bit_len(p);
    lemma_pow2_add(mb, bits);
    if bit_len(p) < mb {
        assert(bits == 0);
        lemma_pow2_mono(bit_len(p), mb);
        assert(p < pow2n(mb + bits));
    } else {
        assert(mb + bits == bit_len(p));
        assert(p < pow2n(mb + bits));
    }
    if bits > mb {
        assert(btd(bits) >= btd(mb + 1)) by (nonlinear_arith)
            requires
                bits >= mb + 1,
        ;
    }
    if c1 > ss + 1 {
        // only the ceiling can be that big
        assert(btd(bits) >= ss + 1);
        assert(bits >= 1);
        assert(bit_len(p) == mb + bits);
        assert(p > 0);
        assert(pow2n((mb + bits - 1) as nat) <= p);
        lemma_pow10_mono(ss + 1, btd(bits));
        lemma_round_too_big(p, mb, bits, ss);
    } else {
        assert(bits <= mb || ss <= max_scale) by {
            if bit_len(p) <= 2 * mb {
            }
        }
        if bits <= mb {
            assert(btd(bits) <= btd(mb)) by (nonlinear_arith)
                requires
                    bits <= mb,
            ;
        }
        assert(c <= max_exp);
        lemma_pow10_mono(btd(bits) + 1, c + 1);
        if c <= max_scale {
            lemma_pow10_mono(c, max_scale);
        } else {
            lemma_pow10_mono(c, btd(bits) + 1);
            lemma_pow2_mono(bits, mb);
        }
        lemma_round_quotient_bound(p, mb, bits, c);
        if c >= 1 {
            lemma_div_round_add_half(p, c);
        } else {
            assert(pow10(0) == 1);
            lemma_div_round_one(p);
        }
        if c < ss {
            if bits > mb {
                assert(false);
            }
            lemma_pow10_mono(c0, c);
            lemma_round_fits(p, mb, bits, c);
        }
        lemma_pow10_pos(c);
        lemma_pow10_mono(c, ss);
        lemma_div_round_mono_divisor(p, pow10(c), pow10(ss));
    }
}

/// Digits to clear from a product `p` that fits in the underlying integer
/// but maybe not in the mantissa (largest `m`): the fewest (up to 3) that
/// bring it to at most `m`, but at least `ss - max_scale`.
pub open spec fn big_clear_digits(p: nat, m: nat, ss: nat, max_scale: nat) -> nat {
    let c0: nat = if p > m * 100 {
        3
    } else if p > m * 10 {
        2
    } else if p > m {
        1
    } else {
        0
    };
    if ss > max_scale && (ss - max_scale) as nat > c0 {
        (ss - max_scale) as nat
    } else {
        c0
    }
}

/// The digits the multiplication clears from a product `p` that fits in the
/// underlying integer: [`big_clear_digits`], or all of `ss` when that is one
/// more than `ss` (the count ignores rounding, which may still bring the
/// product in).
pub open spec fn big_mul_clear_digits(p: nat, m: nat, ss: nat, max_scale: nat) -> nat {
    let c = big_clear_digits(p, m, ss, max_scale);
    if c == ss + 1 {
        ss
    } else {
        c
    }
}

/// A product is below the product of the powers of two of the bit lengths.
pub proof fn lemma_mul_bit_len(a: nat, b: nat)
    ensures
        a * b < pow2n(bit_len(a) + bit_len(b)),
        bit_len(a * b) <= bit_len(a) + bit_len(b),
{
    lemma_bit_len(a);
    lemma_bit_len(b);
    lemma_pow2_add(bit_len(a), bit_len(b));
    assert(a * b < pow2n(bit_len(a)) * pow2n(bit_len(b))) by (nonlinear_arith)
        requires
            a < pow2n(bit_len(a)),
            b < pow2n(bit_len(b)),
    ;
    lemma_bit_len_le(a * b, bit_len(a) + bit_len(b));
}

/// Number of trailing decimal zeros of `n` (0 for 0).
pub open spec fn tz10(n: nat) -> nat
    decreases n,
{
    if n > 0 && n % 10 == 0 {
        1 + tz10(n / 10)
    } else {
        0
    }
}

/// Quotient and remainder: `(n / d) * d + n % d == n`.
pub proof fn lemma_qr(n: nat, d: nat)
    requires
        d > 0,
    ensures
        (n / d) * d + n % d == n,
        n % d < d,
{
    lemma_fundamental_div_mod(n as int, d as int);
    let q = n / d;
    assert(d * q == q * d) by (nonlinear_arith);
}

/// The quotient of `n <= r * e` with `r < d` by `d` is below `e`.
pub proof fn lemma_quot_below(q: nat, d: nat, rem: nat, r: nat, e: nat)
    requires
        q * d + rem == r * e,
        r < d,
        e > 0,
    ensures
        q < e,
{
    assert(r * e < d * e) by (nonlinear_arith)
        requires
            r < d,
            e > 0,
    ;
    assert(q * d < e * d) by (nonlinear_arith)
        requires
            q * d + rem == r * e,
            r * e < d * e,
    ;
    assert(q < e) by (nonlinear_arith)
        requires
            q * d < e * d,
    ;
}

/// Cancelling a common factor: from `q0 * c * d == n * a * c` follows `q0 * d == n * a`.
pub proof fn lemma_div_cancel(q0: nat, d: nat, n: nat, a: nat, c: nat)
    requires
        c > 0,
        (q0 * c) * d == n * (a * c),
    ensures
        q0 * d == n * a,
{
    assert(c * (q0 * d) == c * (n * a)) by (nonlinear_arith)
        requires
            (q0 * c) * d == n * (a * c),
    ;
    lemma_mul_equality_converse(c as int, (q0 * d) as int, (n * a) as int);
}

/// A quotient and remainder determine the rounded quotient.
pub proof fn lemma_div_round_of_qr(n: nat, d: nat, q: nat, r: nat)
    requires
        q * d + r == n,
        r < d,
    ensures
        n / d == q,
        n % d == r,
        div_round(n, d) == (if 2 * r >= d {
            q + 1
        } else {
            q
        }),
{
    lemma_fundamental_div_mod_converse(n as int, d as int, q as int, r as int);
}

/// A positive `n` has at least `j` trailing zeros exactly when `10^j` divides it;
/// then `n / 10^j` has the rest of them.
pub proof fn lemma_tz10(n: nat, j: nat)
    requires
        n > 0,
    ensures
        (tz10(n) >= j) == (n % pow10(j) == 0),
        n % pow10(j) == 0 ==> tz10(n / pow10(j)) == tz10(n) - j,
        n % pow10(j) == 0 ==> n / pow10(j) > 0,
    decreases j,
{
    lemma_pow10_pos(j);
    if j > 0 {
        let p = pow10((j - 1) as nat);
        lemma_pow10_pos((j - 1) as nat);
        assert(pow10(j) == 10 * p);
        if n % 10 == 0 {
            lemma_fundamental_div_mod(n as int, 10);
            let m = n / 10;
            assert(m > 0);
            lemma_tz10(m, (j - 1) as nat);
            // n % (10 p) == 0 <==> m % p == 0
            lemma_mod_mod_mul(n, m, p);
            if m % p == 0 {
                lemma_div_div(n, m, p);
            }
        } else {
            // not divisible by 10, so not by 10^j
            lemma_fundamental_div_mod(n as int, (10 * p) as int);
            let k = n / (10 * p);
            if n % (10 * p) == 0 {
                assert(n == 10 * (p * k)) by (nonlinear_arith)
                    requires
                        n == (10 * p) * k,
                ;
                lemma_mod_multiples_basic((p * k) as int, 10);
                assert(false);
            }
        }
    }
}

/// With `n = 10 m`: `n` is a multiple of `10 p` exactly when `m` is one of `p`.
proof fn lemma_mod_mod_mul(n: nat, m: nat, p: nat)
    requires
        n == 10 * m + 0,
        p > 0,
    ensures
        (n % (10 * p) == 0) == (m % p == 0),
{
    lemma_fundamental_div_mod(m as int, p as int);
    lemma_fundamental_div_mod(n as int, (10 * p) as int);
    let a = m / p;
    let b = m % p;
    assert(n == (10 * p) * a + 10 * b) by (nonlinear_arith)
        requires
            n == 10 * m,
            m == p * a + b,
    ;
    assert(10 * b < 10 * p);
    lemma_fundamental_div_mod_converse(n as int, (10 * p) as int, a as int, (10 * b) as int);
}

/// `(10 m) / (10 p) == m / p` when `p` divides `m`.
proof fn lemma_div_div(n: nat, m: nat, p: nat)
    requires
        n == 10 * m + 0,
        p > 0,
        m % p == 0,
    ensures
        n / (10 * p) == m / p,
{
    lemma_fundamental_div_mod(m as int, p as int);
    let a = m / p;
    assert(n == (10 * p) * a) by (nonlinear_arith)
        requires
            n == 10 * m,
            m == p * a + 0,
    ;
    lemma_fundamental_div_mod_converse(n as int, (10 * p) as int, a as int, 0);
}

/// Values of the powers of ten that fit in 128 bits, and one more.
pub proof fn lemma_pow10_values()
    ensures
        pow10(0) == 1,
        pow10(1) == 10,
        pow10(2) == 100,
        pow10(3) == 1000,
        pow10(4) == 10000,
        pow10(5) == 100000,
        pow10(6) == 1000000,
        pow10(7) == 10000000,
        pow10(8) == 100000000,
        pow10(9) == 1000000000,
        pow10(10) == 10000000000,
        pow10(11) == 100000000000,
        pow10(12) == 1000000000000,
        pow10(13) == 10000000000000,
        pow10(14) == 100000000000000,
        pow10(15) == 1000000000000000,
        pow10(16) == 10000000000000000,
        pow10(17) == 100000000000000000,
        pow10(18) == 1000000000000000000,
        pow10(19) == 10000000000000000000,
        pow10(20) == 100000000000000000000,
        pow10(21) == 1000000000000000000000,
        pow10(22) == 10000000000000000000000,
        pow10(23) == 100000000000000000000000,
        pow10(24) == 1000000000000000000000000,
        pow10(25) == 10000000000000000000000000,
        pow10(26) == 100000000000000000000000000,
        pow10(27) == 1000000000000000000000000000,
        pow10(28) == 10000000000000000000000000000,
        pow10(29) == 100000000000000000000000000000,
        pow10(30) == 1000000000000000000000000000000,
        pow10(31) == 10000000000000000000000000000000,
        pow10(32) == 100000000000000000000000000000000,
        pow10(33) == 1000000000000000000000000000000000,
        pow10(34) == 10000000000000000000000000000000000,
        pow10(35) == 100000000000000000000000000000000000,
        pow10(36) == 1000000000000000000000000000000000000,
        pow10(37) == 10000000000000000000000000000000000000,
        pow10(38) == 100000000000000000000000000000000000000,
        pow10(39) == 1000000000000000000000000000000000000000,
{
    assert(pow10(0) == 1);
    assert(pow10(1) == 10);
    assert(pow10(2) == 100);
    assert(pow10(3) == 1000);
    assert(pow10(4) == 10000);
    assert(pow10(5) == 100000);
    assert(pow10(6) == 1000000);
    assert(pow10(7) == 10000000);
    assert(pow10(8) == 100000000);
    assert(pow10(9) == 1000000000);
    assert(pow10(10) == 10000000000);
    assert(pow10(11) == 100000000000);
    assert(pow10(12) == 1000000000000);
    assert(pow10(13) == 10000000000000);
    assert(pow10(14) == 100000000000000);
    assert(pow10(15) == 1000000000000000);
    assert(pow10(16) == 10000000000000000);
    assert(pow10(17) == 100000000000000000);
    assert(pow10(18) == 1000000000000000000);
    assert(pow10(19) == 10000000000000000000);
    assert(pow10(20) == 100000000000000000000);
    assert(pow10(21) == 1000000000000000000000);
    assert(pow10(22) == 10000000000000000000000);
    assert(pow10(23) == 100000000000000000000000);
    assert(pow10(24) == 1000000000000000000000000);
    assert(pow10(25) == 10000000000000000000000000);
    assert(pow10(26) == 100000000000000000000000000);
    assert(pow10(27) == 1000000000000000000000000000);
    assert(pow10(28) == 10000000000000000000000000000);
    assert(pow10(29) == 100000000000000000000000000000);
    assert(pow10(30) == 1000000000000000000000000000000);
    assert(pow10(31) == 10000000000000000000000000000000);
    assert(pow10(32) == 100000000000000000000000000000000);
    assert(pow10(33) == 1000000000000000000000000000000000);
    assert(pow10(34) == 10000000000000000000000000000000000);
    assert(pow10(35) == 100000000000000000000000000000000000);
    assert(pow10(36) == 1000000000000000000000000000000000000);
    assert(pow10(37) == 10000000000000000000000000000000000000);
    assert(pow10(38) == 100000000000000000000000000000000000000);
    assert(pow10(39) == 1000000000000000000000000000000000000000);
}

/// Values of the powers of two up to the 130th.
pub proof fn lemma_pow2_values()
    ensures
        pow2n(0) == 1,
        pow2n(1) == 2,
        pow2n(2) == 4,
        pow2n(3) == 8,
        pow2n(4) == 16,
        pow2n(5) == 32,
        pow2n(6) == 64,
        pow2n(7) == 128,
        pow2n(8) == 256,
        pow2n(9) == 512,
        pow2n(10) == 1024,
        pow2n(11) == 2048,
        pow2n(12) == 4096,
        pow2n(13) == 8192,
        pow2n(14) == 16384,
        pow2n(15) == 32768,
        pow2n(16) == 65536,
        pow2n(17) == 131072,
        pow2n(18) == 262144,
        pow2n(19) == 524288,
        pow2n(20) == 1048576,
        pow2n(21) == 2097152,
        pow2n(22) == 4194304,
        pow2n(23) == 8388608,
        pow2n(24) == 16777216,
        pow2n(25) == 33554432,
        pow2n(26) == 67108864,
        pow2n(27) == 134217728,
        pow2n(28) == 268435456,
        pow2n(29) == 536870912,
        pow2n(30) == 1073741824,
        pow2n(31) == 2147483648,
        pow2n(32) == 4294967296,
        pow2n(33) == 8589934592,
        pow2n(34) == 17179869184,
        pow2n(35) == 34359738368,
        pow2n(36) == 68719476736,
        pow2n(37) == 137438953472,
        pow2n(38) == 274877906944,
        pow2n(39) == 549755813888,
        pow2n(40) == 1099511627776,
        pow2n(41) == 2199023255552,
        pow2n(42) == 4398046511104,
        pow2n(43) == 8796093022208,
        pow2n(44) == 17592186044416,
        pow2n(45) == 35184372088832,
        pow2n(46) == 70368744177664,
        pow2n(47) == 140737488355328,
        pow2n(48) == 281474976710656,
        pow2n(49) == 562949953421312,
        pow2n(50) == 1125899906842624,
        pow2n(51) == 2251799813685248,
        pow2n(52) == 4503599627370496,
        pow2n(53) == 9007199254740992,
        pow2n(54) == 18014398509481984,
        pow2n(55) == 36028797018963968,
        pow2n(56) == 72057594037927936,
        pow2n(57) == 144115188075855872,
        pow2n(58) == 288230376151711744,
        pow2n(59) == 576460752303423488,
        pow2n(60) == 1152921504606846976,
        pow2n(61) == 2305843009213693952,
        pow2n(62) == 4611686018427387904,
        pow2n(63) == 9223372036854775808,
        pow2n(64) == 18446744073709551616,
        pow2n(65) == 36893488147419103232,
        pow2n(66) == 73786976294838206464,
        pow2n(67) == 147573952589676412928,
        pow2n(68) == 295147905179352825856,
        pow2n(69) == 590295810358705651712,
        pow2n(70) == 1180591620717411303424,
        pow2n(71) == 2361183241434822606848,
        pow2n(72) == 4722366482869645213696,
        pow2n(73) == 9444732965739290427392,
        pow2n(74) == 18889465931478580854784,
        pow2n(75) == 37778931862957161709568,
        pow2n(76) == 75557863725914323419136,
        pow2n(77) == 151115727451828646838272,
        pow2n(78) == 302231454903657293676544,
        pow2n(79) == 604462909807314587353088,
        pow2n(80) == 1208925819614629174706176,
        pow2n(81) == 2417851639229258349412352,
        pow2n(82) == 4835703278458516698824704,
        pow2n(83) == 9671406556917033397649408,
        pow2n(84) == 19342813113834066795298816,
        pow2n(85) == 38685626227668133590597632,
        pow2n(86) == 77371252455336267181195264,
        pow2n(87) == 154742504910672534362390528,
        pow2n(88) == 309485009821345068724781056,
        pow2n(89) == 618970019642690137449562112,
        pow2n(90) == 1237940039285380274899124224,
        pow2n(91) == 2475880078570760549798248448,
        pow2n(92) == 4951760157141521099596496896,
        pow2n(93) == 9903520314283042199192993792,
        pow2n(94) == 19807040628566084398385987584,
        pow2n(95) == 39614081257132168796771975168,
        pow2n(96) == 79228162514264337593543950336,
        pow2n(97) == 158456325028528675187087900672,
        pow2n(98) == 316912650057057350374175801344,
        pow2n(99) == 633825300114114700748351602688,
        pow2n(100) == 1267650600228229401496703205376,
        pow2n(101) == 2535301200456458802993406410752,
        pow2n(102) == 5070602400912917605986812821504,
        pow2n(103) == 10141204801825835211973625643008,
        pow2n(104) == 20282409603651670423947251286016,
        pow2n(105) == 40564819207303340847894502572032,
        pow2n(106) == 81129638414606681695789005144064,
        pow2n(107) == 162259276829213363391578010288128,
        pow2n(108) == 324518553658426726783156020576256,
        pow2n(109) == 649037107316853453566312041152512,
        pow2n(110) == 1298074214633706907132624082305024,
        pow2n(111) == 2596148429267413814265248164610048,
        pow2n(112) == 5192296858534827628530496329220096,
        pow2n(113) == 10384593717069655257060992658440192,
        pow2n(114) == 20769187434139310514121985316880384,
        pow2n(115) == 41538374868278621028243970633760768,
        pow2n(116) == 83076749736557242056487941267521536,
        pow2n(117) == 166153499473114484112975882535043072,
        pow2n(118) == 332306998946228968225951765070086144,
        pow2n(119) == 664613997892457936451903530140172288,
        pow2n(120) == 1329227995784915872903807060280344576,
        pow2n(121) == 2658455991569831745807614120560689152,
        pow2n(122) == 5316911983139663491615228241121378304,
        pow2n(123) == 10633823966279326983230456482242756608,
        pow2n(124) == 21267647932558653966460912964485513216,
        pow2n(125) == 42535295865117307932921825928971026432,
        pow2n(126) == 85070591730234615865843651857942052864,
        pow2n(127) == 170141183460469231731687303715884105728,
        pow2n(128) == 340282366920938463463374607431768211456,
        pow2n(129) == 680564733841876926926749214863536422912,
        pow2n(130) == 1361129467683753853853498429727072845824,
{
    assert(pow2n(0) == 1);
    assert(pow2n(1) == 2);
    assert(pow2n(2) == 4);
    assert(pow2n(3) == 8);
    assert(pow2n(4) == 16);
    assert(pow2n(5) == 32);
    assert(pow2n(6) == 64);
    assert(pow2n(7) == 128);
    assert(pow2n(8) == 256);
    assert(pow2n(9) == 512);
    assert(pow2n(10) == 1024);
    assert(pow2n(11) == 2048);
    assert(pow2n(12) == 4096);
    assert(pow2n(13) == 8192);
    assert(pow2n(14) == 16384);
    assert(pow2n(15) == 32768);
    assert(pow2n(16) == 65536);
    assert(pow2n(17) == 131072);
    assert(pow2n(18) == 262144);
    assert(pow2n(19) == 524288);
    assert(pow2n(20) == 1048576);
    assert(pow2n(21) == 2097152);
    assert(pow2n(22) == 4194304);
    assert(pow2n(23) == 8388608);
    assert(pow2n(24) == 16777216);
    assert(pow2n(25) == 33554432);
    assert(pow2n(26) == 67108864);
    assert(pow2n(27) == 134217728);
    assert(pow2n(28) == 268435456);
    assert(pow2n(29) == 536870912);
    assert(pow2n(30) == 1073741824);
    assert(pow2n(31) == 2147483648);
    assert(pow2n(32) == 4294967296);
    assert(pow2n(33) == 8589934592);
    assert(pow2n(34) == 17179869184);
    assert(pow2n(35) == 34359738368);
    assert(pow2n(36) == 68719476736);
    assert(pow2n(37) == 137438953472);
    assert(pow2n(38) == 274877906944);
    assert(pow2n(39) == 549755813888);
    assert(pow2n(40) == 1099511627776);
    assert(pow2n(41) == 2199023255552);
    assert(pow2n(42) == 4398046511104);
    assert(pow2n(43) == 8796093022208);
    assert(pow2n(44) == 17592186044416);
    assert(pow2n(45) == 35184372088832);
    assert(pow2n(46) == 70368744177664);
    assert(pow2n(47) == 140737488355328);
    assert(pow2n(48) == 281474976710656);
    assert(pow2n(49) == 562949953421312);
    assert(pow2n(50) == 1125899906842624);
    assert(pow2n(51) == 2251799813685248);
    assert(pow2n(52) == 4503599627370496);
    assert(pow2n(53) == 9007199254740992);
    assert(pow2n(54) == 18014398509481984);
    assert(pow2n(55) == 36028797018963968);
    assert(pow2n(56) == 72057594037927936);
    assert(pow2n(57) == 144115188075855872);
    assert(pow2n(58) == 288230376151711744);
    assert(pow2n(59) == 576460752303423488);
    assert(pow2n(60) == 1152921504606846976);
    assert(pow2n(61) == 2305843009213693952);
    assert(pow2n(62) == 4611686018427387904);
    assert(pow2n(63) == 9223372036854775808);
    assert(pow2n(64) == 18446744073709551616);
    assert(pow2n(65) == 36893488147419103232);
    assert(pow2n(66) == 73786976294838206464);
    assert(pow2n(67) == 147573952589676412928);
    assert(pow2n(68) == 295147905179352825856);
    assert(pow2n(69) == 590295810358705651712);
    assert(pow2n(70) == 1180591620717411303424);
    assert(pow2n(71) == 2361183241434822606848);
    assert(pow2n(72) == 4722366482869645213696);
    assert(pow2n(73) == 9444732965739290427392);
    assert(pow2n(74) == 18889465931478580854784);
    assert(pow2n(75) == 37778931862957161709568);
    assert(pow2n(76) == 75557863725914323419136);
    assert(pow2n(77) == 151115727451828646838272);
    assert(pow2n(78) == 302231454903657293676544);
    assert(pow2n(79) == 604462909807314587353088);
    assert(pow2n(80) == 1208925819614629174706176);
    assert(pow2n(81) == 2417851639229258349412352);
    assert(pow2n(82) == 4835703278458516698824704);
    assert(pow2n(83) == 9671406556917033397649408);
    assert(pow2n(84) == 19342813113834066795298816);
    assert(pow2n(85) == 38685626227668133590597632);
    assert(pow2n(86) == 77371252455336267181195264);
    assert(pow2n(87) == 154742504910672534362390528);
    assert(pow2n(88) == 309485009821345068724781056);
    assert(pow2n(89) == 618970019642690137449562112);
    assert(pow2n(90) == 1237940039285380274899124224);
    assert(pow2n(91) == 2475880078570760549798248448);
    assert(pow2n(92) == 4951760157141521099596496896);
    assert(pow2n(93) == 9903520314283042199192993792);
    assert(pow2n(94) == 19807040628566084398385987584);
    assert(pow2n(95) == 39614081257132168796771975168);
    assert(pow2n(96) == 79228162514264337593543950336);
    assert(pow2n(97) == 158456325028528675187087900672);
    assert(pow2n(98) == 316912650057057350374175801344);
    assert(pow2n(99) == 633825300114114700748351602688);
    assert(pow2n(100) == 1267650600228229401496703205376);
    assert(pow2n(101) == 2535301200456458802993406410752);
    assert(pow2n(102) == 5070602400912917605986812821504);
    assert(pow2n(103) == 10141204801825835211973625643008);
    assert(pow2n(104) == 20282409603651670423947251286016);
    assert(pow2n(105) == 40564819207303340847894502572032);
    assert(pow2n(106) == 81129638414606681695789005144064);
    assert(pow2n(107) == 162259276829213363391578010288128);
    assert(pow2n(108) == 324518553658426726783156020576256);
    assert(pow2n(109) == 649037107316853453566312041152512);
    assert(pow2n(110) == 1298074214633706907132624082305024);
    assert(pow2n(111) == 2596148429267413814265248164610048);
    assert(pow2n(112) == 5192296858534827628530496329220096);
    assert(pow2n(113) == 10384593717069655257060992658440192);
    assert(pow2n(114) == 20769187434139310514121985316880384);
    assert(pow2n(115) == 41538374868278621028243970633760768);
    assert(pow2n(116) == 83076749736557242056487941267521536);
    assert(pow2n(117) == 166153499473114484112975882535043072);
    assert(pow2n(118) == 332306998946228968225951765070086144);
    assert(pow2n(119) == 664613997892457936451903530140172288);
    assert(pow2n(120) == 1329227995784915872903807060280344576);
    assert(pow2n(121) == 2658455991569831745807614120560689152);
    assert(pow2n(122) == 5316911983139663491615228241121378304);
    assert(pow2n(123) == 10633823966279326983230456482242756608);
    assert(pow2n(124) == 21267647932558653966460912964485513216);
    assert(pow2n(125) == 42535295865117307932921825928971026432);
    assert(pow2n(126) == 85070591730234615865843651857942052864);
    assert(pow2n(127) == 170141183460469231731687303715884105728);
    assert(pow2n(128) == 340282366920938463463374607431768211456);
    assert(pow2n(129) == 680564733841876926926749214863536422912);
    assert(pow2n(130) == 1361129467683753853853498429727072845824);
}

/// `bits * 1233 / 4096` is the number of decimal digits that fit in `bits` bits:
/// `10^btd(f) <= 2^f < 10^(btd(f) + 1)`.
pub proof fn lemma_btd_bounds(f: nat)
    requires
        f <= 130,
    ensures
        pow10(btd(f)) <= pow2n(f),
        pow2n(f) < pow10(btd(f) + 1),
{
    lemma_pow10_values();
    lemma_pow2_values();
    if f == 0 {
        assert(btd(0) == 0);
    } else if f == 1 {
        assert(btd(1) == 0);
    } else if f == 2 {
        assert(btd(2) == 0);
    } else if f == 3 {
        assert(btd(3) == 0);
    } else if f == 4 {
        assert(btd(4) == 1);
    } else if f == 5 {
        assert(btd(5) == 1);
    } else if f == 6 {
        assert(btd(6) == 1);
    } else if f == 7 {
        assert(btd(7) == 2);
    } else if f == 8 {
        assert(btd(8) == 2);
    } else if f == 9 {
        assert(btd(9) == 2);
    } else if f == 10 {
        assert(btd(10) == 3);
    } else if f == 11 {
        assert(btd(11) == 3);
    } else if f == 12 {
        assert(btd(12) == 3);
    } else if f == 13 {
        assert(btd(13) == 3);
    } else if f == 14 {
        assert(btd(14) == 4);
    } else if f == 15 {
        assert(btd(15) == 4);
    } else if f == 16 {
        assert(btd(16) == 4);
    } else if f == 17 {
        assert(btd(17) == 5);
    } else if f == 18 {
        assert(btd(18) == 5);
    } else if f == 19 {
        assert(btd(19) == 5);
    } else if f == 20 {
        assert(btd(20) == 6);
    } else if f == 21 {
        assert(btd(21) == 6);
    } else if f == 22 {
        assert(btd(22) == 6);
    } else if f == 23 {
        assert(btd(23) == 6);
    } else if f == 24 {
        assert(btd(24) == 7);
    } else if f == 25 {
        assert(btd(25) == 7);
    } else if f == 26 {
        assert(btd(26) == 7);
    } else if f == 27 {
        assert(btd(27) == 8);
    } else if f == 28 {
        assert(btd(28) == 8);
    } else if f == 29 {
        assert(btd(29) == 8);
    } else if f == 30 {
        assert(btd(30) == 9);
    } else if f == 31 {
        assert(btd(31) == 9);
    } else if f == 32 {
        assert(btd(32) == 9);
    } else if f == 33 {
        assert(btd(33) == 9);
    } else if f == 34 {
        assert(btd(34) == 10);
    } else if f == 35 {
        assert(btd(35) == 10);
    } else if f == 36 {
        assert(btd(36) == 10);
    } else if f == 37 {
        assert(btd(37) == 11);
    } else if f == 38 {
        assert(btd(38) == 11);
    } else if f == 39 {
        assert(btd(39) == 11);
    } else if f == 40 {
        assert(btd(40) == 12);
    } else if f == 41 {
        assert(btd(41) == 12);
    } else if f == 42 {
        assert(btd(42) == 12);
    } else if f == 43 {
        assert(btd(43) == 12);
    } else if f == 44 {
        assert(btd(44) == 13);
    } else if f == 45 {
        assert(btd(45) == 13);
    } else if f == 46 {
        assert(btd(46) == 13);
    } else if f == 47 {
        assert(btd(47) == 14);
    } else if f == 48 {
        assert(btd(48) == 14);
    } else if f == 49 {
        assert(btd(49) == 14);
    } else if f == 50 {
        assert(btd(50) == 15);
    } else if f == 51 {
        assert(btd(51) == 15);
    } else if f == 52 {
        assert(btd(52) == 15);
    } else if f == 53 {
        assert(btd(53) == 15);
    } else if f == 54 {
        assert(btd(54) == 16);
    } else if f == 55 {
        assert(btd(55) == 16);
    } else if f == 56 {
        assert(btd(56) == 16);
    } else if f == 57 {
        assert(btd(57) == 17);
    } else if f == 58 {
        assert(btd(58) == 17);
    } else if f == 59 {
        assert(btd(59) == 17);
    } else if f == 60 {
        assert(btd(60) == 18);
    } else if f == 61 {
        assert(btd(61) == 18);
    } else if f == 62 {
        assert(btd(62) == 18);
    } else if f == 63 {
        assert(btd(63) == 18);
    } else if f == 64 {
        assert(btd(64) == 19);
    } else if f == 65 {
        assert(btd(65) == 19);
    } else if f == 66 {
        assert(btd(66) == 19);
    } else if f == 67 {
        assert(btd(67) == 20);
    } else if f == 68 {
        assert(btd(68) == 20);
    } else if f == 69 {
        assert(btd(69) == 20);
    } else if f == 70 {
        assert(btd(70) == 21);
    } else if f == 71 {
        assert(btd(71) == 21);
    } else if f == 72 {
        assert(btd(72) == 21);
    } else if f == 73 {
        assert(btd(73) == 21);
    } else if f == 74 {
        assert(btd(74) == 22);
    } else if f == 75 {
        assert(btd(75) == 22);
    } else if f == 76 {
        assert(btd(76) == 22);
    } else if f == 77 {
        assert(btd(77) == 23);
    } else if f == 78 {
        assert(btd(78) == 23);
    } else if f == 79 {
        assert(btd(79) == 23);
    } else if f == 80 {
        assert(btd(80) == 24);
    } else if f == 81 {
        assert(btd(81) == 24);
    } else if f == 82 {
        assert(btd(82) == 24);
    } else if f == 83 {
        assert(btd(83) == 24);
    } else if f == 84 {
        assert(btd(84) == 25);
    } else if f == 85 {
        assert(btd(85) == 25);
    } else if f == 86 {
        assert(btd(86) == 25);
    } else if f == 87 {
        assert(btd(87) == 26);
    } else if f == 88 {
        assert(btd(88) == 26);
    } else if f == 89 {
        assert(btd(89) == 26);
    } else if f == 90 {
        assert(btd(90) == 27);
    } else if f == 91 {
        assert(btd(91) == 27);
    } else if f == 92 {
        assert(btd(92) == 27);
    } else if f == 93 {
        assert(btd(93) == 27);
    } else if f == 94 {
        assert(btd(94) == 28);
    } else if f == 95 {
        assert(btd(95) == 28);
    } else if f == 96 {
        assert(btd(96) == 28);
    } else if f == 97 {
        assert(btd(97) == 29);
    } else if f == 98 {
        assert(btd(98) == 29);
    } else if f == 99 {
        assert(btd(99) == 29);
    } else if f == 100 {
        assert(btd(100) == 30);
    } else if f == 101 {
        assert(btd(101) == 30);
    } else if f == 102 {
        assert(btd(102) == 30);
    } else if f == 103 {
        assert(btd(103) == 31);
    } else if f == 104 {
        assert(btd(104) == 31);
    } else if f == 105 {
        assert(btd(105) == 31);
    } else if f == 106 {
        assert(btd(106) == 31);
    } else if f == 107 {
        assert(btd(107) == 32);
    } else if f == 108 {
        assert(btd(108) == 32);
    } else if f == 109 {
        assert(btd(109) == 32);
    } else if f == 110 {
        assert(btd(110) == 33);
    } else if f == 111 {
        assert(btd(111) == 33);
    } else if f == 112 {
        assert(btd(112) == 33);
    } else if f == 113 {
        assert(btd(113) == 34);
    } else if f == 114 {
        assert(btd(114) == 34);
    } else if f == 115 {
        assert(btd(115) == 34);
    } else if f == 116 {
        assert(btd(116) == 34);
    } else if f == 117 {
        assert(btd(117) == 35);
    } else if f == 118 {
        assert(btd(118) == 35);
    } else if f == 119 {
        assert(btd(119) == 35);
    } else if f == 120 {
        assert(btd(120) == 36);
    } else if f == 121 {
        assert(btd(121) == 36);
    } else if f == 122 {
        assert(btd(122) == 36);
    } else if f == 123 {
        assert(btd(123) == 37);
    } else if f == 124 {
        assert(btd(124) == 37);
    } else if f == 125 {
        assert(btd(125) == 37);
    } else if f == 126 {
        assert(btd(126) == 37);
    } else if f == 127 {
        assert(btd(127) == 38);
    } else if f == 128 {
        assert(btd(128) == 38);
    } else if f == 129 {
        assert(btd(129) == 38);
    } else if f == 130 {
        assert(btd(130) == 39);
    }
}


/// `2^k` is never a multiple of 5.
pub proof fn lemma_pow2_not_mul5(k: nat)
    ensures
        pow2n(k) % 5 != 0,
    decreases k,
{
    if k > 0 {
        lemma_pow2_not_mul5((k - 1) as nat);
        let x = pow2n((k - 1) as nat);
        assert(pow2n(k) == 2 * x);
        assert((2 * x) % 5 != 0) by (nonlinear_arith)
            requires
                x % 5 != 0,
        ;
    }
}

/// A multiple of `10^a` that is a power of two has `a == 0`.
pub proof fn lemma_pow10_factor_of_pow2(c: nat, a: nat, k: nat)
    requires
        c * pow10(a) == pow2n(k),
    ensures
        a == 0,
{
    if a > 0 {
        lemma_pow2_not_mul5(k);
        let p = pow10((a - 1) as nat);
        assert(pow10(a) == 10 * p);
        assert(c * (10 * p) == (2 * c * p) * 5) by (nonlinear_arith);
        lemma_mod_multiples_basic((2 * c * p) as int, 5);
    }
}

/// When `n = q * c + rem` with `rem < 2^32`, the low 32 bits of `q * c`
/// (computed from the low 32 bits of `q`) equal those of `n` exactly when
/// `rem == 0`.
pub proof fn lemma_low_bits_exact(n: nat, q: nat, c: nat, rem: nat)
    requires
        n == q * c + rem,
        rem < 0x1_0000_0000,
    ensures
        (((q % 0x1_0000_0000) * c) % 0x1_0000_0000 == n % 0x1_0000_0000) == (rem == 0),
{
    let m: int = 0x1_0000_0000;
    lemma_mul_mod_noop_left(q as int, c as int, m);
    lemma_add_mod_noop((q * c) as int, rem as int, m);
    lemma_small_mod(rem, m as nat);
    let x = (q * c) % (m as nat);
    lemma_mod_bound((q * c) as int, m);
    if rem != 0 {
        if x + rem < m {
            lemma_small_mod((x + rem) as nat, m as nat);
        } else {
            lemma_fundamental_div_mod_converse((x + rem) as int, m, 1, (x + rem - m) as int);
        }
    }
}

/// Dividing `10^k` out of `n` moves `k` trailing zeros from `n` to the
/// count of those already removed.
pub proof fn lemma_reduce_step(n0: nat, n: nat, q: nat, removed: nat, k: nat)
    requires
        n > 0,
        q * pow10(k) == n,
        n * pow10(removed) == n0,
        tz10(n0) == removed + tz10(n),
    ensures
        q > 0,
        q * pow10(removed + k) == n0,
        tz10(n0) == removed + k + tz10(q),
{
    lemma_pow10_pos(k);
    lemma_div_round_of_qr(n, pow10(k), q, 0);
    lemma_tz10(n, k);
    lemma_pow10_add(removed, k);
    assert(q * pow10(removed + k) == n0) by (nonlinear_arith)
        requires
            q * pow10(k) == n,
            n * pow10(removed) == n0,
            pow10(removed + k) == pow10(removed) * pow10(k),
    ;
}

/// `x * y < a * b` from `x < a` and `y <= b` with `b > 0`.
pub proof fn lemma_mul_lt_bounds(x: nat, y: nat, a: nat, b: nat)
    requires
        x < a,
        y <= b,
        b > 0,
    ensures
        x * y < a * b,
{
    lemma_mul_inequality(y as int, b as int, x as int);
    lemma_mul_strict_inequality(x as int, a as int, b as int);
    lemma_mul_is_commutative(x as int, y as int);
    lemma_mul_is_commutative(x as int, b as int);
}

/// `5^n`.
pub open spec fn pow5(n: nat) -> nat
    decreases n,
{
    if n == 0 {
        1
    } else {
        5 * pow5((n - 1) as nat)
    }
}

/// `10^n == 5^n * 2^n`.
pub proof fn lemma_pow10_pow5(n: nat)
    ensures
        pow10(n) as int == pow5(n) as int * pow2n(n) as int,
    decreases n,
{
    if n > 0 {
        lemma_pow10_pow5((n - 1) as nat);
        let a = pow5((n - 1) as nat);
        let b = pow2n((n - 1) as nat);
        assert(pow10(n) == 10 * pow10((n - 1) as nat));
        assert(pow5(n) == 5 * a);
        assert(pow2n(n) == 2 * b);
        assert(pow10(n) as int == pow5(n) as int * pow2n(n) as int) by (nonlinear_arith)
            requires
                pow10(n) == 10 * pow10((n - 1) as nat),
                pow10((n - 1) as nat) as int == a as int * b as int,
                pow5(n) == 5 * a,
                pow2n(n) == 2 * b,
        ;
    } else {
        assert(pow10(0) == 1 && pow5(0) == 1 && pow2n(0) == 1);
        assert(pow10(n) as int == pow5(n) as int * pow2n(n) as int) by (nonlinear_arith)
            requires
                pow10(n) == 1,
                pow5(n) == 1,
                pow2n(n) == 1,
        ;
    }
}

/// The powers of five up to `5^31`.
pub proof fn lemma_pow5_values()
    ensures
        pow5(0) == 1,
        pow5(1) == 5,
        pow5(2) == 25,
        pow5(3) == 125,
        pow5(4) == 625,
        pow5(5) == 3125,
        pow5(6) == 15625,
        pow5(7) == 78125,
        pow5(8) == 390625,
        pow5(9) == 1953125,
        pow5(10) == 9765625,
        pow5(11) == 48828125,
        pow5(12) == 244140625,
        pow5(13) == 1220703125,
        pow5(14) == 6103515625,
        pow5(15) == 30517578125,
        pow5(16) == 152587890625,
        pow5(17) == 762939453125,
        pow5(18) == 3814697265625,
        pow5(19) == 19073486328125,
        pow5(20) == 95367431640625,
        pow5(21) == 476837158203125,
        pow5(22) == 2384185791015625,
        pow5(23) == 11920928955078125,
        pow5(24) == 59604644775390625,
        pow5(25) == 298023223876953125,
        pow5(26) == 1490116119384765625,
        pow5(27) == 7450580596923828125,
        pow5(28) == 37252902984619140625,
        pow5(29) == 186264514923095703125,
        pow5(30) == 931322574615478515625,
        pow5(31) == 4656612873077392578125,
{
    assert(pow5(0) == 1);
    assert(pow5(1) == 5);
    assert(pow5(2) == 25);
    assert(pow5(3) == 125);
    assert(pow5(4) == 625);
    assert(pow5(5) == 3125);
    assert(pow5(6) == 15625);
    assert(pow5(7) == 78125);
    assert(pow5(8) == 390625);
    assert(pow5(9) == 1953125);
    assert(pow5(10) == 9765625);
    assert(pow5(11) == 48828125);
    assert(pow5(12) == 244140625);
    assert(pow5(13) == 1220703125);
    assert(pow5(14) == 6103515625);
    assert(pow5(15) == 30517578125);
    assert(pow5(16) == 152587890625);
    assert(pow5(17) == 762939453125);
    assert(pow5(18) == 3814697265625);
    assert(pow5(19) == 19073486328125);
    assert(pow5(20) == 95367431640625);
    assert(pow5(21) == 476837158203125);
    assert(pow5(22) == 2384185791015625);
    assert(pow5(23) == 11920928955078125);
    assert(pow5(24) == 59604644775390625);
    assert(pow5(25) == 298023223876953125);
    assert(pow5(26) == 1490116119384765625);
    assert(pow5(27) == 7450580596923828125);
    assert(pow5(28) == 37252902984619140625);
    assert(pow5(29) == 186264514923095703125);
    assert(pow5(30) == 931322574615478515625);
    assert(pow5(31) == 4656612873077392578125);
}

/// Scaling the dividend and the divisor alike keeps the rounded quotient.
pub proof fn lemma_div_round_scale(x: nat, y: nat, c: nat)
    requires
        y > 0,
        c > 0,
    ensures
        div_round(x * c, y * c) == div_round(x, y),
{
    lemma_qr(x, y);
    let q = x / y;
    let r = x % y;
    assert(x * c == q * (y * c) + r * c && r * c < y * c) by (nonlinear_arith)
        requires
            q * y + r == x,
            r < y,
            c > 0,
    ;
    lemma_div_round_of_qr(x * c, y * c, q, r * c);
    lemma_div_round_of_qr(x, y, q, r);
    assert((2 * (r * c) >= y * c) == (2 * r >= y)) by (nonlinear_arith)
        requires
            c > 0,
    ;
}

/// Rounding half up by `2d` from the quotient by `d`: half of it, plus its
/// last bit.
pub proof fn lemma_div_round_halves(x: nat, d: nat)
    requires
        d > 0,
    ensures
        div_round(x, 2 * d) == (x / d) / 2 + (x / d) % 2,
{
    lemma_qr(x, d);
    let p1 = x / d;
    let r = x % d;
    lemma_qr(p1, 2);
    let p0 = p1 / 2;
    let b = p1 % 2;
    assert(x == p0 * (2 * d) + (b * d + r) && b * d + r < 2 * d) by (nonlinear_arith)
        requires
            p1 * d + r == x,
            p0 * 2 + b == p1,
            r < d,
            b < 2,
    ;
    lemma_div_round_of_qr(x, 2 * d, p0, b * d + r);
    assert((2 * (b * d + r) >= 2 * d) == (b == 1)) by (nonlinear_arith)
        requires
            b < 2,
            r < d,
    ;
}

} // verus!

verus! {

/// Rounding by `e` moves `x` by at most half of `e`.
pub proof fn lemma_div_round_error(x: nat, e: nat)
    requires
        e > 0,
    ensures
        2 * (div_round(x, e) * e - x) <= e,
        2 * (x - div_round(x, e) * e) <= e,
{
    lemma_qr(x, e);
    let q = x / e;
    if 2 * (x % e) >= e {
        assert((q + 1) * e == q * e + e) by (nonlinear_arith);
    }
}

/// Rounding `x` by `e` gives `m` when `x` is less than half of `e` away
/// from `m * e`.
pub proof fn lemma_div_round_near(x: nat, m: nat, e: nat)
    requires
        e > 0,
        2 * (x - m * e) < e,
        2 * (m * e - x) < e,
    ensures
        div_round(x, e) == m,
{
    if x >= m * e {
        lemma_div_round_of_qr(x, e, m, (x - m * e) as nat);
    } else {
        assert(m >= 1) by (nonlinear_arith)
            requires
                x < m * e,
        ;
        let r = (x + e - m * e) as nat;
        assert(((m - 1) as nat) * e + r == x) by (nonlinear_arith)
            requires
                r == x + e - m * e,
                m >= 1,
        ;
        lemma_div_round_of_qr(x, e, (m - 1) as nat, r);
    }
}

/// The digits that the multiplication clears from the product of mantissas
/// `a` and `b` of at most `mb` bits, when the product does not obviously fit
/// but does once rounded at scale `ss`: at most `ss`, and few (`10^c * 2^mb
/// <= 20 * a * b`) unless they bring the scale down to `max_scale`.
pub proof fn lemma_mul_clear_few(a: nat, b: nat, mb: nat, ss: nat, max_scale: nat, max_exp: nat)
    requires
        1 <= mb <= 130,
        ss <= 2 * max_scale,
        max_scale <= max_exp,
        pow10(max_scale) <= 10 * pow2n(mb),
        btd(mb + 1) >= max_scale,
        btd(mb) + 1 <= max_exp,
        a < pow2n(mb),
        b < pow2n(mb),
        bit_len(a) + bit_len(b) > mb,
        div_round(a * b, pow10(ss)) < pow2n(mb),
    ensures
        mul_clear_digits(a * b, mb, ss, max_scale) <= ss,
        ({
            let c = mul_clear_digits(a * b, mb, ss, max_scale);
            ||| ss > max_scale && c == ss - max_scale
            ||| pow10(c) * pow2n(mb) <= 20 * (a * b)
        }),
{
    let p = a * b;
    let la = bit_len(a);
    let lb = bit_len(b);
    lemma_bit_len_le(a, mb);
    lemma_bit_len_le(b, mb);
    lemma_mul_bit_len(a, b);
    lemma_bit_len(a);
    lemma_bit_len(b);
    // both factors are nonzero, and their product has at least `mb - 1` bits
    assert(la >= 1 && lb >= 1);
    lemma_pow2_add((la - 1) as nat, (lb - 1) as nat);
    assert(p >= pow2n((la - 1) as nat) * pow2n((lb - 1) as nat)) by (nonlinear_arith)
        requires
            a >= pow2n((la - 1) as nat),
            b >= pow2n((lb - 1) as nat),
            p == a * b,
    ;
    lemma_pow2_mono((mb - 1) as nat, (la + lb - 2) as nat);
    assert(pow2n(mb) == 2 * pow2n((mb - 1) as nat));
    assert(2 * p >= pow2n(mb));
    lemma_mul_clear(p, mb, ss, max_scale, max_exp);
    let bits = sat_sub(bit_len(p), mb);
    let c0 = ceil_digits(p, mb);
    let c = mul_clear_digits(p, mb, ss, max_scale);
    if !(ss > max_scale && (ss - max_scale) as nat > c0) {
        assert(c <= c0);
        lemma_btd_bounds(bits);
        lemma_pow10_mono(c, c0);
        assert(pow10(c0) == 10 * pow10(btd(bits)));
        lemma_bit_len(p);
        lemma_pow2_add(mb, bits);
        if bit_len(p) >= mb {
            assert(pow2n(bit_len(p)) == 2 * pow2n((bit_len(p) - 1) as nat));
            assert(pow2n(bits) * pow2n(mb) <= 2 * p);
        } else {
            assert(pow2n(bits) == 1);
        }
        assert(pow10(c) * pow2n(mb) <= 20 * p) by (nonlinear_arith)
            requires
                pow10(c) <= pow10(c0),
                pow10(c0) == 10 * pow10(btd(bits)),
                pow10(btd(bits)) <= pow2n(bits),
                pow2n(bits) * pow2n(mb) <= 2 * p,
        ;
    }
}

} // verus!
