//! What the division of mantissas gives: the scale the quotient is
//! computed at, and how it is then brought to the scales of the operands
//! and rounded.
use vstd::prelude::*;

use crate::math::{
    bit_len, btd, lemma_bit_len, lemma_bit_len_le, lemma_btd_bounds, lemma_div_cancel,
    lemma_div_round_of_qr, lemma_pow10_add, lemma_pow10_mono, lemma_pow10_pos, lemma_pow2_add,
    lemma_pow2_pos, lemma_qr, lemma_tz10, pow10, pow2n, sat_sub, tz10,
};

verus! {

/// The smaller of `a` and `b`.
pub open spec fn min_nat(a: nat, b: nat) -> nat {
    if a <= b {
        a
    } else {
        b
    }
}

/// The decimal digits by which `n * 10^act / d` can still grow: as many as
/// the free bits of the quotient (in a mantissa of `mb` bits) and of the
/// remainder (in `bits` bits) allow.
pub open spec fn room(n: nat, d: nat, act: nat, mb: nat, bits: nat) -> nat {
    let t = n * pow10(act);
    btd(min_nat(sat_sub(bits, bit_len(t % d)), sat_sub(mb, bit_len(t / d))))
}

/// The scale one division step reaches: as many digits as the free bits of
/// `n / d` (in a mantissa of `mb` bits) allow, at most `max`; 0 when `d`
/// divides `n`.
pub open spec fn one_step_scale(n: nat, d: nat, max: nat, mb: nat) -> nat {
    if n % d == 0 {
        0
    } else {
        min_nat(btd(sat_sub(mb, bit_len(n / d))), max)
    }
}

/// The scale one division step with a 32-bit divisor reaches: as many
/// digits as there is room for (see [`room`]), at most `max`; 0 when `d`
/// divides `n`.
pub open spec fn short_div_scale(n: nat, d: nat, max: nat, mb: nat) -> nat {
    if n % d == 0 {
        0
    } else {
        min_nat(room(n, d, 0, mb, 128), max)
    }
}

/// The scale long division reaches from scale `act` on: raised by as many
/// digits as there is room for, until the division is exact, there is no
/// room, or `max` is reached.
pub open spec fn long_div_scale(n: nat, d: nat, act: nat, max: nat, mb: nat) -> nat
    decreases max - act,
{
    if act >= max || (n * pow10(act)) % d == 0 {
        act
    } else {
        let s = min_nat(room(n, d, act, mb, 128), (max - act) as nat);
        if s == 0 {
            act
        } else {
            long_div_scale(n, d, act + s, max, mb)
        }
    }
}

/// The quotient `q` with remainder `r` of a division by `d`, rounded half
/// up, at scale `scale`; `None` when rounding up passes `max_man`.
pub open spec fn round_quotient(q: nat, r: nat, d: nat, scale: nat, max_man: nat) -> Option<
    (nat, nat),
> {
    if 2 * r >= d {
        if q >= max_man {
            None
        } else {
            Some(((q + 1) as nat, scale))
        }
    } else {
        Some((q, scale))
    }
}

/// The mantissa and the scale of the quotient of mantissas `n / d` at scales
/// `s_scale` and `d_scale`, computed at `act` more fraction digits: brought
/// up to the least scale that keeps the fraction digits of both sides if
/// `act` is fewer, trimmed of trailing zeros down to it if the division is
/// exact, and rounded half up; `None` when it does not fit in `max_man`.
pub open spec fn quotient_at(
    n: nat,
    d: nat,
    s_scale: nat,
    d_scale: nat,
    act: nat,
    max_man: nat,
) -> Option<(nat, nat)> {
    let diff = sat_sub(s_scale, d_scale);
    let least = sat_sub(d_scale, s_scale);
    if act < least {
        let t = n * pow10(least);
        if t / d > max_man {
            None
        } else {
            round_quotient(t / d, t % d, d, diff, max_man)
        }
    } else {
        let t = n * pow10(act);
        let q = t / d;
        let r = t % d;
        if r == 0 && act > least {
            let red = min_nat(tz10(q), (act - least) as nat);
            Some((q / pow10(red), (diff + act - red - least) as nat))
        } else {
            round_quotient(q, r, d, (diff + act - least) as nat, max_man)
        }
    }
}

} // verus!

verus! {

/// The quotient `n * 10^a / d`, at no fewer digits than the free bits of
/// `n / d` give, fills the mantissa of `mb` bits to more than a twentieth,
/// when `n / d` is not zero (its free bits then give fewer digits than all
/// `mb` bits).
pub proof fn lemma_quotient_full(n: nat, d: nat, a: nat, mb: nat)
    requires
        d > 0,
        1 <= mb <= 130,
        n < pow2n(mb),
        btd(sat_sub(mb, bit_len(n / d))) < btd(mb),
        a >= btd(sat_sub(mb, bit_len(n / d))),
    ensures
        20 * ((n * pow10(a)) / d) > pow2n(mb),
{
    let x = n / d;
    let k = bit_len(x);
    assert(k != 0);
    lemma_qr(n, d);
    assert(x <= n) by (nonlinear_arith)
        requires
            x * d + n % d == n,
            d >= 1,
    ;
    lemma_bit_len_le(x, mb);
    lemma_bit_len(x);
    let f = (mb - k) as nat;
    let act = btd(f);
    lemma_btd_bounds(f);
    lemma_pow10_mono(act, a);
    lemma_pow10_pos(a);
    lemma_pow2_add((k - 1) as nat, f);
    assert(pow2n(mb) == 2 * pow2n((mb - 1) as nat));
    assert(pow10(act + 1) == 10 * pow10(act));
    let t = n * pow10(a);
    let y = t / d;
    lemma_qr(t, d);
    assert(x * pow10(a) * d <= t) by (nonlinear_arith)
        requires
            x * d <= n,
            t == n * pow10(a),
    ;
    assert(x * pow10(a) <= y) by (nonlinear_arith)
        requires
            x * pow10(a) * d <= t,
            y * d + t % d == t,
            t % d < d,
            d > 0,
    ;
    assert(10 * y >= pow2n((k - 1) as nat) * pow10(act + 1)) by (nonlinear_arith)
        requires
            x * pow10(a) <= y,
            x >= pow2n((k - 1) as nat),
            pow10(act) <= pow10(a),
            pow10(act + 1) == 10 * pow10(act),
    ;
    assert(pow2n((k - 1) as nat) * pow10(act + 1) > pow2n((k - 1) as nat) * pow2n(f))
        by (nonlinear_arith)
        requires
            pow2n(f) < pow10(act + 1),
            pow2n((k - 1) as nat) > 0,
    ;
    lemma_pow2_pos((k - 1) as nat);
}

/// The mantissa and scale one division step gives, with `act` digits as
/// the free bits of `n / d` allow (at most `max_scale` less the dividend's
/// extra fraction digits): unless the division is exact at the quotient's
/// scale, the quotient reaches the largest scale, counting the divisor's
/// extra fraction digits, or fills the mantissa to more than a twentieth.
pub proof fn lemma_one_step_digits(
    n: nat,
    d: nat,
    sn: nat,
    sd: nat,
    mb: nat,
    max_scale: nat,
    q: (nat, nat),
)
    requires
        d > 0,
        1 <= mb <= 130,
        n < pow2n(mb),
        sn <= max_scale,
        sd <= max_scale,
        btd(mb) >= max_scale,
        quotient_at(
            n,
            d,
            sn,
            sd,
            one_step_scale(n, d, (max_scale - sat_sub(sn, sd)) as nat, mb),
            (pow2n(mb) - 1) as nat,
        ) == Some(q),
    ensures
        q.1 + sd >= sn,
        (n * pow10((q.1 + sd - sn) as nat)) % d == 0 || q.1 + sat_sub(sd, sn) == max_scale || 20
            * q.0 > pow2n(mb),
{
    let diff = sat_sub(sn, sd);
    let least = sat_sub(sd, sn);
    let max = (max_scale - diff) as nat;
    let act = one_step_scale(n, d, max, mb);
    lemma_pow10_pos(least);
    lemma_pow10_pos(act);
    if act < least {
        let t0 = n * pow10(least);
        assert(q.1 == 0);
        if n % d == 0 {
            lemma_qr(n, d);
            let x = n / d;
            assert(t0 == (x * pow10(least)) * d) by (nonlinear_arith)
                requires
                    x * d + n % d == n,
                    n % d == 0,
                    t0 == n * pow10(least),
            ;
            lemma_div_round_of_qr(t0, d, x * pow10(least), 0);
        } else {
            lemma_quotient_full(n, d, least, mb);
        }
    } else {
        let t = n * pow10(act);
        let qq = t / d;
        let r = t % d;
        lemma_qr(t, d);
        if r == 0 && act > least {
            let red = min_nat(tz10(qq), (act - least) as nat);
            lemma_pow10_pos(red);
            let q0 = qq / pow10(red);
            assert(q == (q0, (diff + act - red - least) as nat));
            let a = pow10((act - red) as nat);
            if qq == 0 {
                assert(red == 0);
                assert(pow10(0) == 1);
                assert(a == pow10(act));
                assert(n * a == qq * d + r);
            } else {
                lemma_tz10(qq, red);
                lemma_qr(qq, pow10(red));
                lemma_pow10_add((act - red) as nat, red);
                lemma_div_cancel(q0, d, n, a, pow10(red));
                lemma_div_round_of_qr(n * a, d, q0, 0);
            }
        } else {
            assert(q.0 >= qq);
            assert(q.1 == diff + act - least);
            if r != 0 {
                if n % d == 0 {
                    assert(act == 0);
                    assert(pow10(act) == 1);
                    assert(t == n) by (nonlinear_arith)
                        requires
                            t == n * pow10(act),
                            pow10(act) == 1,
                    ;
                    assert(false);
                }
                if act != max {
                    lemma_quotient_full(n, d, act, mb);
                }
            }
        }
    }
}

} // verus!

verus! {

/// Where the quotient is computed at `act` digits that are enough (the
/// division is exact there, `act` reaches the largest scale, the quotient
/// fills the mantissa to more than a twentieth, or, when `x`, `act` is at
/// least `lo`), the quotient that [`quotient_at`] gives has the same
/// property at its own scale.
pub proof fn lemma_quotient_at_digits(
    n: nat,
    d: nat,
    sn: nat,
    sd: nat,
    act: nat,
    mb: nat,
    max_scale: nat,
    x: bool,
    lo: nat,
    q: (nat, nat),
)
    requires
        d > 0,
        sn <= max_scale,
        sd <= max_scale,
        act + sat_sub(sn, sd) <= max_scale,
        quotient_at(n, d, sn, sd, act, (pow2n(mb) - 1) as nat) == Some(q),
        (n * pow10(act)) % d == 0 || act + sat_sub(sn, sd) == max_scale || 20 * ((n * pow10(act))
            / d) > pow2n(mb) || (x && act >= lo),
    ensures
        q.1 + sd >= sn,
        (n * pow10((q.1 + sd - sn) as nat)) % d == 0 || q.1 + sat_sub(sd, sn) == max_scale || 20
            * q.0 > pow2n(mb) || (x && q.1 + sd - sn >= lo),
{
    let diff = sat_sub(sn, sd);
    let least = sat_sub(sd, sn);
    lemma_pow10_pos(least);
    lemma_pow10_pos(act);
    let t = n * pow10(act);
    lemma_qr(t, d);
    if act < least {
        let t0 = n * pow10(least);
        assert(q.1 == 0);
        lemma_pow10_add(act, (least - act) as nat);
        let e = pow10((least - act) as nat);
        lemma_pow10_pos((least - act) as nat);
        assert(t0 == t * e) by (nonlinear_arith)
            requires
                t0 == n * pow10(least),
                t == n * pow10(act),
                pow10(least) == pow10(act) * e,
        ;
        lemma_qr(t0, d);
        if t % d == 0 {
            assert(t0 == ((t / d) * e) * d) by (nonlinear_arith)
                requires
                    (t / d) * d + t % d == t,
                    t % d == 0,
                    t0 == t * e,
            ;
            lemma_div_round_of_qr(t0, d, (t / d) * e, 0);
        } else if 20 * (t / d) > pow2n(mb) {
            assert((t / d) * d <= t0) by (nonlinear_arith)
                requires
                    (t / d) * d + t % d == t,
                    t0 == t * e,
                    e >= 1,
            ;
            assert(t / d <= t0 / d) by (nonlinear_arith)
                requires
                    (t / d) * d <= t0,
                    (t0 / d) * d + t0 % d == t0,
                    t0 % d < d,
                    d > 0,
            ;
        }
    } else {
        let qq = t / d;
        let r = t % d;
        if r == 0 && act > least {
            let red = min_nat(tz10(qq), (act - least) as nat);
            lemma_pow10_pos(red);
            let q0 = qq / pow10(red);
            assert(q == (q0, (diff + act - red - least) as nat));
            let a = pow10((act - red) as nat);
            if qq == 0 {
                assert(red == 0);
                assert(pow10(0) == 1);
                assert(a == pow10(act));
                assert(n * a == qq * d + r);
            } else {
                lemma_tz10(qq, red);
                lemma_qr(qq, pow10(red));
                lemma_pow10_add((act - red) as nat, red);
                lemma_div_cancel(q0, d, n, a, pow10(red));
                lemma_div_round_of_qr(n * a, d, q0, 0);
            }
        } else {
            assert(q.0 >= qq);
            assert(q.1 == diff + act - least);
        }
    }
}

/// Long division stops at the largest scale, where the division is exact,
/// or where there is no room for another digit.
pub proof fn lemma_long_div_end(n: nat, d: nat, act: nat, max: nat, mb: nat)
    requires
        act <= max,
    ensures
        act <= long_div_scale(n, d, act, max, mb) <= max,
        ({
            let a = long_div_scale(n, d, act, max, mb);
            ||| a == max
            ||| (n * pow10(a)) % d == 0
            ||| room(n, d, a, mb, 128) == 0
        }),
    decreases max - act,
{
    if act >= max || (n * pow10(act)) % d == 0 {
    } else {
        let s = min_nat(room(n, d, act, mb, 128), (max - act) as nat);
        if s != 0 {
            lemma_long_div_end(n, d, act + s, max, mb);
        }
    }
}

} // verus!
