//! Laws of the decimal arithmetic: what holds across operations and
//! between the results of several calls.
use vstd::arithmetic::mul::{
    lemma_mul_equality_converse, lemma_mul_is_associative, lemma_mul_is_commutative,
    lemma_mul_strict_inequality,
};
use vstd::prelude::*;
use vstd::string::StringSliceAdditionalSpecFns;
use vstd::utf8::{is_ascii_chars, is_ascii_chars_encode_utf8};

use crate::display::{ascii_chars, digits_of, display_digits, is_ascii_bytes, padded, zeros};
use crate::from_str::{
    digits_from, dot_from, is_digit, parse_spec, uint_from_bytes, unsigned_from_bytes, DIGIT_0,
    MINUS, PLUS, POINT,
};
use crate::math::{
    div_round, lemma_div_round_error, lemma_div_round_near, lemma_pow10_add, lemma_pow10_mono,
    lemma_pow10_pos, lemma_pow10_values, lemma_pow2_pos, lemma_pow2_values, lemma_qr, pow10, pow2n,
    sat_sub, bit_len, btd, lemma_bit_len, lemma_bit_len_le, lemma_pow2_add, lemma_pow2_mono,
};
use crate::floats::{f32_fields, f64_fields, float_result, FromFloatError};
use crate::ops::{
    aligned, is_quotient, product_spec, quotient_spec, sign_xor, sum_spec, view_of,
};
use crate::quotient::{
    lemma_long_div_end, lemma_one_step_digits, lemma_quotient_at_digits, lemma_quotient_full,
    long_div_scale, min_nat, room, short_div_scale,
};
use crate::{lemma_fields_in_range, Decimal, DecimalView, ParseError, UnderlyingInt};

verus! {

/// Addition is commutative: `a + b` and `b + a` overflow alike, and
/// otherwise give the same scale and mantissa, so the same number (only the
/// sign of a zero sum may differ).
pub proof fn lemma_add_commutative<I: UnderlyingInt, const S: bool>(
    a: Decimal<I, S>,
    b: Decimal<I, S>,
)
    ensures
        (sum_spec::<I>(a@, b@.sign, b@, S) is Some) == (sum_spec::<I>(b@, a@.sign, a@, S) is Some),
        sum_spec::<I>(a@, b@.sign, b@, S) matches Some(x) ==> {
            let y = sum_spec::<I>(b@, a@.sign, a@, S).unwrap();
            &&& x.scale == y.scale
            &&& x.man == y.man
            &&& x.same_value(y)
        },
{
    lemma_fields_in_range(a);
    lemma_fields_in_range(b);
    let (am, bm, s) = aligned::<I>(a@.man, a@.scale, b@.man, b@.scale, S);
    let (bm2, am2, s2) = aligned::<I>(b@.man, b@.scale, a@.man, a@.scale, S);
    assert(am == am2 && bm == bm2 && s == s2);
}

/// Adding zero, of either sign and at a scale no greater than `a`'s, gives
/// `a` back: the same scale and mantissa, and the same sign unless `a` is
/// zero, so the same number.
pub proof fn lemma_add_zero<I: UnderlyingInt, const S: bool>(a: Decimal<I, S>, z: Decimal<I, S>)
    requires
        z@.man == 0,
        z@.scale <= a@.scale,
    ensures
        sum_spec::<I>(a@, z@.sign, z@, S) matches Some(v) && v.man == a@.man && v.scale == a@.scale
            && (a@.man != 0 ==> v.sign == a@.sign) && v.same_value(a@),
{
    lemma_fields_in_range(a);
    lemma_fields_in_range(z);
    I::lemma_shape(a.raw());
    // a zero has all its bits free: more digits than any scale
    assert(crate::math::bit_len(0) == 0);
    assert(crate::ops::avail_digits::<I>(0, S) >= I::spec_max_scale());
    let v = sum_spec::<I>(a@, z@.sign, z@, S).unwrap();
    assert(v.man == a@.man && v.scale == a@.scale);
}

/// Subtracting `b` is adding its negation.
pub proof fn lemma_sub_is_add_neg<I: UnderlyingInt>(a: Decimal<I, true>, b: Decimal<I, true>)
    ensures
        sum_spec::<I>(a@, (1 - b@.sign) as nat, b@, true) == sum_spec::<I>(
            a@,
            b.negated().sign,
            b.negated(),
            true,
        ),
{
}

/// Negating both terms negates the sum: `-a + -b == -(a + b)`, with the
/// same scale and mantissa.
pub proof fn lemma_add_negated<I: UnderlyingInt>(a: Decimal<I, true>, b: Decimal<I, true>)
    ensures
        (sum_spec::<I>(a.negated(), b.negated().sign, b.negated(), true) is Some) == (sum_spec::<I>(
            a@,
            b@.sign,
            b@,
            true,
        ) is Some),
        sum_spec::<I>(a@, b@.sign, b@, true) matches Some(y) ==> sum_spec::<I>(
            a.negated(),
            b.negated().sign,
            b.negated(),
            true,
        ) == Some(view_of((1 - y.sign) as nat, y.scale, y.man)),
{
    lemma_fields_in_range(a);
    lemma_fields_in_range(b);
}

/// A sum at the larger of the two scales is exact: its number is the sum of
/// the numbers (`b` taken with the sign `b_sign`: its own for an addition,
/// the other one for a subtraction).
pub proof fn lemma_add_exact<I: UnderlyingInt, const S: bool>(
    a: Decimal<I, S>,
    b: Decimal<I, S>,
    b_sign: nat,
)
    requires
        b_sign <= 1,
        sum_spec::<I>(a@, b_sign, b@, S) matches Some(r) && r.scale == (if a@.scale >= b@.scale {
            a@.scale
        } else {
            b@.scale
        }),
    ensures
        ({
            let s = sum_spec::<I>(a@, b_sign, b@, S).unwrap().scale;
            sum_spec::<I>(a@, b_sign, b@, S).unwrap().num() == a@.num() * pow10(
                (s - a@.scale) as nat,
            ) + view_of(b_sign, b@.scale, b@.man).num() * pow10((s - b@.scale) as nat)
        }),
{
    lemma_fields_in_range(a);
    lemma_fields_in_range(b);
    let s = sum_spec::<I>(a@, b_sign, b@, S).unwrap().scale;
    assert(pow10(0) == 1);
    let (am, bm, sc) = aligned::<I>(a@.man, a@.scale, b@.man, b@.scale, S);
    assert(sc == s);
    if a@.scale >= b@.scale {
        assert(a@.man * pow10(0) == a@.man);
        assert(am == a@.man * pow10((s - a@.scale) as nat));
        assert(bm == b@.man * pow10((s - b@.scale) as nat));
    } else {
        assert(b@.man * pow10(0) == b@.man);
        assert(am == a@.man * pow10((s - a@.scale) as nat));
        assert(bm == b@.man * pow10((s - b@.scale) as nat));
    }
    let pa = pow10((s - a@.scale) as nat);
    let pb = pow10((s - b@.scale) as nat);
    let bv = view_of(b_sign, b@.scale, b@.man);
    assert(a@.num() * pa == (if a@.sign == 1 {
        -(am as int)
    } else {
        am as int
    })) by (nonlinear_arith)
        requires
            am == a@.man * pa,
            a@.num() == (if a@.sign == 1 {
                -(a@.man as int)
            } else {
                a@.man as int
            }),
    ;
    assert(bv.num() * pb == (if b_sign == 1 {
        -(bm as int)
    } else {
        bm as int
    })) by (nonlinear_arith)
        requires
            bm == b@.man * pb,
            bv.num() == (if b_sign == 1 {
                -(b@.man as int)
            } else {
                b@.man as int
            }),
    ;
}

/// Multiplication is commutative: `a * b` and `b * a` give the same result.
pub proof fn lemma_mul_commutative<I: UnderlyingInt, const S: bool>(
    a: Decimal<I, S>,
    b: Decimal<I, S>,
)
    ensures
        product_spec::<I>(a@, b@.sign, b@.man, b@.scale, S) == product_spec::<I>(
            b@,
            a@.sign,
            a@.man,
            a@.scale,
            S,
        ),
{
    I::lemma_mul_spec_symmetric(a@.man, b@.man, a@.scale + b@.scale, S);
    lemma_mul_is_commutative(a@.man as int, b@.man as int);
}

/// A product at the sum of the two scales is exact: its mantissa is the
/// product of the mantissas, and, signed, its number the product of the
/// numbers.
pub proof fn lemma_mul_exact<I: UnderlyingInt, const S: bool>(a: Decimal<I, S>, b: Decimal<I, S>)
    requires
        product_spec::<I>(a@, b@.sign, b@.man, b@.scale, S) matches Some(p) && p.scale == a@.scale
            + b@.scale,
    ensures
        product_spec::<I>(a@, b@.sign, b@.man, b@.scale, S).unwrap().man == a@.man * b@.man,
        S ==> product_spec::<I>(a@, b@.sign, b@.man, b@.scale, S).unwrap().num() == a@.num()
            * b@.num(),
{
    lemma_fields_in_range(a);
    lemma_fields_in_range(b);
    let p = a@.man * b@.man;
    assert(pow10(0) == 1);
    lemma_qr(p, 1);
    assert(p % 1 == 0 && p / 1 == p);
    assert(a@.num() * b@.num() == (if sign_xor(a@.sign, b@.sign) == 1 {
        -(p as int)
    } else {
        p as int
    })) by (nonlinear_arith)
        requires
            a@.sign <= 1,
            b@.sign <= 1,
            p == a@.man * b@.man,
            a@.num() == (if a@.sign == 1 {
                -(a@.man as int)
            } else {
                a@.man as int
            }),
            b@.num() == (if b@.sign == 1 {
                -(b@.man as int)
            } else {
                b@.man as int
            }),
            sign_xor(a@.sign, b@.sign) == (if a@.sign == b@.sign {
                0nat
            } else {
                1nat
            }),
    ;
}

/// A quotient is within half a unit of its last digit: `q * b` differs from
/// the dividend, brought to the same scale, by at most half the divisor.
pub proof fn lemma_quotient_error(q: DecimalView, a: DecimalView, b_man: nat, b_scale: nat)
    requires
        b_man > 0,
        is_quotient(q, a, b_man, b_scale),
    ensures
        ({
            let n = a.man * pow10((q.scale + b_scale - a.scale) as nat);
            &&& 2 * (q.man * b_man - n) <= b_man
            &&& 2 * (n - q.man * b_man) <= b_man
        }),
{
    let n = a.man * pow10((q.scale + b_scale - a.scale) as nat);
    lemma_qr(n, b_man);
    let d = n / b_man;
    assert(d * b_man + n % b_man == n);
    if 2 * (n % b_man) >= b_man {
        assert(q.man == d + 1);
        assert(q.man * b_man == d * b_man + b_man) by (nonlinear_arith)
            requires
                q.man == d + 1,
        ;
    } else {
        assert(q.man == d);
    }
}

/// Brings `2 * (x - y) <= dm * qq`, with `x` and `y` at a common scale,
/// back to the scales of their own: `x = nm * ek`, `y = pm * ec`, and
/// `ek * a == ec * b == dd * qq`.
proof fn lemma_rescale_bound(
    x: int,
    y: int,
    nm: int,
    pm: int,
    dm: int,
    ek: int,
    ec: int,
    a: int,
    b: int,
    dd: int,
    qq: int,
)
    requires
        x == nm * ek,
        y == pm * ec,
        ek * a == dd * qq,
        ec * b == dd * qq,
        2 * (x - y) <= dm * qq,
        2 * (y - x) <= dm * qq,
        qq > 0,
        a > 0,
        b > 0,
    ensures
        2 * (nm * b - pm * a) * dd <= dm * a * b,
        2 * (pm * a - nm * b) * dd <= dm * a * b,
{
    let t = nm * b - pm * a;
    assert(x * (a * b) == nm * b * (dd * qq)) by (nonlinear_arith)
        requires
            x == nm * ek,
            ek * a == dd * qq,
    ;
    assert(y * (a * b) == pm * a * (dd * qq)) by (nonlinear_arith)
        requires
            y == pm * ec,
            ec * b == dd * qq,
    ;
    assert((x - y) * (a * b) == x * (a * b) - y * (a * b)) by (nonlinear_arith);
    assert(t * dd * qq == nm * b * (dd * qq) - pm * a * (dd * qq)) by (nonlinear_arith)
        requires
            t == nm * b - pm * a,
    ;
    assert(2 * (x - y) * (a * b) <= dm * qq * (a * b)) by (nonlinear_arith)
        requires
            2 * (x - y) <= dm * qq,
            a > 0,
            b > 0,
    ;
    assert(2 * (y - x) * (a * b) <= dm * qq * (a * b)) by (nonlinear_arith)
        requires
            2 * (y - x) <= dm * qq,
            a > 0,
            b > 0,
    ;
    assert((2 * t * dd) * qq <= (dm * a * b) * qq) by (nonlinear_arith)
        requires
            (x - y) * (a * b) == t * dd * qq,
            2 * (x - y) * (a * b) <= dm * qq * (a * b),
    ;
    assert((-2 * t * dd) * qq <= (dm * a * b) * qq) by (nonlinear_arith)
        requires
            (x - y) * (a * b) == t * dd * qq,
            2 * (y - x) * (a * b) <= dm * qq * (a * b),
    ;
    assert(2 * t * dd <= dm * a * b) by (nonlinear_arith)
        requires
            (2 * t * dd) * qq <= (dm * a * b) * qq,
            qq > 0,
    ;
    assert(-2 * t * dd <= dm * a * b) by (nonlinear_arith)
        requires
            (-2 * t * dd) * qq <= (dm * a * b) * qq,
            qq > 0,
    ;
}

/// Multiplying back: the divisor times a quotient with at least two
/// fraction digits, the product rounded as multiplication rounds it, is
/// within half the divisor of the dividend: `2 * |n - d * q| <= |d|`, here
/// with both sides brought to the scale `n.scale + p.scale + d.scale`.
pub proof fn lemma_div_mul_back<I: UnderlyingInt, const S: bool>(
    n: Decimal<I, S>,
    d: Decimal<I, S>,
    q: Decimal<I, S>,
    p: Decimal<I, S>,
)
    requires
        d@.man > 0,
        is_quotient(q@, n@, d@.man, d@.scale),
        q@.sign == sign_xor(n@.sign, d@.sign),
        product_spec::<I>(d@, q@.sign, q@.man, q@.scale, S) == Some(p@),
        q@.scale >= 2,
    ensures
        ({
            let diff = n@.num() * pow10(p@.scale) - p@.num() * pow10(n@.scale);
            let bound = d@.man * pow10(n@.scale) * pow10(p@.scale);
            &&& 2 * diff * pow10(d@.scale) <= bound
            &&& -2 * diff * pow10(d@.scale) <= bound
        }),
{
    lemma_fields_in_range(n);
    lemma_fields_in_range(d);
    lemma_fields_in_range(q);
    lemma_fields_in_range(p);
    crate::ops::lemma_sizes::<I>();
    I::lemma_shape(vstd::pervasive::arbitrary());
    let nm = n@.man;
    let sn = n@.scale;
    let dm = d@.man;
    let sd = d@.scale;
    let qm = q@.man;
    let sq = q@.scale;
    let pm = p@.man;
    let sp = p@.scale;
    let ss = sd + sq;
    let mb = I::spec_man_bits(S);
    I::lemma_mul_scale_bound(dm, qm, ss, S);
    assert(sp == I::spec_mul_scale(dm, qm, ss, S));
    assert(sp <= ss);
    let c = (ss - sp) as nat;
    let e = pow10(c);
    let prod = dm * qm;
    assert(pm == div_round(prod, e));
    lemma_pow10_pos(c);
    lemma_div_round_error(prod, e);
    lemma_quotient_error(q@, n@, dm, sd);
    let k = (ss - sn) as nat;
    let x = nm * pow10(k);
    assert(qm * dm == prod) by (nonlinear_arith)
        requires
            prod == dm * qm,
    ;
    lemma_pow10_mono(2, sq);
    lemma_pow10_values();
    // the product is exact to a hundredth of the divisor, or lands on `n`
    if e <= 99 * dm {
        assert(dm + e <= dm * pow10(sq)) by (nonlinear_arith)
            requires
                e <= 99 * dm,
                pow10(sq) >= 100,
        ;
    } else {
        if c == 0 {
            assert(false);
        } else if sp != I::spec_max_scale() {
            assert(e * pow2n(mb) <= 20 * prod);
            assert(false) by (nonlinear_arith)
                requires
                    e * pow2n(mb) <= 20 * prod,
                    prod == dm * qm,
                    qm < pow2n(mb),
                    e > 99 * dm,
                    dm > 0,
            ;
        } else {
            // `n` has no more fraction digits than the product keeps
            assert(k >= c);
            lemma_pow10_add((k - c) as nat, c);
            let m = nm * pow10((k - c) as nat);
            assert(x == m * e) by (nonlinear_arith)
                requires
                    x == nm * pow10(k),
                    m == nm * pow10((k - c) as nat),
                    pow10(k) == pow10((k - c) as nat) * e,
            ;
            lemma_div_round_near(prod, m, e);
            assert(pm * e == x);
        }
    }
    assert(2 * (x - pm * e) <= dm * pow10(sq));
    assert(2 * (pm * e - x) <= dm * pow10(sq));
    // back to the scales of `n` and `p`
    lemma_pow10_add(k, sn);
    lemma_pow10_add(c, sp);
    lemma_pow10_add(sd, sq);
    lemma_pow10_pos(sn);
    lemma_pow10_pos(sp);
    lemma_pow10_pos(sq);
    lemma_rescale_bound(
        x as int,
        (pm * e) as int,
        nm as int,
        pm as int,
        dm as int,
        pow10(k) as int,
        e as int,
        pow10(sn) as int,
        pow10(sp) as int,
        pow10(sd) as int,
        pow10(sq) as int,
    );
    assert(p@.sign == n@.sign);
    let a = pow10(sn) as int;
    let b = pow10(sp) as int;
    if n@.sign == 1 {
        assert(n@.num() * b - p@.num() * a == -(nm * b - pm * a)) by (nonlinear_arith)
            requires
                n@.num() == -(nm as int),
                p@.num() == -(pm as int),
        ;
    }
}

/// Standing for the same number is an equivalence: reflexive, symmetric and
/// transitive.
pub proof fn lemma_same_value_equivalence(a: DecimalView, b: DecimalView, c: DecimalView)
    ensures
        a.same_value(a),
        a.same_value(b) == b.same_value(a),
        a.same_value(b) && b.same_value(c) ==> a.same_value(c),
{
    if a.same_value(b) && b.same_value(c) {
        let (pa, pb, pc) = (pow10(a.scale) as int, pow10(b.scale) as int, pow10(c.scale) as int);
        lemma_pow10_pos(b.scale);
        assert(pb * (a.num() * pc) == pb * (c.num() * pa)) by (nonlinear_arith)
            requires
                a.num() * pb == b.num() * pa,
                b.num() * pc == c.num() * pb,
        ;
        lemma_mul_equality_converse(pb, a.num() * pc, c.num() * pa);
    }
}

/// The order of numbers: of two decimals exactly one is smaller, or they
/// stand for the same number.
pub proof fn lemma_order_trichotomy(a: DecimalView, b: DecimalView)
    ensures
        a.less_than(b) || a.same_value(b) || b.less_than(a),
        !(a.less_than(b) && a.same_value(b)),
        !(a.less_than(b) && b.less_than(a)),
        !(a.same_value(b) && b.less_than(a)),
{
}

/// The order of numbers is transitive.
pub proof fn lemma_order_transitive(a: DecimalView, b: DecimalView, c: DecimalView)
    requires
        a.less_than(b),
        b.less_than(c),
    ensures
        a.less_than(c),
{
    let (pa, pb, pc) = (pow10(a.scale) as int, pow10(b.scale) as int, pow10(c.scale) as int);
    lemma_pow10_pos(a.scale);
    lemma_pow10_pos(b.scale);
    lemma_pow10_pos(c.scale);
    lemma_mul_strict_inequality(a.num() * pb, b.num() * pa, pc);
    lemma_mul_strict_inequality(b.num() * pc, c.num() * pb, pa);
    assert((a.num() * pc) * pb < (c.num() * pa) * pb) by (nonlinear_arith)
        requires
            (a.num() * pb) * pc < (b.num() * pa) * pc,
            (b.num() * pc) * pa < (c.num() * pb) * pa,
    ;
    if a.num() * pc >= c.num() * pa {
        assert((a.num() * pc) * pb >= (c.num() * pa) * pb) by (nonlinear_arith)
            requires
                a.num() * pc >= c.num() * pa,
                pb > 0,
        ;
    }
}

/// All zeros stand for the same number, whatever their sign and scale.
pub proof fn lemma_zeros_equal(a: DecimalView, b: DecimalView)
    requires
        a.man == 0,
        b.man == 0,
    ensures
        a.same_value(b),
{
    assert(a.num() == 0 && b.num() == 0);
    assert(a.num() * pow10(b.scale) == 0 && b.num() * pow10(a.scale) == 0) by (nonlinear_arith)
        requires
            a.num() == 0,
            b.num() == 0,
    ;
}

/// A decimal is determined by its signed mantissa and its scale, but for the
/// sign of a zero: so building a decimal from the parts of another gives
/// that decimal back.
pub proof fn lemma_parts_determine<I: UnderlyingInt>(d: Decimal<I, true>, e: Decimal<I, true>)
    requires
        e@.num() == d@.num(),
        e@.scale == d@.scale,
        d@.man > 0 || e@.sign == d@.sign,
    ensures
        e == d,
{
    lemma_fields_in_range(d);
    lemma_fields_in_range(e);
    assert(e@ == d@);
    Decimal::<I, true>::lemma_from_view(d);
    Decimal::<I, true>::lemma_from_view(e);
}

} // verus!

verus! {

/// The bytes [`Decimal::to_string`] shows for a decimal with view `v`.
pub open spec fn shown_bytes(v: DecimalView, max_scale: nat) -> Seq<u8> {
    (if v.sign == 1 && v.man != 0 {
        seq![MINUS]
    } else {
        Seq::<u8>::empty()
    }) + display_digits(v.man, v.scale, v.scale, max_scale)
}

/// Digits are digits.
proof fn lemma_digits_are_digits(n: nat)
    ensures
        forall|i: int| 0 <= i < digits_of(n).len() ==> is_digit(#[trigger] digits_of(n)[i]),
        digits_of(n).len() >= 1,
    decreases n,
{
    if n >= 10 {
        lemma_digits_are_digits(n / 10);
        let d = digits_of(n / 10);
        assert forall|i: int| 0 <= i < digits_of(n).len() implies is_digit(
            #[trigger] digits_of(n)[i],
        ) by {
            if i < d.len() {
                assert(digits_of(n)[i] == d[i]);
            }
        }
    }
}

/// The number of digits of `n` and the power of ten above it.
proof fn lemma_digits_below(n: nat)
    ensures
        n < pow10(digits_of(n).len()),
    decreases n,
{
    if n >= 10 {
        lemma_digits_below(n / 10);
        let l = digits_of(n / 10).len();
        assert(pow10(l + 1) == 10 * pow10(l));
        assert(digits_of(n).len() == l + 1);
    } else {
        lemma_pow10_values();
    }
}

/// Reading the digits of `n` in front of `rest`, after a prefix with value
/// `acc`, reads `n` on.
proof fn lemma_read_digits(n: nat, rest: Seq<u8>, acc: nat, max: nat)
    requires
        acc * pow10(digits_of(n).len()) + n <= max,
    ensures
        digits_from(digits_of(n) + rest, acc, max) == digits_from(
            rest,
            acc * pow10(digits_of(n).len()) + n,
            max,
        ),
    decreases n,
{
    lemma_pow10_pos(digits_of(n).len());
    if n < 10 {
        let s = digits_of(n) + rest;
        assert(s[0] == (DIGIT_0 + n) as u8);
        assert(s.drop_first() =~= rest);
        lemma_pow10_values();
        assert(acc * pow10(1) == acc * 10);
    } else {
        let c = (DIGIT_0 + n % 10) as u8;
        let l = digits_of(n / 10).len();
        lemma_pow10_pos(l);
        assert(pow10(l + 1) == 10 * pow10(l));
        assert(digits_of(n) + rest =~= digits_of(n / 10) + (seq![c] + rest));
        let v = acc * pow10(l) + n / 10;
        assert(v * 10 + n % 10 == acc * pow10(l + 1) + n) by (nonlinear_arith)
            requires
                v == acc * pow10(l) + n / 10,
                pow10(l + 1) == 10 * pow10(l),
                n == (n / 10) * 10 + n % 10,
        ;
        assert(v <= acc * pow10(l + 1) + n) by (nonlinear_arith)
            requires
                v * 10 + n % 10 == acc * pow10(l + 1) + n,
        ;
        lemma_read_digits(n / 10, seq![c] + rest, acc, max);
        let s = seq![c] + rest;
        assert(s[0] == c);
        assert(s.drop_first() =~= rest);
    }
}

/// Leading zeros read as nothing.
proof fn lemma_read_zeros(k: nat, rest: Seq<u8>, max: nat)
    ensures
        digits_from(zeros(k) + rest, 0, max) == digits_from(rest, 0, max),
    decreases k,
{
    if k > 0 {
        let s = zeros(k) + rest;
        assert(s[0] == DIGIT_0);
        assert(s.drop_first() =~= zeros((k - 1) as nat) + rest);
        lemma_read_zeros((k - 1) as nat, rest, max);
    }
}

/// The digits of `n`, read as an unsigned integer, give `n`.
proof fn lemma_uint_of_digits(n: nat, max: nat)
    requires
        n <= max,
    ensures
        uint_from_bytes(digits_of(n), max) == Ok::<nat, ParseError>(n),
{
    lemma_digits_are_digits(n);
    lemma_read_digits(n, Seq::<u8>::empty(), 0, max);
    assert(digits_of(n) + Seq::<u8>::empty() =~= digits_of(n));
}

/// No point among digits from `i` on.
proof fn lemma_no_point(s: Seq<u8>, i: nat)
    requires
        forall|j: int| 0 <= j < s.len() ==> is_digit(#[trigger] s[j]),
    ensures
        dot_from(s, i) == None::<nat>,
    decreases s.len() - i,
{
    if i < s.len() {
        assert(is_digit(s[i as int]));
        lemma_no_point(s, i + 1);
    }
}

/// The first point after `k` digits is at `k`.
proof fn lemma_point_after(s: Seq<u8>, k: nat, i: nat)
    requires
        i <= k < s.len(),
        s[k as int] == POINT,
        forall|j: int| 0 <= j < k ==> is_digit(#[trigger] s[j]),
    ensures
        dot_from(s, i) == Some(k),
    decreases k - i,
{
    if i < k {
        assert(is_digit(s[i as int]));
        lemma_point_after(s, k, i + 1);
    }
}

/// Reading what is shown gives the decimal back: the same scale and
/// mantissa, and the same sign but for a zero, which reads as positive.
pub proof fn lemma_display_parse_round_trip<I: UnderlyingInt, const S: bool>(d: Decimal<I, S>)
    ensures
        parse_spec::<I>(shown_bytes(d@, I::spec_max_scale()), S) == Ok::<DecimalView, ParseError>(
            view_of(
                if d@.man == 0 {
                    0
                } else {
                    d@.sign
                },
                d@.scale,
                d@.man,
            ),
        ),
{
    lemma_fields_in_range(d);
    crate::ops::lemma_sizes::<I>();
    let v = d@;
    let max = (I::spec_int_base() - 1) as nat;
    let digits = display_digits(v.man, v.scale, v.scale, I::spec_max_scale());
    let s = shown_bytes(v, I::spec_max_scale());
    // the unsigned part reads as the mantissa and the scale
    if v.scale == 0 {
        lemma_digits_are_digits(v.man);
        lemma_no_point(digits, 0);
        lemma_uint_of_digits(v.man, max);
        assert(unsigned_from_bytes(digits, max, I::spec_max_scale()) == Ok::<(nat, nat), ParseError>(
            (v.man, 0nat),
        ));
        assert(is_digit(digits[0]));
    } else {
        let p = pow10(v.scale);
        lemma_pow10_pos(v.scale);
        let int_part = v.man / p;
        let frac = v.man % p;
        lemma_qr(v.man, p);
        assert(int_part <= v.man && frac <= v.man) by (nonlinear_arith)
            requires
                int_part * p + frac == v.man,
                p >= 1,
        ;
        let di = digits_of(int_part);
        lemma_digits_are_digits(int_part);
        lemma_digits_are_digits(frac);
        assert(zeros(0) =~= Seq::<u8>::empty());
        assert(digits =~= di + seq![POINT] + padded(frac, v.scale));
        assert(digits[di.len() as int] == POINT);
        assert forall|j: int| 0 <= j < di.len() implies is_digit(#[trigger] digits[j]) by {
            assert(digits[j] == di[j]);
        }
        lemma_point_after(digits, di.len(), 0);
        assert(digits.take(di.len() as int) =~= di);
        assert(digits.skip((di.len() + 1) as int) =~= padded(frac, v.scale));
        // the fraction is padded to exactly the scale
        crate::display::lemma_digits_len(frac, v.scale);
        let df = digits_of(frac);
        assert(padded(frac, v.scale).len() == v.scale);
        lemma_uint_of_digits(int_part, max);
        lemma_uint_of_digits(frac, max);
        if df.len() < v.scale {
            let z = (v.scale - df.len()) as nat;
            assert(padded(frac, v.scale) == zeros(z) + df);
            lemma_read_zeros(z, df, max);
            assert(zeros(z) + df =~= zeros(z) + (df + Seq::<u8>::empty()));
            assert(df + Seq::<u8>::empty() =~= df);
            assert(zeros(z) + df != Seq::<u8>::empty());
            assert((zeros(z) + df)[0] == DIGIT_0);
            assert(uint_from_bytes(padded(frac, v.scale), max) == Ok::<nat, ParseError>(frac));
        }
        lemma_qr(v.man, p);
        assert(int_part * p + frac == v.man);
        assert(is_digit(digits[0])) by {
            assert(digits[0] == di[0]);
        }
    }
    // the sign
    if v.sign == 1 && v.man != 0 {
        assert(s[0] == MINUS);
        assert(s.drop_first() =~= digits);
    } else {
        assert(s =~= digits);
    }
}

} // verus!

verus! {

/// A string of ASCII characters is made of the same bytes.
proof fn lemma_ascii_string_bytes(t: &str, b: Seq<u8>)
    requires
        t@ == ascii_chars(b),
        is_ascii_bytes(b),
    ensures
        t.spec_bytes() == b,
{
    assert(is_ascii_chars(t@)) by {
        assert forall|i: int| 0 <= i < t@.len() implies '\0' <= #[trigger] t@[i] <= '\u{7f}' by {
            assert(t@[i] == b[i] as char);
        }
    }
    is_ascii_chars_encode_utf8(t@);
    assert forall|i: int| 0 <= i < b.len() implies t.spec_bytes()[i] == b[i] by {
        assert(t@[i] == b[i] as char);
        assert(t@[i] as u8 == t.spec_bytes()[i]);
    }
    assert(t.spec_bytes() =~= b);
}

/// Reading the string a decimal shows (see [`Decimal::to_string`]) gives the
/// decimal back: the same scale and mantissa, and the same sign but for a
/// zero, which reads as positive.
pub proof fn lemma_to_string_from_str<I: UnderlyingInt, const S: bool>(d: Decimal<I, S>, t: &str)
    requires
        t@ == ascii_chars(shown_bytes(d@, I::spec_max_scale())),
    ensures
        parse_spec::<I>(t.spec_bytes(), S) == Ok::<DecimalView, ParseError>(
            view_of(
                if d@.man == 0 {
                    0
                } else {
                    d@.sign
                },
                d@.scale,
                d@.man,
            ),
        ),
{
    let b = shown_bytes(d@, I::spec_max_scale());
    crate::display::lemma_display_ascii(d@.man, d@.scale, d@.scale, I::spec_max_scale());
    assert(is_ascii_bytes(b)) by {
        let digits = display_digits(d@.man, d@.scale, d@.scale, I::spec_max_scale());
        assert forall|i: int| 0 <= i < b.len() implies b[i] < 128 by {
            if d@.sign == 1 && d@.man != 0 {
                if i > 0 {
                    assert(b[i] == digits[i - 1]);
                }
            } else {
                assert(b[i] == digits[i]);
            }
        }
    }
    lemma_ascii_string_bytes(t, b);
    lemma_display_parse_round_trip(d);
}

} // verus!

verus! {

/// A leading `+` changes nothing of what is read: `"+" + t` reads as `t`
/// (for `t` that does not itself start with a sign).
pub proof fn lemma_parse_plus<I: UnderlyingInt>(t: Seq<u8>, signed: bool)
    requires
        t.len() > 0 ==> t[0] != PLUS && t[0] != MINUS,
    ensures
        parse_spec::<I>(seq![PLUS] + t, signed) == parse_spec::<I>(t, signed),
{
    let s = seq![PLUS] + t;
    assert(s[0] == PLUS);
    assert(s.drop_first() =~= t);
    if t.len() == 0 {
        assert(dot_from(t, 0) is None);
    }
}

/// A leading `-` negates what is read: for a signed decimal, `"-" + t`
/// reads as `t` with the sign set (for `t` that does not itself start with
/// a sign); an unsigned decimal refuses it.
pub proof fn lemma_parse_minus<I: UnderlyingInt>(t: Seq<u8>, signed: bool)
    requires
        t.len() > 0 ==> t[0] != PLUS && t[0] != MINUS,
    ensures
        signed ==> parse_spec::<I>(seq![MINUS] + t, signed) == match parse_spec::<I>(t, signed) {
            Ok(v) => Ok(DecimalView { sign: 1, scale: v.scale, man: v.man }),
            Err(e) => Err(e),
        },
        !signed ==> parse_spec::<I>(seq![MINUS] + t, signed) == Err::<DecimalView, ParseError>(
            ParseError::Invalid,
        ),
{
    let s = seq![MINUS] + t;
    assert(s[0] == MINUS);
    assert(s.drop_first() =~= t);
    if t.len() == 0 {
        assert(dot_from(t, 0) is None);
    }
}

} // verus!

verus! {

/// Converting an `f32`, given by its bits, keeps its sign and its value: a
/// zero gives zero; a float with no binary fraction gives its integer
/// exactly; one with `k` binary fraction digits gives a decimal within half
/// a unit of its last digit.
pub proof fn lemma_f32_conversion<I: UnderlyingInt>(bits: u32, signed: bool, v: DecimalView)
    requires
        float_result::<I>(f32_fields(bits), 24, signed) == Ok::<DecimalView, FromFloatError>(v),
    ensures
        ({
            let sign = bits as nat / pow2n(31);
            let ex = (bits as nat / pow2n(23)) % 256;
            let m = pow2n(23) + bits as nat % pow2n(23);
            &&& ex == 0 ==> v.man == 0 && v.scale == 0
            &&& v.man > 0 ==> v.sign == sign
            &&& ex >= 150 ==> v.scale == 0 && v.man == m * pow2n((ex - 150) as nat)
            &&& 0 < ex < 150 ==> ({
                let k = (150 - ex) as nat;
                &&& 2 * (v.man * pow2n(k) - m * pow10(v.scale)) <= pow2n(k)
                &&& 2 * (m * pow10(v.scale) - v.man * pow2n(k)) <= pow2n(k)
            })
        }),
{
    let sign = bits as nat / pow2n(31);
    let ex = (bits as nat / pow2n(23)) % 256;
    let m = pow2n(23) + bits as nat % pow2n(23);
    if ex == 0 {
        assert(v.man == 0 && v.scale == 0);
    } else {
        assert(ex != 255);
        assert(f32_fields(bits) == Ok::<(nat, nat, int), FromFloatError>((sign, m, ex - 150)));
        assert(v.man > 0 ==> v.sign == sign);
    }
    if ex == 150 {
        assert(pow2n(0) == 1);
        assert(v.man == m);
        let z = (ex - 150) as nat;
        assert(z == 0);
        assert(pow2n(z) == 1);
        assert(m * pow2n(z) == m) by (nonlinear_arith)
            requires
                pow2n(z) == 1,
        ;
    } else if ex > 150 {
        assert(v.scale == 0);
        assert(v.man == m * pow2n((ex - 150) as nat));
    }
    if 0 < ex < 150 {
        let k = (150 - ex) as nat;
        lemma_pow2_pos(k);
        lemma_div_round_error(m * pow10(v.scale), pow2n(k));
    }
}

/// Converting an `f64`, given by its bits, keeps its sign and its value: a
/// zero gives zero; a float with no binary fraction gives its integer
/// exactly; one with `k` binary fraction digits gives a decimal within half
/// a unit of its last digit.
pub proof fn lemma_f64_conversion<I: UnderlyingInt>(bits: u64, signed: bool, v: DecimalView)
    requires
        float_result::<I>(f64_fields(bits), 53, signed) == Ok::<DecimalView, FromFloatError>(v),
    ensures
        ({
            let sign = bits as nat / pow2n(63);
            let ex = (bits as nat / pow2n(52)) % 2048;
            let m = pow2n(52) + bits as nat % pow2n(52);
            &&& ex == 0 ==> v.man == 0 && v.scale == 0
            &&& v.man > 0 ==> v.sign == sign
            &&& ex >= 1075 ==> v.scale == 0 && v.man == m * pow2n((ex - 1075) as nat)
            &&& 0 < ex < 1075 ==> ({
                let k = (1075 - ex) as nat;
                &&& 2 * (v.man * pow2n(k) - m * pow10(v.scale)) <= pow2n(k)
                &&& 2 * (m * pow10(v.scale) - v.man * pow2n(k)) <= pow2n(k)
            })
        }),
{
    let sign = bits as nat / pow2n(63);
    let ex = (bits as nat / pow2n(52)) % 2048;
    let m = pow2n(52) + bits as nat % pow2n(52);
    if ex == 0 {
        assert(v.man == 0 && v.scale == 0);
    } else {
        assert(ex != 2047);
        assert(f64_fields(bits) == Ok::<(nat, nat, int), FromFloatError>((sign, m, ex - 1075)));
        assert(v.man > 0 ==> v.sign == sign);
    }
    if ex == 1075 {
        let z = (ex - 1075) as nat;
        assert(z == 0);
        assert(pow2n(z) == 1);
        assert(v.man == m);
        assert(m * pow2n(z) == m) by (nonlinear_arith)
            requires
                pow2n(z) == 1,
        ;
    } else if ex > 1075 {
        assert(v.scale == 0);
        assert(v.man == m * pow2n((ex - 1075) as nat));
    }
    if 0 < ex < 1075 {
        let k = (1075 - ex) as nat;
        lemma_pow2_pos(k);
        lemma_div_round_error(m * pow10(v.scale), pow2n(k));
    }
}

} // verus!

verus! {

/// A `u32` quotient keeps as many fraction digits as fit: unless the
/// division is exact at the quotient's scale, that scale, with the
/// divisor's extra fraction digits, reaches the largest scale, or the
/// mantissa is more than a twentieth of the largest mantissa.
pub proof fn lemma_quotient_digits_u32<const S: bool>(
    n: Decimal<u32, S>,
    d: Decimal<u32, S>,
    q: DecimalView,
)
    requires
        quotient_spec::<u32>(n@, d@.sign, d@.man, d@.scale, S) == Some(q),
    ensures
        q.scale + d@.scale >= n@.scale,
        (n@.man * pow10((q.scale + d@.scale - n@.scale) as nat)) % d@.man == 0 || q.scale + sat_sub(
            d@.scale,
            n@.scale,
        ) == u32::spec_max_scale() || 20 * q.man > u32::spec_max_man(S),
{
    lemma_fields_in_range(n);
    lemma_fields_in_range(d);
    <u32 as UnderlyingInt>::lemma_shape(0);
    lemma_pow2_values();
    let r = u32::spec_div(n@.man, d@.man, n@.scale, d@.scale, S).unwrap();
    assert(r.0 == q.man && r.1 == q.scale);
    lemma_one_step_digits(n@.man, d@.man, n@.scale, d@.scale, u32::spec_man_bits(S), 7, r);
}

/// A `u64` quotient keeps as many fraction digits as fit: unless the
/// division is exact at the quotient's scale, that scale, with the
/// divisor's extra fraction digits, reaches the largest scale, or the
/// mantissa is more than a twentieth of the largest mantissa.
pub proof fn lemma_quotient_digits_u64<const S: bool>(
    n: Decimal<u64, S>,
    d: Decimal<u64, S>,
    q: DecimalView,
)
    requires
        quotient_spec::<u64>(n@, d@.sign, d@.man, d@.scale, S) == Some(q),
    ensures
        q.scale + d@.scale >= n@.scale,
        (n@.man * pow10((q.scale + d@.scale - n@.scale) as nat)) % d@.man == 0 || q.scale + sat_sub(
            d@.scale,
            n@.scale,
        ) == u64::spec_max_scale() || 20 * q.man > u64::spec_max_man(S),
{
    lemma_fields_in_range(n);
    lemma_fields_in_range(d);
    <u64 as UnderlyingInt>::lemma_shape(0);
    lemma_pow2_values();
    let r = u64::spec_div(n@.man, d@.man, n@.scale, d@.scale, S).unwrap();
    assert(r.0 == q.man && r.1 == q.scale);
    lemma_one_step_digits(n@.man, d@.man, n@.scale, d@.scale, u64::spec_man_bits(S), 15, r);
}

} // verus!

verus! {

/// A `u128` quotient keeps as many fraction digits as fit: unless the
/// division is exact at the quotient's scale, that scale, with the
/// divisor's extra fraction digits, reaches the largest scale, or the
/// mantissa is more than a twentieth of the largest mantissa, or, for a
/// divisor below `2^32` whose remainder leaves room for 28 digits only, the
/// quotient has at least 28 digits past the scale of the dividend.
pub proof fn lemma_quotient_digits_u128<const S: bool>(
    n: Decimal<u128, S>,
    d: Decimal<u128, S>,
    q: DecimalView,
)
    requires
        quotient_spec::<u128>(n@, d@.sign, d@.man, d@.scale, S) == Some(q),
    ensures
        q.scale + d@.scale >= n@.scale,
        (n@.man * pow10((q.scale + d@.scale - n@.scale) as nat)) % d@.man == 0 || q.scale + sat_sub(
            d@.scale,
            n@.scale,
        ) == u128::spec_max_scale() || 20 * q.man > u128::spec_max_man(S) || (d@.man
            < 0x1_0000_0000 && q.scale + d@.scale - n@.scale >= 28),
{
    lemma_fields_in_range(n);
    lemma_fields_in_range(d);
    <u128 as UnderlyingInt>::lemma_shape(0);
    lemma_pow2_values();
    let nm = n@.man;
    let dm = d@.man;
    let sn = n@.scale;
    let sd = d@.scale;
    let mb = u128::spec_man_bits(S);
    let diff = sat_sub(sn, sd);
    let max = (31 - diff) as nat;
    let small = dm <= 0xffff_ffff;
    let act = if small {
        short_div_scale(nm, dm, max, mb)
    } else {
        long_div_scale(nm, dm, 0, max, mb)
    };
    let r = u128::spec_div(nm, dm, sn, sd, S).unwrap();
    assert(pow10(0) == 1);
    assert(nm * pow10(0) == nm) by (nonlinear_arith)
        requires
            pow10(0) == 1,
    ;
    let t = nm * pow10(act);
    lemma_qr(t, dm);
    if small {
        if nm % dm != 0 && act != max {
            let ra = sat_sub(128, bit_len(nm % dm));
            let rb = sat_sub(mb, bit_len(nm / dm));
            assert(act == btd(min_nat(ra, rb)));
            if rb <= ra {
                lemma_quotient_full(nm, dm, act, mb);
            } else {
                lemma_qr(nm, dm);
                lemma_bit_len_le(nm % dm, 32);
                assert(ra >= 96);
                assert(btd(ra) >= 28) by (nonlinear_arith)
                    requires
                        ra >= 96,
                ;
            }
        }
    } else {
        lemma_long_div_end(nm, dm, 0, max, mb);
        if act != max && t % dm != 0 {
            let ra = sat_sub(128, bit_len(t % dm));
            let rb = sat_sub(mb, bit_len(t / dm));
            assert(room(nm, dm, act, mb, 128) == 0);
            assert(btd(min_nat(ra, rb)) == 0);
            lemma_bit_len_le(t % dm, mb);
            assert(ra >= 5);
            assert(min_nat(ra, rb) <= 3) by (nonlinear_arith)
                requires
                    btd(min_nat(ra, rb)) == 0,
                    btd(min_nat(ra, rb)) == (min_nat(ra, rb) * 1233) / 4096,
            ;
            let k = bit_len(t / dm);
            assert(k >= mb - 3);
            lemma_bit_len(t / dm);
            lemma_pow2_mono((mb - 4) as nat, (k - 1) as nat);
            lemma_pow2_add((mb - 4) as nat, 4);
            assert(pow2n(mb) == pow2n((mb - 4) as nat) * 16);
        }
    }
    lemma_quotient_at_digits(nm, dm, sn, sd, act, mb, 31, small, 28, r);
}

} // verus!
