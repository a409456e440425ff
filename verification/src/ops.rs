//! Arithmetic, comparison and operators.
use core::cmp::Ordering;
use core::ops::Neg;
use vstd::arithmetic::div_mod::{lemma_div_of0, lemma_small_mod};
use vstd::prelude::*;
use vstd::std_specs::cmp::{PartialEqSpecImpl, PartialOrdSpecImpl};
use vstd::std_specs::ops::NegSpecImpl;

use crate::math::{
    bit_len, btd, div_round, lemma_bit_len, lemma_btd_bounds, lemma_div_round_add_half,
    lemma_div_round_le, lemma_pow10_add, lemma_pow10_mono, lemma_pow10_pos, lemma_pow10_values,
    lemma_pow2_add, lemma_pow2_mono, lemma_pow2_values, pow10, pow2n, sat_sub,
};
use crate::{lemma_fields_in_range, Decimal, DecimalView, UnderlyingInt};

verus! {

/// `bits * 1233 >> 12`: how many decimal digits fit in `bits` bits.
pub(crate) fn bits_to_digits(bits: u32) -> (r: u32)
    requires
        bits <= 0x0010_0000,
    ensures
        r == btd(bits as nat),
{
    let p = bits * 1233;
    let r = p >> 12u32;
    proof {
        assert(r == p / 4096) by (bit_vector)
            requires
                r == p >> 12u32,
        ;
    }
    r  // math!
}

/// Decimal digits by which a mantissa can still grow: its free bits, converted.
pub open spec fn avail_digits<I: UnderlyingInt>(man: nat, signed: bool) -> nat {
    btd((I::spec_man_bits(signed) - bit_len(man)) as nat)
}

/// The two mantissas and the common scale after bringing two scales
/// together. The mantissa with the smaller scale is multiplied by ten as far
/// as it fits; if that is not enough, the other one is divided (rounded) for
/// the rest.
pub open spec fn aligned<I: UnderlyingInt>(
    a_man: nat,
    a_scale: nat,
    b_man: nat,
    b_scale: nat,
    signed: bool,
) -> (nat, nat, nat) {
    if a_scale == b_scale {
        (a_man, b_man, a_scale)
    } else if a_scale > b_scale {
        let avail = avail_digits::<I>(b_man, signed);
        let diff = (a_scale - b_scale) as nat;
        if diff <= avail {
            (a_man, b_man * pow10(diff), a_scale)
        } else {
            (
                div_round(a_man, pow10((diff - avail) as nat)),
                b_man * pow10(avail),
                b_scale + avail,
            )
        }
    } else {
        let avail = avail_digits::<I>(a_man, signed);
        let diff = (b_scale - a_scale) as nat;
        if diff <= avail {
            (a_man * pow10(diff), b_man, b_scale)
        } else {
            (
                a_man * pow10(avail),
                div_round(b_man, pow10((diff - avail) as nat)),
                a_scale + avail,
            )
        }
    }
}

/// Sign and magnitude of the signed sum of two mantissas.
pub open spec fn signed_sum(a_sign: nat, a_man: nat, b_sign: nat, b_man: nat) -> (nat, nat) {
    if a_sign == b_sign {
        (a_sign, a_man + b_man)
    } else if a_man > b_man {
        (a_sign, (a_man - b_man) as nat)
    } else {
        (b_sign, (b_man - a_man) as nat)
    }
}

/// What adding `b` (with its sign replaced by `b_sign`) to `a` gives: the
/// scales are aligned, the mantissas added, and a sum that does not fit is
/// divided by ten (rounded) if the scale allows.
pub open spec fn sum_spec<I: UnderlyingInt>(
    a: DecimalView,
    b_sign: nat,
    b: DecimalView,
    signed: bool,
) -> Option<DecimalView> {
    let (am, bm, scale) = aligned::<I>(a.man, a.scale, b.man, b.scale, signed);
    let (sign, sum) = signed_sum(a.sign, am, b_sign, bm);
    if !signed && sign == 1 && sum > 0 {
        None
    } else {
        let sign = if !signed { 0 } else { sign };
        if sum <= I::spec_max_man(signed) {
            Some(DecimalView { sign, scale, man: sum })
        } else if scale > 0 {
            Some(DecimalView { sign, scale: (scale - 1) as nat, man: div_round(sum, 10) })
        } else {
            None
        }
    }
}

/// A mantissa multiplied by ten as far as its free digits allow still fits.
proof fn lemma_avail_fits<I: UnderlyingInt>(man: nat, signed: bool, k: nat, x: I)
    requires
        man <= I::spec_max_man(signed),
        k <= avail_digits::<I>(man, signed),
    ensures
        man * pow10(k) <= I::spec_max_man(signed),
        k <= I::spec_man_bits(signed),
{
    I::lemma_shape(x);
    let mb = I::spec_man_bits(signed);
    let bl = bit_len(man);
    lemma_bit_len(man);
    crate::math::lemma_bit_len_le(man, mb);
    let f = (mb - bl) as nat;
    lemma_btd_bounds(f);
    lemma_pow10_mono(k, btd(f));
    lemma_pow2_add(bl, f);
    lemma_pow10_pos(k);
    assert(man * pow10(k) < pow2n(mb)) by (nonlinear_arith)
        requires
            man < pow2n(bl),
            pow10(k) <= pow2n(f),
            pow2n(bl + f) == pow2n(bl) * pow2n(f),
            bl + f == mb,
            pow10(k) >= 1,
    ;
    assert(btd(f) <= f);
}

/// Facts on the sizes of the three shapes that the arithmetic relies on.
pub proof fn lemma_sizes<I: UnderlyingInt>()
    ensures
        I::spec_max_scale() <= I::spec_max_exp(),
        I::spec_max_scale() <= 31,
        I::spec_max_man(true) < I::spec_max_man(false),
        2 * I::spec_max_man(false) + 10 < I::spec_int_base(),
        I::spec_max_man(false) + pow10(I::spec_max_exp()) < I::spec_int_base(),
        btd(I::spec_man_bits(false)) <= I::spec_max_exp(),
        btd(I::spec_man_bits(true)) <= btd(I::spec_man_bits(false)),
        I::spec_man_bits(true) < I::spec_man_bits(false),
        I::spec_man_bits(false) + 3 <= I::spec_bits(),
        I::spec_max_man(false) < I::spec_int_base(),
        I::spec_max_scale() + 1 <= I::spec_man_bits(true),
        pow10(1) == 10,
{
    I::lemma_shape(vstd::pervasive::arbitrary());
    lemma_pow2_values();
    lemma_pow10_values();
}

/// The fields of a decimal taken as a view.
pub open spec fn view_of(sign: nat, scale: nat, man: nat) -> DecimalView {
    DecimalView { sign, scale, man }
}

/// The views of an optional decimal.
pub open spec fn opt_view<I: UnderlyingInt, const S: bool>(r: Option<Decimal<I, S>>) -> Option<
    DecimalView,
> {
    match r {
        Some(d) => Some(d@),
        None => None,
    }
}

/// Comparing two decimals amounts to comparing one mantissa, scaled up to the
/// other's scale, with the other mantissa.
pub proof fn lemma_scaled_compare(a: DecimalView, b: DecimalView)
    requires
        a.scale <= b.scale,
    ensures
        a.less_than(b) == (a.num() * pow10((b.scale - a.scale) as nat) < b.num()),
        b.less_than(a) == (b.num() < a.num() * pow10((b.scale - a.scale) as nat)),
        a.same_value(b) == (a.num() * pow10((b.scale - a.scale) as nat) == b.num()),
        b.same_value(a) == a.same_value(b),
{
    let d = (b.scale - a.scale) as nat;
    lemma_pow10_add(a.scale, d);
    lemma_pow10_pos(a.scale);
    let p = pow10(a.scale);
    let x = a.num() * pow10(d);
    let y = b.num();
    assert(a.num() * pow10(b.scale) == x * p) by (nonlinear_arith)
        requires
            pow10(b.scale) == p * pow10(d),
            x == a.num() * pow10(d),
    ;
    assert((x * p < y * p) == (x < y)) by (nonlinear_arith)
        requires
            p > 0,
    ;
    assert((y * p < x * p) == (y < x)) by (nonlinear_arith)
        requires
            p > 0,
    ;
    assert((x * p == y * p) == (x == y)) by (nonlinear_arith)
        requires
            p > 0,
    ;
}

impl<I: UnderlyingInt, const S: bool> Decimal<I, S> {
    /// Bits of the sign and the scale.
    fn meta_bits() -> (r: u32)
        ensures
            r + I::spec_man_bits(S) == I::spec_bits(),
    {
        proof {
            I::lemma_shape(vstd::pervasive::arbitrary());
        }
        I::bits() - I::man_bits(S)
    }

    /// Brings `small_man` (at `small_scale`) up to `big_scale` as far as it
    /// fits, and `big_man` down for the rest.
    // Mark this function as #[inline(never)] to avoid interfering with the
    // main flow of the caller do_add(), thereby enabling better compiler
    // optimizations.
    #[inline(never)]
    fn rescale(big_man: I, big_scale: u32, small_man: I, small_scale: u32) -> (r: (I, I, u32))
        requires
            small_scale < big_scale <= I::spec_max_scale(),
            big_man.val() <= I::spec_max_man(S),
            small_man.val() <= I::spec_max_man(S),
        ensures
            (r.1.val(), r.0.val(), r.2 as nat) == aligned::<I>(
                small_man.val(),
                small_scale as nat,
                big_man.val(),
                big_scale as nat,
                S,
            ),
            r.0.val() <= I::spec_max_man(S),
            r.1.val() <= I::spec_max_man(S),
            r.2 <= I::spec_max_scale(),
    {
        proof {
            lemma_sizes::<I>();
            I::lemma_shape(small_man);
            lemma_bit_len(small_man.val());
            crate::math::lemma_bit_len_le(small_man.val(), I::spec_man_bits(S));
        }
        let free = small_man.leading_zeros() - Self::meta_bits();
        let small_avail = bits_to_digits(free);
        let diff = big_scale - small_scale;
        proof {
            assert(small_avail == avail_digits::<I>(small_man.val(), S));
            assert(btd(free as nat) <= btd(I::spec_man_bits(false))) by (nonlinear_arith)
                requires
                    free <= I::spec_man_bits(false),
            ;
        }
        if diff <= small_avail {
            // rescale small_man to big_scale
            proof {
                lemma_avail_fits::<I>(small_man.val(), S, diff as nat, small_man);
            }
            (big_man, small_man.mul_exp(diff), big_scale)
        } else {
            // rescale both small_man and big_man
            proof {
                lemma_avail_fits::<I>(small_man.val(), S, small_avail as nat, small_man);
                lemma_pow10_mono((diff - small_avail) as nat, I::spec_max_exp());
                lemma_pow10_pos((diff - small_avail) as nat);
                assert(big_man.val() <= big_man.val() * pow10((diff - small_avail) as nat))
                    by (nonlinear_arith)
                    requires
                        pow10((diff - small_avail) as nat) >= 1,
                ;
                lemma_div_round_le(
                    big_man.val(),
                    pow10((diff - small_avail) as nat),
                    big_man.val(),
                );
            }
            let small = small_man.mul_exp(small_avail);
            let big = big_man.div_exp(diff - small_avail);
            (big, small, small_scale + small_avail)
        }
    }

    /// Brings two mantissas of different scales to a common scale.
    fn align_scale(a_man: I, a_scale: u32, b_man: I, b_scale: u32) -> (r: (I, I, u32))
        requires
            a_scale != b_scale,
            a_scale <= I::spec_max_scale(),
            b_scale <= I::spec_max_scale(),
            a_man.val() <= I::spec_max_man(S),
            b_man.val() <= I::spec_max_man(S),
        ensures
            (r.0.val(), r.1.val(), r.2 as nat) == aligned::<I>(
                a_man.val(),
                a_scale as nat,
                b_man.val(),
                b_scale as nat,
                S,
            ),
            r.0.val() <= I::spec_max_man(S),
            r.1.val() <= I::spec_max_man(S),
            r.2 <= I::spec_max_scale(),
    {
        // big: the number with bigger scale; small: the one with smaller scale
        if a_scale > b_scale {
            let (big, small, scale) = Self::rescale(a_man, a_scale, b_man, b_scale);
            (big, small, scale)
        } else {
            let (big, small, scale) = Self::rescale(b_man, b_scale, a_man, a_scale);
            (small, big, scale)
        }
    }

    /// Adds `b` (given by its fields) to `self`.
    #[inline]
    fn do_add(self, b_sign: u8, b_scale: u32, b_man: I) -> (r: Option<Self>)
        requires
            b_sign <= 1,
            b_scale <= I::spec_max_scale(),
            b_man.val() <= I::spec_max_man(S),
        ensures
            opt_view(r) == sum_spec::<I>(
                self@,
                b_sign as nat,
                view_of(b_sign as nat, b_scale as nat, b_man.val()),
                S,
            ),
    {
        proof {
            lemma_sizes::<I>();
        }
        let (a_sign, a_scale, a_man) = self.unpack();

        let (a_man, b_man, scale) = if a_scale == b_scale {
            (a_man, b_man, a_scale)
        } else {
            Self::align_scale(a_man, a_scale, b_man, b_scale)
        };

        // do the addition
        let (sign, sum) = if a_sign == b_sign {
            (a_sign, a_man.int_add(b_man))
        } else if b_man.int_lt(a_man) {
            (a_sign, a_man.int_sub(b_man))
        } else {
            (b_sign, b_man.int_sub(a_man))
        };

        let mut sign = sign;
        if !S && sign == 1 {
            // an unsigned decimal can not be negative, but may be zero
            if sum.int_eq(I::zero()) {
                sign = 0;
            } else {
                return None;
            }
        }
        // pack

        if Self::valid_mantissa(sum) {
            Some(Self::pack(sign, scale, sum))
        } else if scale > 0 {
            proof {
                lemma_div_round_add_half(sum.val(), 1);
                lemma_div_round_le(sum.val(), 10, I::spec_max_man(S));
            }
            let man = sum.div_exp(1);  // rounding-divide
            Some(Self::pack(sign, scale - 1, man))
        } else {
            None
        }
    }

    /// Checked addition. Computes `self + right`, returning `None` if overflow.
    ///
    /// The scales are brought together first; the result is exact unless
    /// the mantissas do not fit (see [`sum_spec`]).
    pub fn checked_add(self, right: Self) -> (r: Option<Self>)
        ensures
            opt_view(r) == sum_spec::<I>(self@, right@.sign, right@, S),
    {
        let (b_sign, b_scale, b_man) = right.unpack();
        self.do_add(b_sign, b_scale, b_man)
    }

    /// Checked subtraction. Computes `self - right`, returning `None` if
    /// overflow, or, for unsigned decimals, if the result is negative.
    pub fn checked_sub(self, right: Self) -> (r: Option<Self>)
        ensures
            opt_view(r) == sum_spec::<I>(self@, (1 - right@.sign) as nat, right@, S),
    {
        let (b_sign, b_scale, b_man) = right.unpack();
        proof {
            assert(b_sign ^ 1 == 1 - b_sign) by (bit_vector)
                requires
                    b_sign <= 1,
            ;
        }
        self.do_add(b_sign ^ 1, b_scale, b_man)
    }

    /// Adds up `items` from the left, starting at zero, returning `None` if
    /// an addition overflows (see [`sum_all`]).
    pub fn checked_sum(items: &[Self]) -> (r: Option<Self>)
        ensures
            opt_view(r) == sum_all::<I>(items@.map_values(|d: Self| d@), S),
    {
        let ghost views = items@.map_values(|d: Self| d@);
        let mut acc = Self::zero();
        let mut i: usize = 0;
        proof {
            assert(views.take(0) =~= Seq::<DecimalView>::empty());
        }
        while i < items.len()
            invariant
                i <= items.len(),
                views == items@.map_values(|d: Self| d@),
                sum_all::<I>(views.take(i as int), S) == Some(acc@),
            decreases items.len() - i,
        {
            let d = items[i];
            proof {
                assert(views.take(i as int + 1).drop_last() =~= views.take(i as int));
                assert(views.take(i as int + 1).last() == d@);
            }
            match acc.checked_add(d) {
                Some(s) => {
                    acc = s;
                },
                None => {
                    proof {
                        lemma_sum_all_none::<I>(views, i as nat + 1, S);
                    }
                    return None;
                },
            }
            i += 1;
        }
        proof {
            assert(views.take(items.len() as int) =~= views);
        }
        Some(acc)
    }
}

/// The sum of `items` added from the left, starting at zero; `None` from
/// the first addition on that has no result (see [`sum_spec`]).
pub open spec fn sum_all<I: UnderlyingInt>(items: Seq<DecimalView>, signed: bool) -> Option<
    DecimalView,
>
    decreases items.len(),
{
    if items.len() == 0 {
        Some(DecimalView { sign: 0, scale: 0, man: 0 })
    } else {
        match sum_all::<I>(items.drop_last(), signed) {
            Some(acc) => sum_spec::<I>(acc, items.last().sign, items.last(), signed),
            None => None,
        }
    }
}

/// Once a prefix has no sum, neither has the whole.
proof fn lemma_sum_all_none<I: UnderlyingInt>(items: Seq<DecimalView>, k: nat, signed: bool)
    requires
        k <= items.len(),
        sum_all::<I>(items.take(k as int), signed) is None,
    ensures
        sum_all::<I>(items, signed) is None,
    decreases items.len() - k,
{
    if k == items.len() {
        assert(items.take(k as int) =~= items);
    } else {
        assert(items.take(k as int + 1).drop_last() =~= items.take(k as int));
        lemma_sum_all_none::<I>(items, k + 1, signed);
    }
}

} // verus!

verus! {

impl<I: UnderlyingInt, const S: bool> Decimal<I, S> {
    /// Whether it is zero.
    pub fn is_zero(self) -> (r: bool)
        ensures
            r == (self@.man == 0),
    {
        let (_, _, man) = self.unpack();
        man.int_eq(I::zero())
    }

    /// Whether it is greater than zero.
    pub fn is_positive(self) -> (r: bool)
        ensures
            r == (self@.num() > 0),
    {
        let (sign, _, man) = self.unpack();
        sign == 0 && !man.int_eq(I::zero())
    }

    /// Compares the numbers: -1, 0 or 1 as `self` is smaller, equal or greater.
    fn compare_num(&self, other: &Self) -> (r: i8)
        ensures
            r == -1 <==> self@.less_than(other@),
            r == 0 <==> self@.same_value(other@),
            r == 1 <==> other@.less_than(self@),
            -1 <= r <= 1,
    {
        let (a_sign, a_scale, a_man) = self.unpack();
        let (b_sign, b_scale, b_man) = other.unpack();
        let ghost a = self@;
        let ghost b = other@;
        proof {
            lemma_sizes::<I>();
            lemma_pow10_values();
            I::lemma_shape(a_man);
            I::lemma_shape(b_man);
            if a.scale <= b.scale {
                lemma_scaled_compare(a, b);
            } else {
                lemma_scaled_compare(b, a);
            }
            lemma_pow10_pos((b.scale - a.scale) as nat);
            lemma_pow10_pos((a.scale - b.scale) as nat);
        }
        if a_sign != b_sign {
            proof {
                let pab = pow10((b.scale - a.scale) as nat) as int;
                let pba = pow10((a.scale - b.scale) as nat) as int;
                let an = a.num();
                let bn = b.num();
                if a.scale <= b.scale {
                    assert(an * pab > bn <== (an >= 0 && bn <= 0 && (an > 0 || bn < 0)))
                        by (nonlinear_arith)
                        requires
                            pab >= 1,
                    ;
                    assert(an * pab < bn <== (an <= 0 && bn >= 0 && (an < 0 || bn > 0)))
                        by (nonlinear_arith)
                        requires
                            pab >= 1,
                    ;
                    assert(an * pab == 0 <== an == 0) by (nonlinear_arith);
                } else {
                    assert(bn * pba < an <== (an >= 0 && bn <= 0 && (an > 0 || bn < 0)))
                        by (nonlinear_arith)
                        requires
                            pba >= 1,
                    ;
                    assert(bn * pba > an <== (an <= 0 && bn >= 0 && (an < 0 || bn > 0)))
                        by (nonlinear_arith)
                        requires
                            pba >= 1,
                    ;
                    assert(bn * pba == 0 <== bn == 0) by (nonlinear_arith);
                }
            }
            if a_man.int_eq(I::zero()) && b_man.int_eq(I::zero()) {
                0
            } else if a_sign == 0 {
                1
            } else {
                -1
            }
        } else {
            // compare the magnitudes
            let ret: i8 = if a_scale == b_scale {
                proof {
                    assert(a.man * pow10((b.scale - a.scale) as nat) == a.man * 1);
                }
                if a_man.int_lt(b_man) {
                    -1
                } else if a_man.int_eq(b_man) {
                    0
                } else {
                    1
                }
            } else if a_scale < b_scale {
                match a_man.checked_mul_exp(b_scale - a_scale) {
                    Some(a_man) => {
                        if a_man.int_lt(b_man) {
                            -1
                        } else if a_man.int_eq(b_man) {
                            0
                        } else {
                            1
                        }
                    },
                    None => 1,
                }
            } else {
                match b_man.checked_mul_exp(a_scale - b_scale) {
                    Some(b_man) => {
                        if a_man.int_lt(b_man) {
                            -1
                        } else if a_man.int_eq(b_man) {
                            0
                        } else {
                            1
                        }
                    },
                    None => -1,
                }
            };
            proof {
                let am = a.man as int;
                let bm = b.man as int;
                if a.scale <= b.scale {
                    let p = pow10((b.scale - a.scale) as nat) as int;
                    assert(ret == -1 <==> am * p < bm);
                    assert(ret == 0 <==> am * p == bm);
                    assert(ret == 1 <==> am * p > bm);
                    if a.sign == 1 {
                        assert((-am) * p == -(am * p)) by (nonlinear_arith);
                    }
                } else {
                    let p = pow10((a.scale - b.scale) as nat) as int;
                    assert(ret == -1 <==> am < bm * p);
                    assert(ret == 0 <==> am == bm * p);
                    assert(ret == 1 <==> am > bm * p);
                    if a.sign == 1 {
                        assert((-bm) * p == -(bm * p)) by (nonlinear_arith);
                    }
                }
            }
            if a_sign == 0 {
                ret
            } else {
                -ret
            }
        }
    }

    /// Compares two decimals by the numbers they stand for.
    pub fn cmp(&self, other: &Self) -> (r: Ordering)
        ensures
            (r == Ordering::Less) == self@.less_than(other@),
            (r == Ordering::Equal) == self@.same_value(other@),
            (r == Ordering::Greater) == other@.less_than(self@),
    {
        let c = self.compare_num(other);
        if c < 0 {
            Ordering::Less
        } else if c == 0 {
            Ordering::Equal
        } else {
            Ordering::Greater
        }
    }
}

/// Which ordering the numbers of two decimals are in.
pub open spec fn value_ordering(a: DecimalView, b: DecimalView) -> Ordering {
    if a.less_than(b) {
        Ordering::Less
    } else if a.same_value(b) {
        Ordering::Equal
    } else {
        Ordering::Greater
    }
}

impl<I: UnderlyingInt, const S: bool> PartialEq for Decimal<I, S> {
    fn eq(&self, other: &Self) -> (r: bool) {
        let (a_sign, a_scale, a_man) = self.unpack();
        let (b_sign, b_scale, b_man) = other.unpack();
        let ghost a = self@;
        let ghost b = other@;
        proof {
            lemma_sizes::<I>();
            lemma_pow10_values();
            I::lemma_shape(a_man);
            I::lemma_shape(b_man);
            if a.scale <= b.scale {
                lemma_scaled_compare(a, b);
                lemma_pow10_pos((b.scale - a.scale) as nat);
            } else {
                lemma_scaled_compare(b, a);
                lemma_pow10_pos((a.scale - b.scale) as nat);
            }
        }
        if a_man.int_eq(I::zero()) {
            proof {
                if a.scale <= b.scale {
                    assert(a.num() * pow10((b.scale - a.scale) as nat) == 0) by (nonlinear_arith)
                        requires
                            a.num() == 0,
                    ;
                } else {
                    assert(b.num() * pow10((a.scale - b.scale) as nat) == 0 <==> b.num() == 0)
                        by (nonlinear_arith)
                        requires
                            pow10((a.scale - b.scale) as nat) > 0,
                    ;
                }
            }
            return b_man.int_eq(I::zero());
        }
        if b_man.int_eq(I::zero()) {
            proof {
                if a.scale <= b.scale {
                    assert(a.num() * pow10((b.scale - a.scale) as nat) != 0) by (nonlinear_arith)
                        requires
                            a.num() != 0,
                            pow10((b.scale - a.scale) as nat) > 0,
                    ;
                } else {
                    assert(b.num() * pow10((a.scale - b.scale) as nat) == 0) by (nonlinear_arith)
                        requires
                            b.num() == 0,
                    ;
                }
            }
            return false;
        }
        if a_sign != b_sign {
            proof {
                if a.scale <= b.scale {
                    assert(a.num() * pow10((b.scale - a.scale) as nat) != b.num()) by (nonlinear_arith)
                        requires
                            a.num() > 0 && b.num() < 0 || a.num() < 0 && b.num() > 0,
                            pow10((b.scale - a.scale) as nat) > 0,
                    ;
                } else {
                    assert(b.num() * pow10((a.scale - b.scale) as nat) != a.num()) by (nonlinear_arith)
                        requires
                            a.num() > 0 && b.num() < 0 || a.num() < 0 && b.num() > 0,
                            pow10((a.scale - b.scale) as nat) > 0,
                    ;
                }
            }
            return false;
        }
        proof {
            let am = a.man as int;
            let bm = b.man as int;
            if a.scale <= b.scale {
                let p = pow10((b.scale - a.scale) as nat) as int;
                assert((-am) * p == -(am * p)) by (nonlinear_arith);
            } else {
                let p = pow10((a.scale - b.scale) as nat) as int;
                assert((-bm) * p == -(bm * p)) by (nonlinear_arith);
            }
        }
        if a_scale == b_scale {
            proof {
                let d = (b.scale - a.scale) as nat;
                assert(d == 0);
                assert(pow10(d) == 1);
                assert(a.num() * 1 == a.num());
            }
            return a_man.int_eq(b_man);
        }
        if a_scale < b_scale {
            match a_man.checked_mul_exp(b_scale - a_scale) {
                Some(a_man) => a_man.int_eq(b_man),
                None => false,
            }
        } else {
            match b_man.checked_mul_exp(a_scale - b_scale) {
                Some(b_man) => b_man.int_eq(a_man),
                None => false,
            }
        }
    }
}

impl<I: UnderlyingInt, const S: bool> PartialEqSpecImpl for Decimal<I, S> {
    open spec fn obeys_eq_spec() -> bool {
        true
    }

    open spec fn eq_spec(&self, other: &Self) -> bool {
        self@.same_value(other@)
    }
}

impl<I: UnderlyingInt, const S: bool> Eq for Decimal<I, S> {

}

impl<I: UnderlyingInt, const S: bool> PartialOrd for Decimal<I, S> {
    fn partial_cmp(&self, other: &Self) -> (r: Option<Ordering>) {
        Some(self.cmp(other))
    }
}

impl<I: UnderlyingInt, const S: bool> PartialOrdSpecImpl for Decimal<I, S> {
    open spec fn obeys_partial_cmp_spec() -> bool {
        true
    }

    open spec fn partial_cmp_spec(&self, other: &Self) -> Option<Ordering> {
        Some(value_ordering(self@, other@))
    }
}

impl<I: UnderlyingInt> Decimal<I, true> {
    /// The negative of `self`: the same scale and mantissa, the other sign.
    pub open spec fn negated(self) -> DecimalView {
        view_of((1 - self@.sign) as nat, self@.scale, self@.man)
    }

    /// The absolute value.
    pub fn abs(self) -> (r: Self)
        ensures
            r@ == view_of(0, self@.scale, self@.man),
    {
        Self::from_underlying(self.underlying().clear_sign_bit())
    }

    /// Whether it is smaller than zero.
    pub fn is_negative(self) -> (r: bool)
        ensures
            r == (self@.num() < 0),
    {
        let (sign, _, man) = self.unpack();
        sign != 0 && !man.int_eq(I::zero())
    }
}

impl<I: UnderlyingInt> Neg for Decimal<I, true> {
    type Output = Self;

    fn neg(self) -> (r: Self) {
        let r = Self::from_underlying(self.underlying().flip_sign_bit());
        proof {
            Self::lemma_from_view(r);
        }
        r
    }
}

impl<I: UnderlyingInt> NegSpecImpl for Decimal<I, true> {
    open spec fn obeys_neg_spec() -> bool {
        true
    }

    open spec fn neg_req(self) -> bool {
        true
    }

    /// The same scale and mantissa, the other sign.
    open spec fn neg_spec(self) -> Self {
        Self::from_view(view_of((1 - self@.sign) as nat, self@.scale, self@.man))
    }
}

} // verus!

verus! {

/// The sign of a product or a quotient: 1 when the signs differ.
pub open spec fn sign_xor(a: nat, b: nat) -> nat {
    if a == b {
        0
    } else {
        1
    }
}

/// What multiplying `a` by a factor with sign `b_sign`, mantissa `b_man` and
/// scale `b_scale` gives: the product of the mantissas at the sum of the
/// scales, brought by the underlying integer to a scale where it fits and
/// rounded half up; `None` if it finds none (or, unsigned, if the product is
/// negative).
pub open spec fn product_spec<I: UnderlyingInt>(
    a: DecimalView,
    b_sign: nat,
    b_man: nat,
    b_scale: nat,
    signed: bool,
) -> Option<DecimalView> {
    let ss = a.scale + b_scale;
    let p = a.man * b_man;
    if !I::spec_mul_fits(a.man, b_man, ss, signed) {
        None
    } else {
        let scale = I::spec_mul_scale(a.man, b_man, ss, signed);
        let man = div_round(p, pow10((ss - scale) as nat));
        let sign = sign_xor(a.sign, b_sign);
        if !signed && sign == 1 && man > 0 {
            None
        } else {
            Some(DecimalView { sign: if signed { sign } else { 0 }, scale, man })
        }
    }
}

impl<I: UnderlyingInt, const S: bool> Decimal<I, S> {
    /// Multiplies the mantissa by a factor, given by its fields.
    fn do_mul(self, b_sign: u8, b_scale: u32, b_man: I) -> (r: Option<Self>)
        requires
            b_sign <= 1,
            b_scale <= I::spec_max_scale(),
            b_man.val() <= I::spec_max_man(S) || b_scale == 0,
            b_man.val() <= pow2n((I::spec_bits() - 1) as nat),
        ensures
            opt_view(r) == product_spec::<I>(self@, b_sign as nat, b_man.val(), b_scale as nat, S),
            r matches Some(d) ==> d@.scale <= self@.scale + b_scale && d@.man == div_round(
                self@.man * b_man.val(),
                pow10((self@.scale + b_scale - d@.scale) as nat),
            ),
            r matches Some(d) ==> div_round(
                self@.man * b_man.val(),
                pow10(self@.scale + b_scale as nat),
            ) <= I::spec_max_man(S),
            self@.man * b_man.val() <= I::spec_max_man(S) * pow10(self@.scale + b_scale as nat)
                ==> I::spec_mul_fits(self@.man, b_man.val(), self@.scale + b_scale as nat, S),
            div_round(self@.man * b_man.val(), pow10(self@.scale + b_scale as nat)) <= I::spec_max_man(
                S,
            ) ==> I::spec_mul_fits(self@.man, b_man.val(), self@.scale + b_scale as nat, S),
    {
        proof {
            lemma_sizes::<I>();
        }
        let (a_sign, a_scale, a_man) = self.unpack();
        let (p_man, p_scale) = match a_man.mul_with_sum_scale(b_man, a_scale + b_scale, S) {
            Some(ps) => ps,
            None => {
                return None;
            },
        };
        let mut sign = a_sign ^ b_sign;
        proof {
            assert(sign == sign_xor(a_sign as nat, b_sign as nat)) by (bit_vector)
                requires
                    sign == a_sign ^ b_sign,
                    a_sign <= 1,
                    b_sign <= 1,
            ;
        }
        if !S && sign == 1 {
            // an unsigned decimal can not be negative, but may be zero
            if p_man.int_eq(I::zero()) {
                sign = 0;
            } else {
                return None;
            }
        }
        proof {
            if !S {
                assert(sign == 0);
            }
        }
        Some(Self::pack(sign, p_scale, p_man))
    }

    /// Checked multiplication. Computes `self * right`, returning `None` if
    /// overflow.
    ///
    /// The product of the mantissas, at the sum of the scales, is brought to
    /// a scale where it fits, rounded half up (see [`product_spec`]). There is
    /// a result exactly when the product rounded at scale 0 fits.
    pub fn checked_mul(self, right: Self) -> (r: Option<Self>)
        ensures
            opt_view(r) == product_spec::<I>(self@, right@.sign, right@.man, right@.scale, S),
            r matches Some(d) ==> d@.scale <= self@.scale + right@.scale && d@.man == div_round(
                self@.man * right@.man,
                pow10((self@.scale + right@.scale - d@.scale) as nat),
            ) && (S ==> d@.sign == sign_xor(self@.sign, right@.sign)),
            self@.man * right@.man <= I::spec_max_man(S) * pow10(self@.scale + right@.scale) ==> r
                is Some,
            r is Some <==> div_round(self@.man * right@.man, pow10(self@.scale + right@.scale))
                <= I::spec_max_man(S),
    {
        let (b_sign, b_scale, b_man) = right.unpack();
        proof {
            I::lemma_shape(b_man);
            lemma_pow2_values();
            lemma_fields_in_range(self);
            lemma_fields_in_range(right);
        }
        self.do_mul(b_sign, b_scale, b_man)
    }

    /// Checked multiplication by an integer, returning `None` if overflow
    /// (or, unsigned, if the product is negative).
    pub fn checked_mul_int(self, i: I::Signed) -> (r: Option<Self>)
        ensures
            opt_view(r) == product_spec::<I>(
                self@,
                (if I::signed_val(i) < 0 {
                    1nat
                } else {
                    0nat
                }),
                (if I::signed_val(i) < 0 {
                    -I::signed_val(i)
                } else {
                    I::signed_val(i)
                }) as nat,
                0,
                S,
            ),
    {
        let (b_man, b_sign) = I::from_signed(i);
        proof {
            I::lemma_signed_range(i);
            I::lemma_shape(b_man);
        }
        self.do_mul(b_sign, 0, b_man)
    }
}

} // verus!

verus! {

/// Whether dividing `a` by a divisor with mantissa `b_man` and scale
/// `b_scale` has a result: the divisor is not zero and the quotient of the
/// mantissas, at the least scale that keeps the fraction digits of both
/// sides, rounded half up, fits in a mantissa.
pub open spec fn div_fits<I: UnderlyingInt>(
    a: DecimalView,
    b_man: nat,
    b_scale: nat,
    signed: bool,
) -> bool {
    b_man > 0 && div_round(a.man * pow10(sat_sub(b_scale, a.scale)), b_man) <= I::spec_max_man(
        signed,
    )
}

/// A quotient `q` of `a` by a divisor with mantissa `b_man` and scale
/// `b_scale`: its mantissa is the quotient of the mantissas, with as many
/// more fraction digits as its scale takes, rounded half up.
pub open spec fn is_quotient(q: DecimalView, a: DecimalView, b_man: nat, b_scale: nat) -> bool {
    &&& q.scale + b_scale >= a.scale
    &&& q.man == div_round(a.man * pow10((q.scale + b_scale - a.scale) as nat), b_man)
}

/// What dividing `a` by a divisor with sign `b_sign`, mantissa `b_man` and
/// scale `b_scale` gives: `None` for a zero divisor; else the mantissa and the
/// scale that the underlying integer finds for the quotient of the mantissas
/// (see [`UnderlyingInt::spec_div`]), with the sign of a product; `None` if it
/// finds none (or, unsigned, if the quotient is negative).
pub open spec fn quotient_spec<I: UnderlyingInt>(
    a: DecimalView,
    b_sign: nat,
    b_man: nat,
    b_scale: nat,
    signed: bool,
) -> Option<DecimalView> {
    if b_man == 0 {
        None
    } else {
        match I::spec_div(a.man, b_man, a.scale, b_scale, signed) {
            None => None,
            Some(q) => {
                let sign = sign_xor(a.sign, b_sign);
                if !signed && sign == 1 && q.0 > 0 {
                    None
                } else {
                    Some(DecimalView { sign: if signed { sign } else { 0 }, scale: q.1, man: q.0 })
                }
            },
        }
    }
}

impl<I: UnderlyingInt, const S: bool> Decimal<I, S> {
    /// Divides by a divisor given by its fields.
    fn do_div(self, b_sign: u8, b_scale: u32, b_man: I) -> (r: Option<Self>)
        requires
            b_sign <= 1,
            b_scale <= I::spec_max_scale(),
            b_man.val() <= I::spec_max_man(S) || (b_scale == 0 && b_man.val() <= pow2n(
                (I::spec_bits() - 1) as nat,
            )),
        ensures
            opt_view(r) == quotient_spec::<I>(self@, b_sign as nat, b_man.val(), b_scale as nat, S),
            r is Some ==> div_fits::<I>(self@, b_man.val(), b_scale as nat, S),
            div_fits::<I>(self@, b_man.val(), b_scale as nat, S) && (S || b_sign == 0
                || self@.man == 0) ==> r is Some,
            r matches Some(d) ==> {
                &&& is_quotient(d@, self@, b_man.val(), b_scale as nat)
                &&& d@.scale <= I::spec_max_scale()
                &&& S ==> d@.sign == sign_xor(self@.sign, b_sign as nat)
                &&& !S ==> d@.sign == 0 && (b_sign == 0 || d@.man == 0)
            },
    {
        proof {
            lemma_sizes::<I>();
        }
        let (a_sign, a_scale, a_man) = self.unpack();
        if b_man.int_eq(I::zero()) {
            return None;
        }
        let (q_man, q_scale) = match a_man.div_with_scales(b_man, a_scale, b_scale, S) {
            Some(qs) => qs,
            None => {
                return None;
            },
        };
        let mut sign = a_sign ^ b_sign;
        proof {
            assert(sign == sign_xor(a_sign as nat, b_sign as nat)) by (bit_vector)
                requires
                    sign == a_sign ^ b_sign,
                    a_sign <= 1,
                    b_sign <= 1,
            ;
        }
        proof {
            if !S && self@.man == 0 {
                let e = pow10((q_scale + b_scale - a_scale) as nat);
                assert(self@.man * e == 0) by (nonlinear_arith)
                    requires
                        self@.man == 0,
                ;
                lemma_small_mod(0, b_man.val());
                lemma_div_of0(b_man.val() as int);
                assert(q_man.val() == 0);
            }
        }
        if !S && sign == 1 {
            // an unsigned decimal can not be negative, but may be zero
            if q_man.int_eq(I::zero()) {
                sign = 0;
            } else {
                return None;
            }
        }
        proof {
            if !S {
                assert(sign == 0);
                if b_sign == 0 || self@.man == 0 {
                    assert(a_sign == 0);
                }
            }
        }
        Some(Self::pack(sign, q_scale, q_man))
    }

    /// Checked division. Computes `self / right`, returning `None` if
    /// `right == 0` or overflow.
    ///
    /// The quotient keeps at least the fraction digits of both sides (see
    /// [`div_fits`]) and is rounded half up at its scale (see
    /// [`is_quotient`]).
    pub fn checked_div(self, right: Self) -> (r: Option<Self>)
        ensures
            opt_view(r) == quotient_spec::<I>(self@, right@.sign, right@.man, right@.scale, S),
            r is Some <==> div_fits::<I>(self@, right@.man, right@.scale, S),
            r matches Some(d) ==> {
                &&& is_quotient(d@, self@, right@.man, right@.scale)
                &&& d@.scale <= I::spec_max_scale()
                &&& d@.sign == sign_xor(self@.sign, right@.sign)
            },
    {
        let (b_sign, b_scale, b_man) = right.unpack();
        proof {
            lemma_fields_in_range(self);
            lemma_fields_in_range(right);
        }
        self.do_div(b_sign, b_scale, b_man)
    }

    /// Checked division by an integer, returning `None` if `i == 0` or
    /// overflow (or, unsigned, if the quotient is negative).
    pub fn checked_div_int(self, i: I::Signed) -> (r: Option<Self>)
        ensures
            opt_view(r) == quotient_spec::<I>(self@, int_sign::<I>(i), int_magnitude::<I>(i), 0, S),
            r is Some ==> div_fits::<I>(self@, int_magnitude::<I>(i), 0, S),
            div_fits::<I>(self@, int_magnitude::<I>(i), 0, S) && (S || I::signed_val(i) >= 0
                || self@.man == 0) ==> r is Some,
            r matches Some(d) ==> {
                &&& is_quotient(d@, self@, int_magnitude::<I>(i), 0)
                &&& d@.scale <= I::spec_max_scale()
                &&& S ==> d@.sign == sign_xor(self@.sign, int_sign::<I>(i))
                &&& !S ==> d@.sign == 0 && (I::signed_val(i) >= 0 || d@.man == 0)
            },
    {
        let (b_man, b_sign) = I::from_signed(i);
        proof {
            I::lemma_signed_range(i);
            I::lemma_shape(b_man);
        }
        self.do_div(b_sign, 0, b_man)
    }
}

/// The magnitude of a signed integer.
pub open spec fn int_magnitude<I: UnderlyingInt>(i: I::Signed) -> nat {
    (if I::signed_val(i) < 0 {
        -I::signed_val(i)
    } else {
        I::signed_val(i)
    }) as nat
}

/// The sign of a signed integer: 1 when negative.
pub open spec fn int_sign<I: UnderlyingInt>(i: I::Signed) -> nat {
    if I::signed_val(i) < 0 {
        1
    } else {
        0
    }
}

} // verus!
