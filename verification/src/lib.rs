//! Fast, fixed-size decimal types.
//!
//! A decimal is one integer of 32, 64 or 128 bits holding a sign bit
//! (signed types only), a scale and a mantissa. Its value is
//! `(-1)^sign * mantissa / 10^scale`.
//!
//! ```text
//! +-+-----+-------------------------------+
//! |S|scale|  mantissa                     |
//! +-+-----+-------------------------------+
//! ```
pub mod math;



mod convert;
mod display;
mod floats;
mod from_str;
mod int128;
mod int32;
mod int64;
pub mod laws;
mod operators;
mod ops;
mod pow10div;
pub mod quotient;

use vstd::prelude::*;

pub use crate::floats::{BigUnderlyingInt, FromFloatError};
pub use crate::from_str::ParseError;

use crate::math::{bit_len, div_round, pow10, pow2n, sat_sub};

verus! {

/// The 128-bit decimal type, with about 36 significant digits and at most 31 fraction digits.
pub type Dec128 = Decimal<u128, true>;

/// The 128-bit unsigned decimal type, with about 37 significant digits and at most 31 fraction digits.
pub type UDec128 = Decimal<u128, false>;

/// The 64-bit decimal type, with about 17 significant digits and at most 15 fraction digits.
pub type Dec64 = Decimal<u64, true>;

/// The 64-bit unsigned decimal type, with about 18 significant digits and at most 15 fraction digits.
pub type UDec64 = Decimal<u64, false>;

/// The 32-bit decimal type, with about 8 significant digits and at most 7 fraction digits.
pub type Dec32 = Decimal<u32, true>;

/// The 32-bit unsigned decimal type, with about 8 significant digits and at most 7 fraction digits.
pub type UDec32 = Decimal<u32, false>;

/// Underlying integer type.
///
/// It is implemented for `u128`, `u64` and `u32`. Each one fixes how many
/// bits hold the scale (5, 4 and 3) and so the largest scale (31, 15 and 7).
pub trait UnderlyingInt: Sized + Copy {
    /// The signed integer of the same width.
    type Signed: Copy;

    /// The integer's value.
    spec fn val(self) -> nat;

    /// The value of a signed integer of the same width.
    spec fn signed_val(s: Self::Signed) -> int;

    /// Width in bits.
    spec fn spec_bits() -> nat;

    /// The largest scale.
    spec fn spec_max_scale() -> nat;

    /// Bits of the mantissa field: all bits but the sign and the scale.
    spec fn spec_man_bits(signed: bool) -> nat;

    /// The largest `i` for which `10^i` fits.
    spec fn spec_max_exp() -> nat;

    /// The largest mantissa: `2^spec_man_bits(signed) - 1`.
    spec fn spec_max_man(signed: bool) -> nat;

    /// `2^spec_bits()`.
    spec fn spec_int_base() -> nat;

    /// The sign field of a packed integer (always 0 when unsigned).
    spec fn sign_field(self, signed: bool) -> nat;

    /// The scale field of a packed integer.
    spec fn scale_field(self, signed: bool) -> nat;

    /// The mantissa field of a packed integer.
    spec fn man_field(self, signed: bool) -> nat;

    /// The three shapes the trait is implemented for.
    proof fn lemma_shape(x: Self)
        ensures
            x.val() < Self::spec_int_base(),
            Self::spec_int_base() == pow2n(Self::spec_bits()),
            pow10(Self::spec_max_exp()) < Self::spec_int_base(),
            Self::spec_max_man(true) + 1 == pow2n(Self::spec_man_bits(true)),
            Self::spec_max_man(false) + 1 == pow2n(Self::spec_man_bits(false)),
            x.sign_field(true) <= 1,
            x.sign_field(false) == 0,
            x.scale_field(true) <= Self::spec_max_scale(),
            x.scale_field(false) <= Self::spec_max_scale(),
            x.man_field(true) <= Self::spec_max_man(true),
            x.man_field(false) <= Self::spec_max_man(false),
            ({
                ||| Self::spec_bits() == 128 && Self::spec_max_scale() == 31 && Self::spec_man_bits(
                    true,
                ) == 122 && Self::spec_man_bits(false) == 123 && Self::spec_max_exp() == 38
                ||| Self::spec_bits() == 64 && Self::spec_max_scale() == 15
                    && Self::spec_man_bits(true) == 59 && Self::spec_man_bits(false) == 60
                    && Self::spec_max_exp() == 19
                ||| Self::spec_bits() == 32 && Self::spec_max_scale() == 7 && Self::spec_man_bits(
                    true,
                ) == 28 && Self::spec_man_bits(false) == 29 && Self::spec_max_exp() == 9
            }),
    ;

    /// The range of the signed integer.
    proof fn lemma_signed_range(s: Self::Signed)
        ensures
            -pow2n((Self::spec_bits() - 1) as nat) <= Self::signed_val(s) < pow2n(
                (Self::spec_bits() - 1) as nat,
            ),
    ;

    /// The largest scale.
    fn max_scale() -> (r: u32)
        ensures
            r == Self::spec_max_scale(),
    ;

    /// Width in bits.
    fn bits() -> (r: u32)
        ensures
            r == Self::spec_bits(),
    ;

    /// Bits of the mantissa field.
    fn man_bits(signed: bool) -> (r: u32)
        ensures
            r == Self::spec_man_bits(signed),
    ;

    /// The largest mantissa.
    fn max_mantissa(signed: bool) -> (r: Self)
        ensures
            r.val() == Self::spec_max_man(signed),
    ;

    /// Zero.
    fn zero() -> (r: Self)
        ensures
            r.val() == 0,
    ;

    /// Splits the packed integer into sign, scale and mantissa.
    fn unpack_fields(self, signed: bool) -> (r: (u8, u32, Self))
        ensures
            r.0 == self.sign_field(signed),
            r.1 == self.scale_field(signed),
            r.2.val() == self.man_field(signed),
    ;

    /// Packs sign, scale and mantissa into one integer.
    fn pack_fields(sign: u8, scale: u32, man: Self, signed: bool) -> (r: Self)
        requires
            sign <= (if signed {
                1u8
            } else {
                0u8
            }),
            scale <= Self::spec_max_scale(),
            man.val() <= Self::spec_max_man(signed),
        ensures
            r.sign_field(signed) == sign,
            r.scale_field(signed) == scale,
            r.man_field(signed) == man.val(),
    ;

    /// Two packed integers with the same fields are the same.
    proof fn lemma_fields_determine(x: Self, y: Self, signed: bool)
        requires
            x.sign_field(signed) == y.sign_field(signed),
            x.scale_field(signed) == y.scale_field(signed),
            x.man_field(signed) == y.man_field(signed),
        ensures
            x == y,
    ;

    /// Clears the sign bit of the signed layout.
    fn clear_sign_bit(self) -> (r: Self)
        ensures
            r.sign_field(true) == 0,
            r.scale_field(true) == self.scale_field(true),
            r.man_field(true) == self.man_field(true),
    ;

    /// Flips the sign bit of the signed layout.
    fn flip_sign_bit(self) -> (r: Self)
        ensures
            r.sign_field(true) == 1 - self.sign_field(true),
            r.scale_field(true) == self.scale_field(true),
            r.man_field(true) == self.man_field(true),
    ;

    /// Converts a mantissa and a sign to the signed integer.
    fn to_signed(self, sign: u8) -> (r: Self::Signed)
        requires
            self.val() <= Self::spec_max_man(true),
            sign <= 1,
        ensures
            Self::signed_val(r) == (if sign == 1 {
                -(self.val() as int)
            } else {
                self.val() as int
            }),
    ;

    /// Splits a signed integer into its magnitude and its sign.
    fn from_signed(s: Self::Signed) -> (r: (Self, u8))
        ensures
            r.1 == (if Self::signed_val(s) < 0 {
                1u8
            } else {
                0u8
            }),
            r.0.val() as int == (if Self::signed_val(s) < 0 {
                -Self::signed_val(s)
            } else {
                Self::signed_val(s)
            }),
    ;

    /// Converts a small integer to `u32`.
    fn as_u32(self) -> (r: u32)
        requires
            self.val() <= u32::MAX,
        ensures
            r == self.val(),
    ;

    /// Converts a `u32`.
    fn from_u32(n: u32) -> (r: Self)
        ensures
            r.val() == n,
    ;

    /// Number of leading zero bits.
    fn leading_zeros(self) -> (r: u32)
        ensures
            r as nat + bit_len(self.val()) == Self::spec_bits(),
    ;

    /// `self == o`.
    fn int_eq(self, o: Self) -> (r: bool)
        ensures
            r == (self.val() == o.val()),
    ;

    /// `self < o`.
    fn int_lt(self, o: Self) -> (r: bool)
        ensures
            r == (self.val() < o.val()),
    ;

    /// `self + o`, which the caller has made sure fits.
    fn int_add(self, o: Self) -> (r: Self)
        requires
            self.val() + o.val() < Self::spec_int_base(),
        ensures
            r.val() == self.val() + o.val(),
    ;

    /// `self + o`, or `None` if it does not fit.
    fn checked_add_int(self, o: Self) -> (r: Option<Self>)
        ensures
            r is Some <==> self.val() + o.val() < Self::spec_int_base(),
            r matches Some(x) ==> x.val() == self.val() + o.val(),
    ;

    /// `self << k`, which the caller has made sure fits.
    fn shl_bits(self, k: u32) -> (r: Self)
        requires
            k < Self::spec_bits(),
            self.val() * pow2n(k as nat) < Self::spec_int_base(),
        ensures
            r.val() == self.val() * pow2n(k as nat),
    ;

    /// `self - o`, which the caller has made sure is not negative.
    fn int_sub(self, o: Self) -> (r: Self)
        requires
            self.val() >= o.val(),
        ensures
            r.val() == self.val() - o.val(),
    ;

    /// `self * 10^iexp`, which the caller has made sure fits.
    fn mul_exp(self, iexp: u32) -> (r: Self)
        requires
            iexp <= Self::spec_max_exp(),
            self.val() * pow10(iexp as nat) < Self::spec_int_base(),
        ensures
            r.val() == self.val() * pow10(iexp as nat),
    ;

    /// `self * 10^iexp`, or `None` if it does not fit.
    fn checked_mul_exp(self, iexp: u32) -> (r: Option<Self>)
        requires
            iexp <= Self::spec_max_exp(),
        ensures
            r is Some <==> self.val() * pow10(iexp as nat) < Self::spec_int_base(),
            r matches Some(x) ==> x.val() == self.val() * pow10(iexp as nat),
    ;

    /// `self / 10^iexp`, rounded half up.
    fn div_exp(self, iexp: u32) -> (r: Self)
        requires
            iexp <= Self::spec_max_exp(),
            self.val() + pow10(iexp as nat) / 2 < Self::spec_int_base(),
        ensures
            r.val() == div_round(self.val(), pow10(iexp as nat)),
    ;

    /// The scale a product of the mantissas `a` and `b`, at scale
    /// `sum_scale`, is brought to by [`Self::mul_with_sum_scale`].
    spec fn spec_mul_scale(a: nat, b: nat, sum_scale: nat, signed: bool) -> nat;

    /// Whether [`Self::mul_with_sum_scale`] finds a scale where the product of
    /// the mantissas `a` and `b`, at scale `sum_scale`, fits.
    spec fn spec_mul_fits(a: nat, b: nat, sum_scale: nat, signed: bool) -> bool;

    /// The product's scale, and whether it fits, do not depend on the order
    /// of the factors.
    proof fn lemma_mul_spec_symmetric(a: nat, b: nat, sum_scale: nat, signed: bool)
        ensures
            Self::spec_mul_fits(a, b, sum_scale, signed) == Self::spec_mul_fits(b, a, sum_scale, signed),
            Self::spec_mul_scale(a, b, sum_scale, signed) == Self::spec_mul_scale(
                b,
                a,
                sum_scale,
                signed,
            ),
    ;

    /// The scale a fitting product of mantissas is brought to is at most
    /// `sum_scale`; below both `sum_scale` and the largest scale only by few
    /// digits: `10^cleared * 2^man_bits <= 20 * a * b`.
    proof fn lemma_mul_scale_bound(a: nat, b: nat, sum_scale: nat, signed: bool)
        requires
            a <= Self::spec_max_man(signed),
            b <= Self::spec_max_man(signed),
            sum_scale <= 2 * Self::spec_max_scale(),
            Self::spec_mul_fits(a, b, sum_scale, signed),
        ensures
            Self::spec_mul_scale(a, b, sum_scale, signed) <= sum_scale,
            ({
                let sp = Self::spec_mul_scale(a, b, sum_scale, signed);
                ||| sp == sum_scale
                ||| sp == Self::spec_max_scale()
                ||| pow10((sum_scale - sp) as nat) * pow2n(Self::spec_man_bits(signed)) <= 20 * (a
                    * b)
            }),
    ;

    /// `self * right` at scale `sum_scale`, brought to a scale where it fits:
    /// the mantissa and the scale of the product, rounded half up, or `None`
    /// if it does not fit. It always fits when the exact product does at
    /// scale 0, and never when the rounded one does not.
    fn mul_with_sum_scale(self, right: Self, sum_scale: u32, signed: bool) -> (r: Option<(Self, u32)>)
        requires
            self.val() <= Self::spec_max_man(signed),
            sum_scale <= 2 * Self::spec_max_scale(),
            right.val() <= Self::spec_max_man(signed) || sum_scale <= Self::spec_max_scale(),
            right.val() <= pow2n((Self::spec_bits() - 1) as nat),
        ensures
            r is Some <==> Self::spec_mul_fits(self.val(), right.val(), sum_scale as nat, signed),
            self.val() * right.val() <= Self::spec_max_man(signed) * pow10(sum_scale as nat)
                ==> r is Some,
            div_round(self.val() * right.val(), pow10(sum_scale as nat)) <= Self::spec_max_man(
                signed,
            ) ==> r is Some,
            r is Some ==> div_round(self.val() * right.val(), pow10(sum_scale as nat))
                <= Self::spec_max_man(signed),
            r matches Some(qs) ==> {
                &&& qs.1 == Self::spec_mul_scale(self.val(), right.val(), sum_scale as nat, signed)
                &&& qs.1 <= sum_scale
                &&& qs.1 <= Self::spec_max_scale()
                &&& qs.0.val() <= Self::spec_max_man(signed)
                &&& qs.0.val() == div_round(
                    self.val() * right.val(),
                    pow10((sum_scale - qs.1) as nat),
                )
            },
    ;

    /// `self / d`, with `self` at scale `s_scale` and `d` at scale `d_scale`:
    /// the mantissa and the scale of the quotient, rounded half up at that
    /// scale, or `None` if the underlying integer finds no scale where it fits.
    /// The mantissa and the scale of the quotient [`Self::div_with_scales`]
    /// gives, `None` when it does not fit (see [`crate::quotient::quotient_at`]).
    spec fn spec_div(n: nat, d: nat, s_scale: nat, d_scale: nat, signed: bool) -> Option<(nat, nat)>;

    fn div_with_scales(self, d: Self, s_scale: u32, d_scale: u32, signed: bool) -> (r: Option<(Self, u32)>)
        requires
            self.val() <= Self::spec_max_man(signed),
            d.val() > 0,
            d.val() <= Self::spec_max_man(signed) || (d_scale == 0 && d.val() <= pow2n(
                (Self::spec_bits() - 1) as nat,
            )),
            s_scale <= Self::spec_max_scale(),
            d_scale <= Self::spec_max_scale(),
        ensures
            Self::spec_div(self.val(), d.val(), s_scale as nat, d_scale as nat, signed) == match r {
                Some(qs) => Some((qs.0.val(), qs.1 as nat)),
                None => None,
            },
            r is Some <==> div_round(
                self.val() * pow10(sat_sub(d_scale as nat, s_scale as nat)),
                d.val(),
            ) <= Self::spec_max_man(signed),
            r matches Some(qs) ==> {
                &&& qs.1 <= Self::spec_max_scale()
                &&& qs.1 + d_scale >= s_scale
                &&& qs.0.val() <= Self::spec_max_man(signed)
                &&& qs.0.val() == div_round(
                    self.val() * pow10((qs.1 + d_scale - s_scale) as nat),
                    d.val(),
                )
            },
    ;

    /// `self / 10^iexp` and `self % 10^iexp`.
    fn div_rem_exp(self, iexp: u32) -> (r: (Self, Self))
        requires
            iexp <= Self::spec_max_exp(),
        ensures
            r.0.val() == self.val() / pow10(iexp as nat),
            r.1.val() == self.val() % pow10(iexp as nat),
    ;
}

/// The decimal type.
///
/// The `I` is the underlying integer type, which could be `u128`, `u64` or `u32`.
///
/// The `S` is for signed or unsigned.
///
/// They have aliases [`Dec128`], [`Dec64`], [`Dec32`], [`UDec128`], [`UDec64`]
/// and [`UDec32`] respectively.
#[derive(Copy, Clone, Debug)]
pub struct Decimal<I: UnderlyingInt, const S: bool>(I);

/// What a decimal stands for: `(-1)^sign * mantissa / 10^scale`.
pub struct DecimalView {
    pub sign: nat,
    pub scale: nat,
    pub man: nat,
}

impl DecimalView {
    /// The signed mantissa.
    pub open spec fn num(self) -> int {
        if self.sign == 1 {
            -(self.man as int)
        } else {
            self.man as int
        }
    }

    /// Whether two decimals stand for the same number.
    pub open spec fn same_value(self, other: DecimalView) -> bool {
        self.num() * pow10(other.scale) == other.num() * pow10(self.scale)
    }

    /// Whether `self` is smaller than `other` as numbers.
    pub open spec fn less_than(self, other: DecimalView) -> bool {
        self.num() * pow10(other.scale) < other.num() * pow10(self.scale)
    }
}

impl<I: UnderlyingInt, const S: bool> View for Decimal<I, S> {
    type V = DecimalView;

    open spec fn view(&self) -> DecimalView {
        DecimalView {
            sign: self.raw().sign_field(S),
            scale: self.raw().scale_field(S),
            man: self.raw().man_field(S),
        }
    }
}

/// Facts every decimal obeys: the sign is 0 or 1 (0 when unsigned), the
/// scale and the mantissa are within their ranges.
pub proof fn lemma_fields_in_range<I: UnderlyingInt, const S: bool>(d: Decimal<I, S>)
    ensures
        d@.sign <= 1,
        !S ==> d@.sign == 0,
        d@.scale <= I::spec_max_scale(),
        d@.man <= I::spec_max_man(S),
{
    I::lemma_shape(d.raw());
}

// for signed and unsigned both
impl<I: UnderlyingInt, const S: bool> Decimal<I, S> {
    /// The underlying integer, in specifications.
    pub closed spec fn raw(self) -> I {
        self.0
    }

    /// Zero.
    pub fn zero() -> (r: Self)
        ensures
            r@.man == 0,
            r@.sign == 0,
            r@.scale == 0,
    {
        let z = I::zero();
        proof {
            I::lemma_shape(z);
        }
        Self::pack(0, 0, z)
    }

    /// One.
    pub fn one() -> (r: Self)
        ensures
            r@.man == 1,
            r@.sign == 0,
            r@.scale == 0,
    {
        proof {
            crate::ops::lemma_sizes::<I>();
            I::lemma_shape(vstd::pervasive::arbitrary());
        }
        Self::pack(0, 0, I::from_u32(1))
    }

    // layout:
    //   +-+-----+-------------+
    //   |S|scale|  mantissa   |
    //   +-+-----+-------------+
    /// Splits into sign, scale and mantissa.
    pub(crate) fn unpack(self) -> (r: (u8, u32, I))
        ensures
            r.0 == self@.sign,
            r.1 == self@.scale,
            r.2.val() == self@.man,
            r.0 <= 1,
            !S ==> r.0 == 0,
            r.1 <= I::spec_max_scale(),
            r.2.val() <= I::spec_max_man(S),
    {
        proof {
            lemma_fields_in_range(self);
        }
        self.0.unpack_fields(S)
    }

    /// Builds from sign, scale and mantissa, which the caller has made sure
    /// are in range.
    pub(crate) fn pack(sign: u8, scale: u32, mantissa: I) -> (r: Self)
        requires
            sign <= 1,
            !S ==> sign == 0,
            scale <= I::spec_max_scale(),
            mantissa.val() <= I::spec_max_man(S),
        ensures
            r@.sign == sign,
            r@.scale == scale,
            r@.man == mantissa.val(),
    {
        Self(I::pack_fields(sign, scale, mantissa, S))
    }

    /// Whether a mantissa fits.
    pub(crate) fn valid_mantissa(man: I) -> (r: bool)
        ensures
            r == (man.val() <= I::spec_max_man(S)),
    {
        !I::max_mantissa(S).int_lt(man)
    }

    /// Return the underlying integer.
    ///
    /// You should not try to decode this integer yourself.
    /// You should just hold this and load it later.
    pub fn underlying(self) -> (r: I)
        ensures
            r == self.raw(),
            r.sign_field(S) == self@.sign,
            r.scale_field(S) == self@.scale,
            r.man_field(S) == self@.man,
    {
        self.0
    }

    /// Load from underlying integer, which should only be got from [`Self::underlying`].
    pub fn from_underlying(i: I) -> (r: Self)
        ensures
            r.raw() == i,
            r@.sign == i.sign_field(S),
            r@.scale == i.scale_field(S),
            r@.man == i.man_field(S),
    {
        Self(i)
    }
}

impl<I: UnderlyingInt, const S: bool> Default for Decimal<I, S> {
    /// Zero, the decimal whose underlying integer is 0.
    fn default() -> (r: Self)
        ensures
            r@.man == 0,
            r@.sign == 0,
            r@.scale == 0,
    {
        Self::zero()
    }
}

impl<I: UnderlyingInt, const S: bool> Decimal<I, S> {
    /// The decimal with the given view.
    pub open spec fn from_view(v: DecimalView) -> Self {
        choose|r: Self| r@ == v
    }

    /// A decimal is determined by its view.
    pub proof fn lemma_from_view(d: Self)
        ensures
            Self::from_view(d@) == d,
    {
        let r = Self::from_view(d@);
        assert(r@ == d@);
        I::lemma_fields_determine(r.raw(), d.raw(), S);
        assert(r.raw() == d.raw());
    }
}

/// Loading what was saved gives the decimal back.
pub proof fn lemma_underlying_round_trip<I: UnderlyingInt, const S: bool>(d: Decimal<I, S>, e: Decimal<I, S>)
    requires
        e.raw() == d.raw(),
    ensures
        e == d,
{
}

impl<I: UnderlyingInt> Decimal<I, true> {
    /// The largest value.
    pub fn max_value() -> (r: Self)
        ensures
            r@.sign == 0,
            r@.scale == 0,
            r@.man == I::spec_max_man(true),
    {
        Self::pack(0, 0, I::max_mantissa(true))
    }

    /// The smallest value. It's the negative of [`Self::max_value`].
    pub fn min_value() -> (r: Self)
        ensures
            r@.sign == 1,
            r@.scale == 0,
            r@.man == I::spec_max_man(true),
    {
        Self::pack(1, 0, I::max_mantissa(true))
    }

    /// Deconstruct the decimal into signed mantissa and scale.
    ///
    /// # Examples:
    ///
    /// ```
    /// use decimax::Dec128;
    /// use core::str::FromStr;
    ///
    /// let d = Dec128::from_str("3.14").unwrap();
    /// assert_eq!(d.parts(), (314, 2));
    /// ```
    pub fn parts(self) -> (r: (I::Signed, u32))
        ensures
            I::signed_val(r.0) == self@.num(),
            r.1 == self@.scale,
    {
        let (sign, scale, man) = self.unpack();
        (man.to_signed(sign), scale)
    }

    /// Construct a decimal from signed mantissa and scale.
    ///
    /// The mantissa and scale must be in range: [`Self::try_from_parts`] is
    /// the checked version.
    ///
    /// # Examples:
    ///
    /// ```
    /// use decimax::Dec128;
    /// let d = Dec128::from_parts(314, 2);
    /// assert_eq!(d.to_string(), "3.14");
    /// ```
    pub fn from_parts(mantissa: I::Signed, scale: u32) -> (r: Self)
        requires
            scale <= I::spec_max_scale(),
            -I::spec_max_man(true) <= I::signed_val(mantissa) <= I::spec_max_man(true),
        ensures
            r@.num() == I::signed_val(mantissa),
            r@.scale == scale,
            r@.sign == 1 <==> I::signed_val(mantissa) < 0,
    {
        Self::try_from_parts(mantissa, scale).unwrap()
    }

    /// Construct a decimal from signed mantissa and scale.
    ///
    /// Return `None` if the mantissa or scale is out of range.
    ///
    /// # Examples:
    ///
    /// ```
    /// use decimax::Dec128;
    /// let d = Dec128::try_from_parts(314, 2).unwrap();
    /// assert_eq!(d.to_string(), "3.14");
    ///
    /// let d = Dec128::try_from_parts(314, 99); // 99 is out of range
    /// assert!(d.is_none());
    /// ```
    pub fn try_from_parts(mantissa: I::Signed, scale: u32) -> (r: Option<Self>)
        ensures
            r is Some <==> (scale <= I::spec_max_scale() && -I::spec_max_man(true) <= I::signed_val(
                mantissa,
            ) <= I::spec_max_man(true)),
            r matches Some(d) ==> d@.num() == I::signed_val(mantissa) && d@.scale == scale && (
            d@.sign == 1 <==> I::signed_val(mantissa) < 0),
    {
        if scale > I::max_scale() {
            return None;
        }
        let (man, sign) = I::from_signed(mantissa);
        if !Self::valid_mantissa(man) {
            return None;
        }
        Some(Self::pack(sign, scale, man))
    }
}

impl<I: UnderlyingInt> Decimal<I, false> {
    /// The largest value of unsigned decimal.
    pub fn max_value() -> (r: Self)
        ensures
            r@.sign == 0,
            r@.scale == 0,
            r@.man == I::spec_max_man(false),
    {
        Self::pack(0, 0, I::max_mantissa(false))
    }

    /// The smallest value of unsigned decimal. It's zero.
    pub fn min_value() -> (r: Self)
        ensures
            r@.sign == 0,
            r@.scale == 0,
            r@.man == 0,
    {
        Self::zero()
    }

    /// Deconstruct the unsigned decimal into mantissa and scale.
    ///
    /// # Examples:
    ///
    /// ```
    /// use decimax::UDec128;
    /// use core::str::FromStr;
    ///
    /// let d = UDec128::from_str("3.14").unwrap();
    /// assert_eq!(d.parts(), (314, 2));
    /// ```
    pub fn parts(self) -> (r: (I, u32))
        ensures
            r.0.val() == self@.man,
            r.1 == self@.scale,
    {
        let (_, scale, man) = self.unpack();
        (man, scale)
    }

    /// Construct a unsigned decimal from mantissa and scale.
    ///
    /// The mantissa and scale must be in range: [`Self::try_from_parts`] is
    /// the checked version.
    ///
    /// # Examples:
    ///
    /// ```
    /// use decimax::UDec128;
    /// let d = UDec128::from_parts(314, 2);
    /// assert_eq!(d.to_string(), "3.14");
    /// ```
    pub fn from_parts(mantissa: I, scale: u32) -> (r: Self)
        requires
            scale <= I::spec_max_scale(),
            mantissa.val() <= I::spec_max_man(false),
        ensures
            r@.man == mantissa.val(),
            r@.sign == 0,
            r@.scale == scale,
    {
        Self::try_from_parts(mantissa, scale).unwrap()
    }

    /// Construct a unsigned decimal from mantissa and scale.
    ///
    /// Return `None` if the mantissa or scale is out of range.
    ///
    /// # Examples:
    ///
    /// ```
    /// use decimax::UDec128;
    /// let d = UDec128::try_from_parts(314, 2).unwrap();
    /// assert_eq!(d.to_string(), "3.14");
    ///
    /// let d = UDec128::try_from_parts(314, 99); // 99 is out of range
    /// assert!(d.is_none());
    /// ```
    pub fn try_from_parts(mantissa: I, scale: u32) -> (r: Option<Self>)
        ensures
            r is Some <==> (scale <= I::spec_max_scale() && mantissa.val() <= I::spec_max_man(false)),
            r matches Some(d) ==> d@.man == mantissa.val() && d@.sign == 0 && d@.scale == scale,
    {
        if scale > I::max_scale() {
            return None;
        }
        if !Self::valid_mantissa(mantissa) {
            return None;
        }
        Some(Self::pack(0, scale, mantissa))
    }
}

} // verus!
