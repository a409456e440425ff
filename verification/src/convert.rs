//! Conversions: from integers to decimals, and between the decimal types.
use vstd::prelude::*;
use vstd::std_specs::convert::{FromSpecImpl, TryFromSpecImpl};

use crate::ops::view_of;
use crate::{Dec128, Dec32, Dec64, Decimal, UDec128, UDec32, UDec64, UnderlyingInt};

verus! {

/// The view of an integer as a decimal at scale 0.
pub open spec fn int_view(v: int) -> crate::DecimalView {
    view_of(
        if v < 0 {
            1
        } else {
            0
        },
        0,
        (if v < 0 {
            -v
        } else {
            v
        }) as nat,
    )
}

/// The view of a decimal number `num` at scale `scale`.
pub open spec fn num_view(num: int, scale: nat) -> crate::DecimalView {
    view_of(
        if num < 0 {
            1
        } else {
            0
        },
        scale,
        (if num < 0 {
            -num
        } else {
            num
        }) as nat,
    )
}

impl From<i8> for Decimal<u128, true> {
    fn from(value: i8) -> (r: Self) {
        let r = Self::from_parts(value as i128, 0);
        proof {
            Self::lemma_from_view(r);
        }
        r
    }
}

impl FromSpecImpl<i8> for Decimal<u128, true> {
    open spec fn obeys_from_spec() -> bool {
        true
    }

    open spec fn from_spec(v: i8) -> Self {
        Self::from_view(int_view(v as int))
    }
}

impl From<u8> for Decimal<u128, true> {
    fn from(value: u8) -> (r: Self) {
        let r = Self::from_parts(value as i128, 0);
        proof {
            Self::lemma_from_view(r);
        }
        r
    }
}

impl FromSpecImpl<u8> for Decimal<u128, true> {
    open spec fn obeys_from_spec() -> bool {
        true
    }

    open spec fn from_spec(v: u8) -> Self {
        Self::from_view(int_view(v as int))
    }
}

impl From<i16> for Decimal<u128, true> {
    fn from(value: i16) -> (r: Self) {
        let r = Self::from_parts(value as i128, 0);
        proof {
            Self::lemma_from_view(r);
        }
        r
    }
}

impl FromSpecImpl<i16> for Decimal<u128, true> {
    open spec fn obeys_from_spec() -> bool {
        true
    }

    open spec fn from_spec(v: i16) -> Self {
        Self::from_view(int_view(v as int))
    }
}

impl From<u16> for Decimal<u128, true> {
    fn from(value: u16) -> (r: Self) {
        let r = Self::from_parts(value as i128, 0);
        proof {
            Self::lemma_from_view(r);
        }
        r
    }
}

impl FromSpecImpl<u16> for Decimal<u128, true> {
    open spec fn obeys_from_spec() -> bool {
        true
    }

    open spec fn from_spec(v: u16) -> Self {
        Self::from_view(int_view(v as int))
    }
}

impl From<i32> for Decimal<u128, true> {
    fn from(value: i32) -> (r: Self) {
        let r = Self::from_parts(value as i128, 0);
        proof {
            Self::lemma_from_view(r);
        }
        r
    }
}

impl FromSpecImpl<i32> for Decimal<u128, true> {
    open spec fn obeys_from_spec() -> bool {
        true
    }

    open spec fn from_spec(v: i32) -> Self {
        Self::from_view(int_view(v as int))
    }
}

impl From<u32> for Decimal<u128, true> {
    fn from(value: u32) -> (r: Self) {
        let r = Self::from_parts(value as i128, 0);
        proof {
            Self::lemma_from_view(r);
        }
        r
    }
}

impl FromSpecImpl<u32> for Decimal<u128, true> {
    open spec fn obeys_from_spec() -> bool {
        true
    }

    open spec fn from_spec(v: u32) -> Self {
        Self::from_view(int_view(v as int))
    }
}

impl From<i64> for Decimal<u128, true> {
    fn from(value: i64) -> (r: Self) {
        let r = Self::from_parts(value as i128, 0);
        proof {
            Self::lemma_from_view(r);
        }
        r
    }
}

impl FromSpecImpl<i64> for Decimal<u128, true> {
    open spec fn obeys_from_spec() -> bool {
        true
    }

    open spec fn from_spec(v: i64) -> Self {
        Self::from_view(int_view(v as int))
    }
}

impl From<u64> for Decimal<u128, true> {
    fn from(value: u64) -> (r: Self) {
        let r = Self::from_parts(value as i128, 0);
        proof {
            Self::lemma_from_view(r);
        }
        r
    }
}

impl FromSpecImpl<u64> for Decimal<u128, true> {
    open spec fn obeys_from_spec() -> bool {
        true
    }

    open spec fn from_spec(v: u64) -> Self {
        Self::from_view(int_view(v as int))
    }
}

impl From<i8> for Decimal<u64, true> {
    fn from(value: i8) -> (r: Self) {
        let r = Self::from_parts(value as i64, 0);
        proof {
            Self::lemma_from_view(r);
        }
        r
    }
}

impl FromSpecImpl<i8> for Decimal<u64, true> {
    open spec fn obeys_from_spec() -> bool {
        true
    }

    open spec fn from_spec(v: i8) -> Self {
        Self::from_view(int_view(v as int))
    }
}

impl From<u8> for Decimal<u64, true> {
    fn from(value: u8) -> (r: Self) {
        let r = Self::from_parts(value as i64, 0);
        proof {
            Self::lemma_from_view(r);
        }
        r
    }
}

impl FromSpecImpl<u8> for Decimal<u64, true> {
    open spec fn obeys_from_spec() -> bool {
        true
    }

    open spec fn from_spec(v: u8) -> Self {
        Self::from_view(int_view(v as int))
    }
}

impl From<i16> for Decimal<u64, true> {
    fn from(value: i16) -> (r: Self) {
        let r = Self::from_parts(value as i64, 0);
        proof {
            Self::lemma_from_view(r);
        }
        r
    }
}

impl FromSpecImpl<i16> for Decimal<u64, true> {
    open spec fn obeys_from_spec() -> bool {
        true
    }

    open spec fn from_spec(v: i16) -> Self {
        Self::from_view(int_view(v as int))
    }
}

impl From<u16> for Decimal<u64, true> {
    fn from(value: u16) -> (r: Self) {
        let r = Self::from_parts(value as i64, 0);
        proof {
            Self::lemma_from_view(r);
        }
        r
    }
}

impl FromSpecImpl<u16> for Decimal<u64, true> {
    open spec fn obeys_from_spec() -> bool {
        true
    }

    open spec fn from_spec(v: u16) -> Self {
        Self::from_view(int_view(v as int))
    }
}

impl From<i32> for Decimal<u64, true> {
    fn from(value: i32) -> (r: Self) {
        let r = Self::from_parts(value as i64, 0);
        proof {
            Self::lemma_from_view(r);
        }
        r
    }
}

impl FromSpecImpl<i32> for Decimal<u64, true> {
    open spec fn obeys_from_spec() -> bool {
        true
    }

    open spec fn from_spec(v: i32) -> Self {
        Self::from_view(int_view(v as int))
    }
}

impl From<u32> for Decimal<u64, true> {
    fn from(value: u32) -> (r: Self) {
        let r = Self::from_parts(value as i64, 0);
        proof {
            Self::lemma_from_view(r);
        }
        r
    }
}

impl FromSpecImpl<u32> for Decimal<u64, true> {
    open spec fn obeys_from_spec() -> bool {
        true
    }

    open spec fn from_spec(v: u32) -> Self {
        Self::from_view(int_view(v as int))
    }
}

impl From<i8> for Decimal<u32, true> {
    fn from(value: i8) -> (r: Self) {
        let r = Self::from_parts(value as i32, 0);
        proof {
            Self::lemma_from_view(r);
        }
        r
    }
}

impl FromSpecImpl<i8> for Decimal<u32, true> {
    open spec fn obeys_from_spec() -> bool {
        true
    }

    open spec fn from_spec(v: i8) -> Self {
        Self::from_view(int_view(v as int))
    }
}

impl From<u8> for Decimal<u32, true> {
    fn from(value: u8) -> (r: Self) {
        let r = Self::from_parts(value as i32, 0);
        proof {
            Self::lemma_from_view(r);
        }
        r
    }
}

impl FromSpecImpl<u8> for Decimal<u32, true> {
    open spec fn obeys_from_spec() -> bool {
        true
    }

    open spec fn from_spec(v: u8) -> Self {
        Self::from_view(int_view(v as int))
    }
}

impl From<i16> for Decimal<u32, true> {
    fn from(value: i16) -> (r: Self) {
        let r = Self::from_parts(value as i32, 0);
        proof {
            Self::lemma_from_view(r);
        }
        r
    }
}

impl FromSpecImpl<i16> for Decimal<u32, true> {
    open spec fn obeys_from_spec() -> bool {
        true
    }

    open spec fn from_spec(v: i16) -> Self {
        Self::from_view(int_view(v as int))
    }
}

impl From<u16> for Decimal<u32, true> {
    fn from(value: u16) -> (r: Self) {
        let r = Self::from_parts(value as i32, 0);
        proof {
            Self::lemma_from_view(r);
        }
        r
    }
}

impl FromSpecImpl<u16> for Decimal<u32, true> {
    open spec fn obeys_from_spec() -> bool {
        true
    }

    open spec fn from_spec(v: u16) -> Self {
        Self::from_view(int_view(v as int))
    }
}

impl From<u8> for Decimal<u128, false> {
    fn from(value: u8) -> (r: Self) {
        let r = Self::from_parts(value as u128, 0);
        proof {
            Self::lemma_from_view(r);
        }
        r
    }
}

impl FromSpecImpl<u8> for Decimal<u128, false> {
    open spec fn obeys_from_spec() -> bool {
        true
    }

    open spec fn from_spec(v: u8) -> Self {
        Self::from_view(int_view(v as int))
    }
}

impl From<u16> for Decimal<u128, false> {
    fn from(value: u16) -> (r: Self) {
        let r = Self::from_parts(value as u128, 0);
        proof {
            Self::lemma_from_view(r);
        }
        r
    }
}

impl FromSpecImpl<u16> for Decimal<u128, false> {
    open spec fn obeys_from_spec() -> bool {
        true
    }

    open spec fn from_spec(v: u16) -> Self {
        Self::from_view(int_view(v as int))
    }
}

impl From<u32> for Decimal<u128, false> {
    fn from(value: u32) -> (r: Self) {
        let r = Self::from_parts(value as u128, 0);
        proof {
            Self::lemma_from_view(r);
        }
        r
    }
}

impl FromSpecImpl<u32> for Decimal<u128, false> {
    open spec fn obeys_from_spec() -> bool {
        true
    }

    open spec fn from_spec(v: u32) -> Self {
        Self::from_view(int_view(v as int))
    }
}

impl From<u64> for Decimal<u128, false> {
    fn from(value: u64) -> (r: Self) {
        let r = Self::from_parts(value as u128, 0);
        proof {
            Self::lemma_from_view(r);
        }
        r
    }
}

impl FromSpecImpl<u64> for Decimal<u128, false> {
    open spec fn obeys_from_spec() -> bool {
        true
    }

    open spec fn from_spec(v: u64) -> Self {
        Self::from_view(int_view(v as int))
    }
}

impl From<u8> for Decimal<u64, false> {
    fn from(value: u8) -> (r: Self) {
        let r = Self::from_parts(value as u64, 0);
        proof {
            Self::lemma_from_view(r);
        }
        r
    }
}

impl FromSpecImpl<u8> for Decimal<u64, false> {
    open spec fn obeys_from_spec() -> bool {
        true
    }

    open spec fn from_spec(v: u8) -> Self {
        Self::from_view(int_view(v as int))
    }
}

impl From<u16> for Decimal<u64, false> {
    fn from(value: u16) -> (r: Self) {
        let r = Self::from_parts(value as u64, 0);
        proof {
            Self::lemma_from_view(r);
        }
        r
    }
}

impl FromSpecImpl<u16> for Decimal<u64, false> {
    open spec fn obeys_from_spec() -> bool {
        true
    }

    open spec fn from_spec(v: u16) -> Self {
        Self::from_view(int_view(v as int))
    }
}

impl From<u32> for Decimal<u64, false> {
    fn from(value: u32) -> (r: Self) {
        let r = Self::from_parts(value as u64, 0);
        proof {
            Self::lemma_from_view(r);
        }
        r
    }
}

impl FromSpecImpl<u32> for Decimal<u64, false> {
    open spec fn obeys_from_spec() -> bool {
        true
    }

    open spec fn from_spec(v: u32) -> Self {
        Self::from_view(int_view(v as int))
    }
}

impl From<u8> for Decimal<u32, false> {
    fn from(value: u8) -> (r: Self) {
        let r = Self::from_parts(value as u32, 0);
        proof {
            Self::lemma_from_view(r);
        }
        r
    }
}

impl FromSpecImpl<u8> for Decimal<u32, false> {
    open spec fn obeys_from_spec() -> bool {
        true
    }

    open spec fn from_spec(v: u8) -> Self {
        Self::from_view(int_view(v as int))
    }
}

impl From<u16> for Decimal<u32, false> {
    fn from(value: u16) -> (r: Self) {
        let r = Self::from_parts(value as u32, 0);
        proof {
            Self::lemma_from_view(r);
        }
        r
    }
}

impl FromSpecImpl<u16> for Decimal<u32, false> {
    open spec fn obeys_from_spec() -> bool {
        true
    }

    open spec fn from_spec(v: u16) -> Self {
        Self::from_view(int_view(v as int))
    }
}

impl From<Dec64> for Dec128 {
    fn from(value: Dec64) -> (r: Self) {
        let (sign, scale, man) = value.unpack();
        proof {
            crate::lemma_fields_in_range(value);
            crate::math::lemma_pow2_values();
        }
        let r = Self::pack(sign, scale, man as u128);
        proof {
            Self::lemma_from_view(r);
        }
        r
    }
}

impl FromSpecImpl<Dec64> for Dec128 {
    open spec fn obeys_from_spec() -> bool {
        true
    }

    open spec fn from_spec(v: Dec64) -> Self {
        Self::from_view(v@)
    }
}

impl From<UDec64> for Dec128 {
    fn from(value: UDec64) -> (r: Self) {
        let (sign, scale, man) = value.unpack();
        proof {
            crate::lemma_fields_in_range(value);
            crate::math::lemma_pow2_values();
        }
        let r = Self::pack(sign, scale, man as u128);
        proof {
            Self::lemma_from_view(r);
        }
        r
    }
}

impl FromSpecImpl<UDec64> for Dec128 {
    open spec fn obeys_from_spec() -> bool {
        true
    }

    open spec fn from_spec(v: UDec64) -> Self {
        Self::from_view(v@)
    }
}

impl From<Dec32> for Dec128 {
    fn from(value: Dec32) -> (r: Self) {
        let (sign, scale, man) = value.unpack();
        proof {
            crate::lemma_fields_in_range(value);
            crate::math::lemma_pow2_values();
        }
        let r = Self::pack(sign, scale, man as u128);
        proof {
            Self::lemma_from_view(r);
        }
        r
    }
}

impl FromSpecImpl<Dec32> for Dec128 {
    open spec fn obeys_from_spec() -> bool {
        true
    }

    open spec fn from_spec(v: Dec32) -> Self {
        Self::from_view(v@)
    }
}

impl From<UDec32> for Dec128 {
    fn from(value: UDec32) -> (r: Self) {
        let (sign, scale, man) = value.unpack();
        proof {
            crate::lemma_fields_in_range(value);
            crate::math::lemma_pow2_values();
        }
        let r = Self::pack(sign, scale, man as u128);
        proof {
            Self::lemma_from_view(r);
        }
        r
    }
}

impl FromSpecImpl<UDec32> for Dec128 {
    open spec fn obeys_from_spec() -> bool {
        true
    }

    open spec fn from_spec(v: UDec32) -> Self {
        Self::from_view(v@)
    }
}

impl From<Dec32> for Dec64 {
    fn from(value: Dec32) -> (r: Self) {
        let (sign, scale, man) = value.unpack();
        proof {
            crate::lemma_fields_in_range(value);
            crate::math::lemma_pow2_values();
        }
        let r = Self::pack(sign, scale, man as u64);
        proof {
            Self::lemma_from_view(r);
        }
        r
    }
}

impl FromSpecImpl<Dec32> for Dec64 {
    open spec fn obeys_from_spec() -> bool {
        true
    }

    open spec fn from_spec(v: Dec32) -> Self {
        Self::from_view(v@)
    }
}

impl From<UDec32> for Dec64 {
    fn from(value: UDec32) -> (r: Self) {
        let (sign, scale, man) = value.unpack();
        proof {
            crate::lemma_fields_in_range(value);
            crate::math::lemma_pow2_values();
        }
        let r = Self::pack(sign, scale, man as u64);
        proof {
            Self::lemma_from_view(r);
        }
        r
    }
}

impl FromSpecImpl<UDec32> for Dec64 {
    open spec fn obeys_from_spec() -> bool {
        true
    }

    open spec fn from_spec(v: UDec32) -> Self {
        Self::from_view(v@)
    }
}

impl From<UDec64> for UDec128 {
    fn from(value: UDec64) -> (r: Self) {
        let (sign, scale, man) = value.unpack();
        proof {
            crate::lemma_fields_in_range(value);
            crate::math::lemma_pow2_values();
        }
        let r = Self::pack(sign, scale, man as u128);
        proof {
            Self::lemma_from_view(r);
        }
        r
    }
}

impl FromSpecImpl<UDec64> for UDec128 {
    open spec fn obeys_from_spec() -> bool {
        true
    }

    open spec fn from_spec(v: UDec64) -> Self {
        Self::from_view(v@)
    }
}

impl From<UDec32> for UDec128 {
    fn from(value: UDec32) -> (r: Self) {
        let (sign, scale, man) = value.unpack();
        proof {
            crate::lemma_fields_in_range(value);
            crate::math::lemma_pow2_values();
        }
        let r = Self::pack(sign, scale, man as u128);
        proof {
            Self::lemma_from_view(r);
        }
        r
    }
}

impl FromSpecImpl<UDec32> for UDec128 {
    open spec fn obeys_from_spec() -> bool {
        true
    }

    open spec fn from_spec(v: UDec32) -> Self {
        Self::from_view(v@)
    }
}

impl From<UDec32> for UDec64 {
    fn from(value: UDec32) -> (r: Self) {
        let (sign, scale, man) = value.unpack();
        proof {
            crate::lemma_fields_in_range(value);
            crate::math::lemma_pow2_values();
        }
        let r = Self::pack(sign, scale, man as u64);
        proof {
            Self::lemma_from_view(r);
        }
        r
    }
}

impl FromSpecImpl<UDec32> for UDec64 {
    open spec fn obeys_from_spec() -> bool {
        true
    }

    open spec fn from_spec(v: UDec32) -> Self {
        Self::from_view(v@)
    }
}

impl TryFrom<Dec128> for UDec128 {
    type Error = ();

    fn try_from(value: Dec128) -> (r: Result<Self, ()>) {
        let (man, scale) = value.parts();
        proof {
            crate::lemma_fields_in_range(value);
        }
        if man < 0 {
            return Err(());
        }
        match Self::try_from_parts(man as u128, scale) {
            Some(d) => {
                proof {
                    Self::lemma_from_view(d);
                }
                Ok(d)
            },
            None => Err(()),
        }
    }
}

impl TryFromSpecImpl<Dec128> for UDec128 {
    open spec fn obeys_try_from_spec() -> bool {
        true
    }

    /// The same number at the same scale, when the mantissa and the scale
    /// fit in the target type.
    open spec fn try_from_spec(v: Dec128) -> Result<Self, ()> {
        if 0 <= v@.num() && v@.num() <= u128::spec_max_man(false) && v@.scale <= u128::spec_max_scale() {
            Ok(Self::from_view(num_view(v@.num(), v@.scale)))
        } else {
            Err(())
        }
    }
}

impl TryFrom<Dec64> for UDec128 {
    type Error = ();

    fn try_from(value: Dec64) -> (r: Result<Self, ()>) {
        let (man, scale) = value.parts();
        proof {
            crate::lemma_fields_in_range(value);
        }
        if man < 0 {
            return Err(());
        }
        match Self::try_from_parts(man as u128, scale) {
            Some(d) => {
                proof {
                    Self::lemma_from_view(d);
                }
                Ok(d)
            },
            None => Err(()),
        }
    }
}

impl TryFromSpecImpl<Dec64> for UDec128 {
    open spec fn obeys_try_from_spec() -> bool {
        true
    }

    /// The same number at the same scale, when the mantissa and the scale
    /// fit in the target type.
    open spec fn try_from_spec(v: Dec64) -> Result<Self, ()> {
        if 0 <= v@.num() && v@.num() <= u128::spec_max_man(false) && v@.scale <= u128::spec_max_scale() {
            Ok(Self::from_view(num_view(v@.num(), v@.scale)))
        } else {
            Err(())
        }
    }
}

impl TryFrom<Dec32> for UDec128 {
    type Error = ();

    fn try_from(value: Dec32) -> (r: Result<Self, ()>) {
        let (man, scale) = value.parts();
        proof {
            crate::lemma_fields_in_range(value);
        }
        if man < 0 {
            return Err(());
        }
        match Self::try_from_parts(man as u128, scale) {
            Some(d) => {
                proof {
                    Self::lemma_from_view(d);
                }
                Ok(d)
            },
            None => Err(()),
        }
    }
}

impl TryFromSpecImpl<Dec32> for UDec128 {
    open spec fn obeys_try_from_spec() -> bool {
        true
    }

    /// The same number at the same scale, when the mantissa and the scale
    /// fit in the target type.
    open spec fn try_from_spec(v: Dec32) -> Result<Self, ()> {
        if 0 <= v@.num() && v@.num() <= u128::spec_max_man(false) && v@.scale <= u128::spec_max_scale() {
            Ok(Self::from_view(num_view(v@.num(), v@.scale)))
        } else {
            Err(())
        }
    }
}

impl TryFrom<Dec128> for UDec64 {
    type Error = ();

    fn try_from(value: Dec128) -> (r: Result<Self, ()>) {
        let (man, scale) = value.parts();
        proof {
            crate::lemma_fields_in_range(value);
        }
        if man < 0 || man > u64::MAX as i128 {
            return Err(());
        }
        match Self::try_from_parts(man as u64, scale) {
            Some(d) => {
                proof {
                    Self::lemma_from_view(d);
                }
                Ok(d)
            },
            None => Err(()),
        }
    }
}

impl TryFromSpecImpl<Dec128> for UDec64 {
    open spec fn obeys_try_from_spec() -> bool {
        true
    }

    /// The same number at the same scale, when the mantissa and the scale
    /// fit in the target type.
    open spec fn try_from_spec(v: Dec128) -> Result<Self, ()> {
        if 0 <= v@.num() && v@.num() <= u64::spec_max_man(false) && v@.scale <= u64::spec_max_scale() {
            Ok(Self::from_view(num_view(v@.num(), v@.scale)))
        } else {
            Err(())
        }
    }
}

impl TryFrom<Dec64> for UDec64 {
    type Error = ();

    fn try_from(value: Dec64) -> (r: Result<Self, ()>) {
        let (man, scale) = value.parts();
        proof {
            crate::lemma_fields_in_range(value);
        }
        if man < 0 {
            return Err(());
        }
        match Self::try_from_parts(man as u64, scale) {
            Some(d) => {
                proof {
                    Self::lemma_from_view(d);
                }
                Ok(d)
            },
            None => Err(()),
        }
    }
}

impl TryFromSpecImpl<Dec64> for UDec64 {
    open spec fn obeys_try_from_spec() -> bool {
        true
    }

    /// The same number at the same scale, when the mantissa and the scale
    /// fit in the target type.
    open spec fn try_from_spec(v: Dec64) -> Result<Self, ()> {
        if 0 <= v@.num() && v@.num() <= u64::spec_max_man(false) && v@.scale <= u64::spec_max_scale() {
            Ok(Self::from_view(num_view(v@.num(), v@.scale)))
        } else {
            Err(())
        }
    }
}

impl TryFrom<Dec32> for UDec64 {
    type Error = ();

    fn try_from(value: Dec32) -> (r: Result<Self, ()>) {
        let (man, scale) = value.parts();
        proof {
            crate::lemma_fields_in_range(value);
        }
        if man < 0 {
            return Err(());
        }
        match Self::try_from_parts(man as u64, scale) {
            Some(d) => {
                proof {
                    Self::lemma_from_view(d);
                }
                Ok(d)
            },
            None => Err(()),
        }
    }
}

impl TryFromSpecImpl<Dec32> for UDec64 {
    open spec fn obeys_try_from_spec() -> bool {
        true
    }

    /// The same number at the same scale, when the mantissa and the scale
    /// fit in the target type.
    open spec fn try_from_spec(v: Dec32) -> Result<Self, ()> {
        if 0 <= v@.num() && v@.num() <= u64::spec_max_man(false) && v@.scale <= u64::spec_max_scale() {
            Ok(Self::from_view(num_view(v@.num(), v@.scale)))
        } else {
            Err(())
        }
    }
}

impl TryFrom<Dec128> for UDec32 {
    type Error = ();

    fn try_from(value: Dec128) -> (r: Result<Self, ()>) {
        let (man, scale) = value.parts();
        proof {
            crate::lemma_fields_in_range(value);
        }
        if man < 0 || man > u32::MAX as i128 {
            return Err(());
        }
        match Self::try_from_parts(man as u32, scale) {
            Some(d) => {
                proof {
                    Self::lemma_from_view(d);
                }
                Ok(d)
            },
            None => Err(()),
        }
    }
}

impl TryFromSpecImpl<Dec128> for UDec32 {
    open spec fn obeys_try_from_spec() -> bool {
        true
    }

    /// The same number at the same scale, when the mantissa and the scale
    /// fit in the target type.
    open spec fn try_from_spec(v: Dec128) -> Result<Self, ()> {
        if 0 <= v@.num() && v@.num() <= u32::spec_max_man(false) && v@.scale <= u32::spec_max_scale() {
            Ok(Self::from_view(num_view(v@.num(), v@.scale)))
        } else {
            Err(())
        }
    }
}

impl TryFrom<Dec64> for UDec32 {
    type Error = ();

    fn try_from(value: Dec64) -> (r: Result<Self, ()>) {
        let (man, scale) = value.parts();
        proof {
            crate::lemma_fields_in_range(value);
        }
        if man < 0 || man > u32::MAX as i64 {
            return Err(());
        }
        match Self::try_from_parts(man as u32, scale) {
            Some(d) => {
                proof {
                    Self::lemma_from_view(d);
                }
                Ok(d)
            },
            None => Err(()),
        }
    }
}

impl TryFromSpecImpl<Dec64> for UDec32 {
    open spec fn obeys_try_from_spec() -> bool {
        true
    }

    /// The same number at the same scale, when the mantissa and the scale
    /// fit in the target type.
    open spec fn try_from_spec(v: Dec64) -> Result<Self, ()> {
        if 0 <= v@.num() && v@.num() <= u32::spec_max_man(false) && v@.scale <= u32::spec_max_scale() {
            Ok(Self::from_view(num_view(v@.num(), v@.scale)))
        } else {
            Err(())
        }
    }
}

impl TryFrom<Dec32> for UDec32 {
    type Error = ();

    fn try_from(value: Dec32) -> (r: Result<Self, ()>) {
        let (man, scale) = value.parts();
        proof {
            crate::lemma_fields_in_range(value);
        }
        if man < 0 {
            return Err(());
        }
        match Self::try_from_parts(man as u32, scale) {
            Some(d) => {
                proof {
                    Self::lemma_from_view(d);
                }
                Ok(d)
            },
            None => Err(()),
        }
    }
}

impl TryFromSpecImpl<Dec32> for UDec32 {
    open spec fn obeys_try_from_spec() -> bool {
        true
    }

    /// The same number at the same scale, when the mantissa and the scale
    /// fit in the target type.
    open spec fn try_from_spec(v: Dec32) -> Result<Self, ()> {
        if 0 <= v@.num() && v@.num() <= u32::spec_max_man(false) && v@.scale <= u32::spec_max_scale() {
            Ok(Self::from_view(num_view(v@.num(), v@.scale)))
        } else {
            Err(())
        }
    }
}

impl TryFrom<UDec128> for Dec128 {
    type Error = ();

    fn try_from(value: UDec128) -> (r: Result<Self, ()>) {
        let (man, scale) = value.parts();
        proof {
            crate::lemma_fields_in_range(value);
        }
        if man > i128::MAX as u128 {
            return Err(());
        }
        match Self::try_from_parts(man as i128, scale) {
            Some(d) => {
                proof {
                    Self::lemma_from_view(d);
                }
                Ok(d)
            },
            None => Err(()),
        }
    }
}

impl TryFromSpecImpl<UDec128> for Dec128 {
    open spec fn obeys_try_from_spec() -> bool {
        true
    }

    /// The same number at the same scale, when the mantissa and the scale
    /// fit in the target type.
    open spec fn try_from_spec(v: UDec128) -> Result<Self, ()> {
        if -(u128::spec_max_man(true) as int) <= v@.num() && v@.num() <= u128::spec_max_man(true) && v@.scale <= u128::spec_max_scale() {
            Ok(Self::from_view(num_view(v@.num(), v@.scale)))
        } else {
            Err(())
        }
    }
}

impl TryFrom<UDec64> for Dec64 {
    type Error = ();

    fn try_from(value: UDec64) -> (r: Result<Self, ()>) {
        let (man, scale) = value.parts();
        proof {
            crate::lemma_fields_in_range(value);
        }
        if man > i64::MAX as u64 {
            return Err(());
        }
        match Self::try_from_parts(man as i64, scale) {
            Some(d) => {
                proof {
                    Self::lemma_from_view(d);
                }
                Ok(d)
            },
            None => Err(()),
        }
    }
}

impl TryFromSpecImpl<UDec64> for Dec64 {
    open spec fn obeys_try_from_spec() -> bool {
        true
    }

    /// The same number at the same scale, when the mantissa and the scale
    /// fit in the target type.
    open spec fn try_from_spec(v: UDec64) -> Result<Self, ()> {
        if -(u64::spec_max_man(true) as int) <= v@.num() && v@.num() <= u64::spec_max_man(true) && v@.scale <= u64::spec_max_scale() {
            Ok(Self::from_view(num_view(v@.num(), v@.scale)))
        } else {
            Err(())
        }
    }
}

impl TryFrom<UDec128> for Dec64 {
    type Error = ();

    fn try_from(value: UDec128) -> (r: Result<Self, ()>) {
        let (man, scale) = value.parts();
        proof {
            crate::lemma_fields_in_range(value);
        }
        if man > i64::MAX as u128 {
            return Err(());
        }
        match Self::try_from_parts(man as i64, scale) {
            Some(d) => {
                proof {
                    Self::lemma_from_view(d);
                }
                Ok(d)
            },
            None => Err(()),
        }
    }
}

impl TryFromSpecImpl<UDec128> for Dec64 {
    open spec fn obeys_try_from_spec() -> bool {
        true
    }

    /// The same number at the same scale, when the mantissa and the scale
    /// fit in the target type.
    open spec fn try_from_spec(v: UDec128) -> Result<Self, ()> {
        if -(u64::spec_max_man(true) as int) <= v@.num() && v@.num() <= u64::spec_max_man(true) && v@.scale <= u64::spec_max_scale() {
            Ok(Self::from_view(num_view(v@.num(), v@.scale)))
        } else {
            Err(())
        }
    }
}

impl TryFrom<UDec32> for Dec32 {
    type Error = ();

    fn try_from(value: UDec32) -> (r: Result<Self, ()>) {
        let (man, scale) = value.parts();
        proof {
            crate::lemma_fields_in_range(value);
        }
        if man > i32::MAX as u32 {
            return Err(());
        }
        match Self::try_from_parts(man as i32, scale) {
            Some(d) => {
                proof {
                    Self::lemma_from_view(d);
                }
                Ok(d)
            },
            None => Err(()),
        }
    }
}

impl TryFromSpecImpl<UDec32> for Dec32 {
    open spec fn obeys_try_from_spec() -> bool {
        true
    }

    /// The same number at the same scale, when the mantissa and the scale
    /// fit in the target type.
    open spec fn try_from_spec(v: UDec32) -> Result<Self, ()> {
        if -(u32::spec_max_man(true) as int) <= v@.num() && v@.num() <= u32::spec_max_man(true) && v@.scale <= u32::spec_max_scale() {
            Ok(Self::from_view(num_view(v@.num(), v@.scale)))
        } else {
            Err(())
        }
    }
}

impl TryFrom<UDec64> for Dec32 {
    type Error = ();

    fn try_from(value: UDec64) -> (r: Result<Self, ()>) {
        let (man, scale) = value.parts();
        proof {
            crate::lemma_fields_in_range(value);
        }
        if man > i32::MAX as u64 {
            return Err(());
        }
        match Self::try_from_parts(man as i32, scale) {
            Some(d) => {
                proof {
                    Self::lemma_from_view(d);
                }
                Ok(d)
            },
            None => Err(()),
        }
    }
}

impl TryFromSpecImpl<UDec64> for Dec32 {
    open spec fn obeys_try_from_spec() -> bool {
        true
    }

    /// The same number at the same scale, when the mantissa and the scale
    /// fit in the target type.
    open spec fn try_from_spec(v: UDec64) -> Result<Self, ()> {
        if -(u32::spec_max_man(true) as int) <= v@.num() && v@.num() <= u32::spec_max_man(true) && v@.scale <= u32::spec_max_scale() {
            Ok(Self::from_view(num_view(v@.num(), v@.scale)))
        } else {
            Err(())
        }
    }
}

impl TryFrom<UDec128> for Dec32 {
    type Error = ();

    fn try_from(value: UDec128) -> (r: Result<Self, ()>) {
        let (man, scale) = value.parts();
        proof {
            crate::lemma_fields_in_range(value);
        }
        if man > i32::MAX as u128 {
            return Err(());
        }
        match Self::try_from_parts(man as i32, scale) {
            Some(d) => {
                proof {
                    Self::lemma_from_view(d);
                }
                Ok(d)
            },
            None => Err(()),
        }
    }
}

impl TryFromSpecImpl<UDec128> for Dec32 {
    open spec fn obeys_try_from_spec() -> bool {
        true
    }

    /// The same number at the same scale, when the mantissa and the scale
    /// fit in the target type.
    open spec fn try_from_spec(v: UDec128) -> Result<Self, ()> {
        if -(u32::spec_max_man(true) as int) <= v@.num() && v@.num() <= u32::spec_max_man(true) && v@.scale <= u32::spec_max_scale() {
            Ok(Self::from_view(num_view(v@.num(), v@.scale)))
        } else {
            Err(())
        }
    }
}

impl TryFrom<Dec128> for Dec64 {
    type Error = ();

    fn try_from(value: Dec128) -> (r: Result<Self, ()>) {
        let (man, scale) = value.parts();
        proof {
            crate::lemma_fields_in_range(value);
        }
        if man < i64::MIN as i128 || man > i64::MAX as i128 {
            return Err(());
        }
        match Self::try_from_parts(man as i64, scale) {
            Some(d) => {
                proof {
                    Self::lemma_from_view(d);
                }
                Ok(d)
            },
            None => Err(()),
        }
    }
}

impl TryFromSpecImpl<Dec128> for Dec64 {
    open spec fn obeys_try_from_spec() -> bool {
        true
    }

    /// The same number at the same scale, when the mantissa and the scale
    /// fit in the target type.
    open spec fn try_from_spec(v: Dec128) -> Result<Self, ()> {
        if -(u64::spec_max_man(true) as int) <= v@.num() && v@.num() <= u64::spec_max_man(true) && v@.scale <= u64::spec_max_scale() {
            Ok(Self::from_view(num_view(v@.num(), v@.scale)))
        } else {
            Err(())
        }
    }
}

impl TryFrom<Dec64> for Dec32 {
    type Error = ();

    fn try_from(value: Dec64) -> (r: Result<Self, ()>) {
        let (man, scale) = value.parts();
        proof {
            crate::lemma_fields_in_range(value);
        }
        if man < i32::MIN as i64 || man > i32::MAX as i64 {
            return Err(());
        }
        match Self::try_from_parts(man as i32, scale) {
            Some(d) => {
                proof {
                    Self::lemma_from_view(d);
                }
                Ok(d)
            },
            None => Err(()),
        }
    }
}

impl TryFromSpecImpl<Dec64> for Dec32 {
    open spec fn obeys_try_from_spec() -> bool {
        true
    }

    /// The same number at the same scale, when the mantissa and the scale
    /// fit in the target type.
    open spec fn try_from_spec(v: Dec64) -> Result<Self, ()> {
        if -(u32::spec_max_man(true) as int) <= v@.num() && v@.num() <= u32::spec_max_man(true) && v@.scale <= u32::spec_max_scale() {
            Ok(Self::from_view(num_view(v@.num(), v@.scale)))
        } else {
            Err(())
        }
    }
}

impl TryFrom<Dec128> for Dec32 {
    type Error = ();

    fn try_from(value: Dec128) -> (r: Result<Self, ()>) {
        let (man, scale) = value.parts();
        proof {
            crate::lemma_fields_in_range(value);
        }
        if man < i32::MIN as i128 || man > i32::MAX as i128 {
            return Err(());
        }
        match Self::try_from_parts(man as i32, scale) {
            Some(d) => {
                proof {
                    Self::lemma_from_view(d);
                }
                Ok(d)
            },
            None => Err(()),
        }
    }
}

impl TryFromSpecImpl<Dec128> for Dec32 {
    open spec fn obeys_try_from_spec() -> bool {
        true
    }

    /// The same number at the same scale, when the mantissa and the scale
    /// fit in the target type.
    open spec fn try_from_spec(v: Dec128) -> Result<Self, ()> {
        if -(u32::spec_max_man(true) as int) <= v@.num() && v@.num() <= u32::spec_max_man(true) && v@.scale <= u32::spec_max_scale() {
            Ok(Self::from_view(num_view(v@.num(), v@.scale)))
        } else {
            Err(())
        }
    }
}

impl TryFrom<UDec128> for UDec64 {
    type Error = ();

    fn try_from(value: UDec128) -> (r: Result<Self, ()>) {
        let (man, scale) = value.parts();
        proof {
            crate::lemma_fields_in_range(value);
        }
        if man > u64::MAX as u128 {
            return Err(());
        }
        match Self::try_from_parts(man as u64, scale) {
            Some(d) => {
                proof {
                    Self::lemma_from_view(d);
                }
                Ok(d)
            },
            None => Err(()),
        }
    }
}

impl TryFromSpecImpl<UDec128> for UDec64 {
    open spec fn obeys_try_from_spec() -> bool {
        true
    }

    /// The same number at the same scale, when the mantissa and the scale
    /// fit in the target type.
    open spec fn try_from_spec(v: UDec128) -> Result<Self, ()> {
        if 0 <= v@.num() && v@.num() <= u64::spec_max_man(false) && v@.scale <= u64::spec_max_scale() {
            Ok(Self::from_view(num_view(v@.num(), v@.scale)))
        } else {
            Err(())
        }
    }
}

impl TryFrom<UDec64> for UDec32 {
    type Error = ();

    fn try_from(value: UDec64) -> (r: Result<Self, ()>) {
        let (man, scale) = value.parts();
        proof {
            crate::lemma_fields_in_range(value);
        }
        if man > u32::MAX as u64 {
            return Err(());
        }
        match Self::try_from_parts(man as u32, scale) {
            Some(d) => {
                proof {
                    Self::lemma_from_view(d);
                }
                Ok(d)
            },
            None => Err(()),
        }
    }
}

impl TryFromSpecImpl<UDec64> for UDec32 {
    open spec fn obeys_try_from_spec() -> bool {
        true
    }

    /// The same number at the same scale, when the mantissa and the scale
    /// fit in the target type.
    open spec fn try_from_spec(v: UDec64) -> Result<Self, ()> {
        if 0 <= v@.num() && v@.num() <= u32::spec_max_man(false) && v@.scale <= u32::spec_max_scale() {
            Ok(Self::from_view(num_view(v@.num(), v@.scale)))
        } else {
            Err(())
        }
    }
}

impl TryFrom<UDec128> for UDec32 {
    type Error = ();

    fn try_from(value: UDec128) -> (r: Result<Self, ()>) {
        let (man, scale) = value.parts();
        proof {
            crate::lemma_fields_in_range(value);
        }
        if man > u32::MAX as u128 {
            return Err(());
        }
        match Self::try_from_parts(man as u32, scale) {
            Some(d) => {
                proof {
                    Self::lemma_from_view(d);
                }
                Ok(d)
            },
            None => Err(()),
        }
    }
}

impl TryFromSpecImpl<UDec128> for UDec32 {
    open spec fn obeys_try_from_spec() -> bool {
        true
    }

    /// The same number at the same scale, when the mantissa and the scale
    /// fit in the target type.
    open spec fn try_from_spec(v: UDec128) -> Result<Self, ()> {
        if 0 <= v@.num() && v@.num() <= u32::spec_max_man(false) && v@.scale <= u32::spec_max_scale() {
            Ok(Self::from_view(num_view(v@.num(), v@.scale)))
        } else {
            Err(())
        }
    }
}

} // verus!
