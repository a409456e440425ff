//! The arithmetic operators. Each one is defined where its checked
//! counterpart has a result; the operator asks that of its caller.
use core::ops::{Add, Div, Mul, Sub};
use vstd::prelude::*;
use vstd::std_specs::ops::{AddSpecImpl, DivSpecImpl, MulSpecImpl, SubSpecImpl};

use crate::ops::{int_magnitude, int_sign, product_spec, quotient_spec, sum_spec};
use crate::{Decimal, UnderlyingInt};

verus! {

impl<I: UnderlyingInt, const S: bool> Add for Decimal<I, S> {
    type Output = Self;

    fn add(self, rhs: Self) -> (r: Self) {
        let r = self.checked_add(rhs).expect("addition overflow");
        proof {
            Self::lemma_from_view(r);
        }
        r
    }
}

impl<I: UnderlyingInt, const S: bool> AddSpecImpl for Decimal<I, S> {
    open spec fn obeys_add_spec() -> bool {
        true
    }

    open spec fn add_req(self, rhs: Self) -> bool {
        sum_spec::<I>(self@, rhs@.sign, rhs@, S) is Some
    }

    open spec fn add_spec(self, rhs: Self) -> Self {
        Self::from_view(sum_spec::<I>(self@, rhs@.sign, rhs@, S).unwrap())
    }
}

impl<I: UnderlyingInt, const S: bool> Sub for Decimal<I, S> {
    type Output = Self;

    fn sub(self, rhs: Self) -> (r: Self) {
        let r = self.checked_sub(rhs).expect("substraction overflow");
        proof {
            Self::lemma_from_view(r);
        }
        r
    }
}

impl<I: UnderlyingInt, const S: bool> SubSpecImpl for Decimal<I, S> {
    open spec fn obeys_sub_spec() -> bool {
        true
    }

    open spec fn sub_req(self, rhs: Self) -> bool {
        sum_spec::<I>(self@, (1 - rhs@.sign) as nat, rhs@, S) is Some
    }

    open spec fn sub_spec(self, rhs: Self) -> Self {
        Self::from_view(sum_spec::<I>(self@, (1 - rhs@.sign) as nat, rhs@, S).unwrap())
    }
}

impl<I: UnderlyingInt, const S: bool> Mul for Decimal<I, S> {
    type Output = Self;

    fn mul(self, rhs: Self) -> (r: Self) {
        let r = self.checked_mul(rhs).expect("multiplication overflow");
        proof {
            Self::lemma_from_view(r);
        }
        r
    }
}

impl<I: UnderlyingInt, const S: bool> MulSpecImpl for Decimal<I, S> {
    open spec fn obeys_mul_spec() -> bool {
        true
    }

    open spec fn mul_req(self, rhs: Self) -> bool {
        product_spec::<I>(self@, rhs@.sign, rhs@.man, rhs@.scale, S) is Some
    }

    open spec fn mul_spec(self, rhs: Self) -> Self {
        Self::from_view(product_spec::<I>(self@, rhs@.sign, rhs@.man, rhs@.scale, S).unwrap())
    }
}

impl<I: UnderlyingInt, const S: bool> Div for Decimal<I, S> {
    type Output = Self;

    fn div(self, rhs: Self) -> (r: Self) {
        let r = self.checked_div(rhs).expect("division overflow or by zero");
        proof {
            Self::lemma_from_view(r);
        }
        r
    }
}

impl<I: UnderlyingInt, const S: bool> DivSpecImpl for Decimal<I, S> {
    open spec fn obeys_div_spec() -> bool {
        true
    }

    open spec fn div_req(self, rhs: Self) -> bool {
        quotient_spec::<I>(self@, rhs@.sign, rhs@.man, rhs@.scale, S) is Some
    }

    open spec fn div_spec(self, rhs: Self) -> Self {
        Self::from_view(quotient_spec::<I>(self@, rhs@.sign, rhs@.man, rhs@.scale, S).unwrap())
    }
}

impl<const S: bool> Mul<i128> for Decimal<u128, S> {
    type Output = Self;

    fn mul(self, rhs: i128) -> (r: Self) {
        let r = self.checked_mul_int(rhs).expect("multiplication overflow");
        proof {
            Self::lemma_from_view(r);
        }
        r
    }
}

impl<const S: bool> MulSpecImpl<i128> for Decimal<u128, S> {
    open spec fn obeys_mul_spec() -> bool {
        true
    }

    open spec fn mul_req(self, rhs: i128) -> bool {
        product_spec::<u128>(self@, int_sign::<u128>(rhs), int_magnitude::<u128>(rhs), 0, S) is Some
    }

    open spec fn mul_spec(self, rhs: i128) -> Self {
        Self::from_view(
            product_spec::<u128>(self@, int_sign::<u128>(rhs), int_magnitude::<u128>(rhs), 0, S).unwrap(),
        )
    }
}

impl<const S: bool> Div<i128> for Decimal<u128, S> {
    type Output = Self;

    fn div(self, rhs: i128) -> (r: Self) {
        let r = self.checked_div_int(rhs).expect("division overflow or by zero");
        proof {
            Self::lemma_from_view(r);
        }
        r
    }
}

impl<const S: bool> DivSpecImpl<i128> for Decimal<u128, S> {
    open spec fn obeys_div_spec() -> bool {
        true
    }

    open spec fn div_req(self, rhs: i128) -> bool {
        quotient_spec::<u128>(self@, int_sign::<u128>(rhs), int_magnitude::<u128>(rhs), 0, S) is Some
    }

    open spec fn div_spec(self, rhs: i128) -> Self {
        Self::from_view(
            quotient_spec::<u128>(self@, int_sign::<u128>(rhs), int_magnitude::<u128>(rhs), 0, S).unwrap(),
        )
    }
}

impl<const S: bool> Mul<i64> for Decimal<u64, S> {
    type Output = Self;

    fn mul(self, rhs: i64) -> (r: Self) {
        let r = self.checked_mul_int(rhs).expect("multiplication overflow");
        proof {
            Self::lemma_from_view(r);
        }
        r
    }
}

impl<const S: bool> MulSpecImpl<i64> for Decimal<u64, S> {
    open spec fn obeys_mul_spec() -> bool {
        true
    }

    open spec fn mul_req(self, rhs: i64) -> bool {
        product_spec::<u64>(self@, int_sign::<u64>(rhs), int_magnitude::<u64>(rhs), 0, S) is Some
    }

    open spec fn mul_spec(self, rhs: i64) -> Self {
        Self::from_view(
            product_spec::<u64>(self@, int_sign::<u64>(rhs), int_magnitude::<u64>(rhs), 0, S).unwrap(),
        )
    }
}

impl<const S: bool> Div<i64> for Decimal<u64, S> {
    type Output = Self;

    fn div(self, rhs: i64) -> (r: Self) {
        let r = self.checked_div_int(rhs).expect("division overflow or by zero");
        proof {
            Self::lemma_from_view(r);
        }
        r
    }
}

impl<const S: bool> DivSpecImpl<i64> for Decimal<u64, S> {
    open spec fn obeys_div_spec() -> bool {
        true
    }

    open spec fn div_req(self, rhs: i64) -> bool {
        quotient_spec::<u64>(self@, int_sign::<u64>(rhs), int_magnitude::<u64>(rhs), 0, S) is Some
    }

    open spec fn div_spec(self, rhs: i64) -> Self {
        Self::from_view(
            quotient_spec::<u64>(self@, int_sign::<u64>(rhs), int_magnitude::<u64>(rhs), 0, S).unwrap(),
        )
    }
}

impl<const S: bool> Mul<i32> for Decimal<u32, S> {
    type Output = Self;

    fn mul(self, rhs: i32) -> (r: Self) {
        let r = self.checked_mul_int(rhs).expect("multiplication overflow");
        proof {
            Self::lemma_from_view(r);
        }
        r
    }
}

impl<const S: bool> MulSpecImpl<i32> for Decimal<u32, S> {
    open spec fn obeys_mul_spec() -> bool {
        true
    }

    open spec fn mul_req(self, rhs: i32) -> bool {
        product_spec::<u32>(self@, int_sign::<u32>(rhs), int_magnitude::<u32>(rhs), 0, S) is Some
    }

    open spec fn mul_spec(self, rhs: i32) -> Self {
        Self::from_view(
            product_spec::<u32>(self@, int_sign::<u32>(rhs), int_magnitude::<u32>(rhs), 0, S).unwrap(),
        )
    }
}

impl<const S: bool> Div<i32> for Decimal<u32, S> {
    type Output = Self;

    fn div(self, rhs: i32) -> (r: Self) {
        let r = self.checked_div_int(rhs).expect("division overflow or by zero");
        proof {
            Self::lemma_from_view(r);
        }
        r
    }
}

impl<const S: bool> DivSpecImpl<i32> for Decimal<u32, S> {
    open spec fn obeys_div_spec() -> bool {
        true
    }

    open spec fn div_req(self, rhs: i32) -> bool {
        quotient_spec::<u32>(self@, int_sign::<u32>(rhs), int_magnitude::<u32>(rhs), 0, S) is Some
    }

    open spec fn div_spec(self, rhs: i32) -> Self {
        Self::from_view(
            quotient_spec::<u32>(self@, int_sign::<u32>(rhs), int_magnitude::<u32>(rhs), 0, S).unwrap(),
        )
    }
}

} // verus!
