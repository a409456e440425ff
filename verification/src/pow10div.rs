//! Division by powers of ten, done by the `div_pow10` crate.
use vstd::prelude::*;

use crate::math::pow10;

verus! {

/// `div_pow10::bit64::div_single(n, i)`: `n / 10^i`, or `None` when `i > 19`.
#[verifier::external_body]
pub(crate) fn div_single_64(n: u64, i: u32) -> (r: Option<u64>)
    ensures
        r is Some <==> i <= 19,
        r matches Some(q) ==> q as nat == n as nat / pow10(i as nat),
{
    div_pow10::bit64::div_single(n, i)
}

/// `div_pow10::bit64::div_double(n, i)`: quotient and remainder of the 128-bit
/// `n` by `10^i`, or `None` when `i > 19` or the quotient does not fit in 64 bits
/// (the crate's test for that is `n >> 64 >= 10^i`).
#[verifier::external_body]
pub(crate) fn div_double_64(n: u128, i: u32) -> (r: Option<(u64, u64)>)
    ensures
        r is Some <==> (i <= 19 && (n as nat) < pow10(i as nat) * 0x1_0000_0000_0000_0000),
        r matches Some(qr) ==> qr.0 as nat == n as nat / pow10(i as nat) && qr.1 as nat == n as nat
            % pow10(i as nat),
{
    div_pow10::bit64::div_double(n, i)
}

/// `div_pow10::bit128::div_single(n, i)`: `n / 10^i`, or `None` when `i > 38`.
#[verifier::external_body]
pub(crate) fn div_single_128(n: u128, i: u32) -> (r: Option<u128>)
    ensures
        r is Some <==> i <= 38,
        r matches Some(q) ==> q as nat == n as nat / pow10(i as nat),
{
    div_pow10::bit128::div_single(n, i)
}

/// `div_pow10::bit128::div_double(high, low, i)`: quotient and remainder of the
/// 256-bit `high * 2^128 + low` by `10^i`, or `None` when `i > 38` or
/// `high >= 10^i` (the quotient does not fit in 128 bits).
#[verifier::external_body]
pub(crate) fn div_double_128(high: u128, low: u128, i: u32) -> (r: Option<(u128, u128)>)
    ensures
        r is Some <==> (i <= 38 && (high as nat) < pow10(i as nat)),
        r matches Some(qr) ==> qr.0 as nat == (high as nat * 0x1_0000_0000_0000_0000_0000_0000_0000_0000nat
            + low as nat) / pow10(i as nat) && qr.1 as nat == (high as nat
            * 0x1_0000_0000_0000_0000_0000_0000_0000_0000nat + low as nat) % pow10(i as nat),
{
    div_pow10::bit128::div_double(high, low, i)
}

} // verus!
