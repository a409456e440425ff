//! Reading a decimal from a string: an optional sign, the integer digits,
//! and optionally a point and the fraction digits.
use core::str::FromStr;
use vstd::prelude::*;
use vstd::string::StringSliceAdditionalSpecFns;

use crate::math::{lemma_pow2_values, pow10};
use crate::{Decimal, DecimalView, UnderlyingInt};

verus! {

/// `0` in ASCII.
pub const DIGIT_0: u8 = 48;
/// `9` in ASCII.
pub const DIGIT_9: u8 = 57;
/// `+` in ASCII.
pub const PLUS: u8 = 43;
/// `-` in ASCII.
pub const MINUS: u8 = 45;
/// `.` in ASCII.
pub const POINT: u8 = 46;

/// Error in converting from string.
#[derive(Debug, Clone, Copy, PartialEq, Eq, Structural)]
pub enum ParseError {
    /// Empty string.
    Empty,
    /// Invalid digit in the string.
    Invalid,
    /// Overflow.
    Overflow,
    /// Precision out of range.
    Precision,
}

impl ParseError {
    /// What went wrong, in words.
    pub fn to_string(&self) -> (r: String)
        ensures
            r@ == self.message()@,
    {
        match self {
            ParseError::Empty => "empty string".to_owned(),
            ParseError::Invalid => "invalid digit in the string".to_owned(),
            ParseError::Overflow => "overflow".to_owned(),
            ParseError::Precision => "precision out of range".to_owned(),
        }
    }

    /// The words of [`Self::to_string`].
    pub open spec fn message(&self) -> &'static str {
        match self {
            ParseError::Empty => "empty string",
            ParseError::Invalid => "invalid digit in the string",
            ParseError::Overflow => "overflow",
            ParseError::Precision => "precision out of range",
        }
    }
}

/// An ASCII decimal digit.
pub open spec fn is_digit(b: u8) -> bool {
    DIGIT_0 <= b <= DIGIT_9
}

/// Reading the decimal digits `d` after a prefix whose value is `acc`, from
/// the left: the first byte that is no digit, or the first prefix whose
/// value exceeds `max`, decides the error.
pub open spec fn digits_from(d: Seq<u8>, acc: nat, max: nat) -> Result<nat, ParseError>
    decreases d.len(),
{
    if d.len() == 0 {
        Ok(acc)
    } else if !is_digit(d[0]) {
        Err(ParseError::Invalid)
    } else if acc * 10 + (d[0] - DIGIT_0) > max {
        Err(ParseError::Overflow)
    } else {
        digits_from(d.drop_first(), (acc * 10 + (d[0] - DIGIT_0)) as nat, max)
    }
}

/// Reading a group of digits as an unsigned integer no greater than `max`:
/// at least one decimal digit and nothing else (a sign stands only at the
/// start of the whole string).
pub open spec fn uint_from_bytes(s: Seq<u8>, max: nat) -> Result<nat, ParseError> {
    if s.len() == 0 {
        Err(ParseError::Empty)
    } else {
        digits_from(s, 0, max)
    }
}

/// The index of the first `.` in `s` from `i` on, if any.
pub open spec fn dot_from(s: Seq<u8>, i: nat) -> Option<nat>
    decreases s.len() - i,
{
    if i >= s.len() {
        None
    } else if s[i as int] == POINT {
        Some(i)
    } else {
        dot_from(s, i + 1)
    }
}

/// The mantissa and scale written in `body` (the string without its sign):
/// integer digits, optionally a point and at most `max_scale` fraction
/// digits, the whole mantissa no greater than `max`.
pub open spec fn unsigned_from_bytes(body: Seq<u8>, max: nat, max_scale: nat) -> Result<
    (nat, nat),
    ParseError,
> {
    match dot_from(body, 0) {
        None => match uint_from_bytes(body, max) {
            Ok(m) => Ok((m, 0nat)),
            Err(e) => Err(e),
        },
        Some(k) => {
            let int_s = body.take(k as int);
            let frac_s = body.skip((k + 1) as int);
            let scale = frac_s.len();
            if scale > max_scale {
                Err(ParseError::Precision)
            } else {
                match uint_from_bytes(int_s, max) {
                    Err(e) => Err(e),
                    Ok(i) => match uint_from_bytes(frac_s, max) {
                        Err(e) => Err(e),
                        Ok(f) => if i * pow10(scale) + f > max {
                            Err(ParseError::Overflow)
                        } else {
                            Ok(((i * pow10(scale) + f) as nat, scale))
                        },
                    },
                }
            }
        },
    }
}

/// What [`Decimal::from_str`] reads from the bytes `s` of a string.
pub open spec fn parse_spec<I: UnderlyingInt>(s: Seq<u8>, signed: bool) -> Result<
    DecimalView,
    ParseError,
> {
    if s.len() == 0 {
        Err(ParseError::Empty)
    } else if s[0] == MINUS && !signed {
        Err(ParseError::Invalid)
    } else {
        let sign: nat = if s[0] == MINUS {
            1
        } else {
            0
        };
        let body = if s[0] == MINUS || s[0] == PLUS {
            s.drop_first()
        } else {
            s
        };
        match unsigned_from_bytes(body, (I::spec_int_base() - 1) as nat, I::spec_max_scale()) {
            Err(e) => Err(e),
            Ok((m, scale)) => if m <= I::spec_max_man(signed) {
                Ok(DecimalView { sign, scale, man: m })
            } else {
                Err(ParseError::Overflow)
            },
        }
    }
}

/// Whether an exec result agrees with a spec result.
pub open spec fn same_result<T, V>(r: Result<T, ParseError>, v: Result<V, ParseError>, f: spec_fn(T) -> V) -> bool {
    match (r, v) {
        (Ok(x), Ok(y)) => f(x) == y,
        (Err(e), Err(g)) => e == g,
        _ => false,
    }
}

/// Reads the unsigned integer in `s[start..end]`.
fn parse_uint<I: UnderlyingInt>(s: &[u8], start: usize, end: usize) -> (r: Result<I, ParseError>)
    requires
        start <= end <= s@.len(),
    ensures
        same_result(
            r,
            uint_from_bytes(s@.subrange(start as int, end as int), (I::spec_int_base() - 1) as nat),
            |x: I| x.val(),
        ),
{
    let ghost max = (I::spec_int_base() - 1) as nat;
    let ghost sub = s@.subrange(start as int, end as int);
    if start == end {
        return Err(ParseError::Empty);
    }
    let mut i = start;
    assert(sub =~= s@.subrange(i as int, end as int));
    let ghost first = i;
    let mut acc = I::zero();
    proof {
        I::lemma_shape(acc);
    }
    while i < end
        invariant
            first <= i <= end <= s@.len(),
            sub == s@.subrange(start as int, end as int),
            max == (I::spec_int_base() - 1) as nat,
            acc.val() <= max,
            uint_from_bytes(sub, max) == digits_from(s@.subrange(i as int, end as int), acc.val(), max),
        decreases end - i,
    {
        proof {
            I::lemma_shape(acc);
        }
        let ghost rest = s@.subrange(i as int, end as int);
        assert(rest[0] == s[i as int]);
        assert(rest.drop_first() =~= s@.subrange(i as int + 1, end as int));
        let c = s[i];
        if c < DIGIT_0 || c > DIGIT_9 {
            return Err(ParseError::Invalid);
        }
        let d = I::from_u32((c - DIGIT_0) as u32);
        proof {
            assert(pow10(1) == 10) by {
                crate::math::lemma_pow10_values();
            }
        }
        acc = match acc.checked_mul_exp(1) {
            Some(x) => x,
            None => {
                return Err(ParseError::Overflow);
            },
        };
        acc = match acc.checked_add_int(d) {
            Some(x) => x,
            None => {
                return Err(ParseError::Overflow);
            },
        };
        i += 1;
    }
    assert(s@.subrange(i as int, end as int).len() == 0);
    Ok(acc)
}

impl<I: UnderlyingInt, const S: bool> Decimal<I, S> {
    /// Reads a decimal from a string: an optional sign (`-` for signed
    /// types only), integer digits, and optionally a point and at most
    /// the largest scale of fraction digits; a digit group holds digits
    /// only, at least one (see [`parse_spec`]).
    pub fn from_str(s: &str) -> (r: Result<Self, ParseError>)
        ensures
            same_result(r, parse_spec::<I>(s.spec_bytes(), S), |d: Self| d@),
    {
        let b = s.as_bytes();
        Self::parse_bytes(b)
    }

    /// [`Self::from_str`] on the bytes of the string.
    fn parse_bytes(b: &[u8]) -> (r: Result<Self, ParseError>)
        ensures
            same_result(r, parse_spec::<I>(b@, S), |d: Self| d@),
    {
        let ghost max = (I::spec_int_base() - 1) as nat;
        if b.len() == 0 {
            return Err(ParseError::Empty);
        }
        let mut sign: u8 = 0;
        let mut start: usize = 0;
        if b[0] == MINUS {
            if !S {
                // `-` is invalid for unsigned
                return Err(ParseError::Invalid);
            }
            sign = 1;
            start = 1;
        } else if b[0] == PLUS {
            start = 1;
        }
        let ghost body = b@.subrange(start as int, b@.len() as int);
        proof {
            if start == 1 {
                assert(body =~= b@.drop_first());
            } else {
                assert(body =~= b@);
            }
        }

        // find the point
        let mut k = start;
        while k < b.len() && b[k] != POINT
            invariant
                start <= k <= b@.len(),
                body == b@.subrange(start as int, b@.len() as int),
                dot_from(body, 0) == dot_from(body, (k - start) as nat),
            decreases b@.len() - k,
        {
            assert(body[(k - start) as int] == b@[k as int]);
            k += 1;
        }
        let (man, scale) = if k < b.len() {
            proof {
                assert(dot_from(body, (k - start) as nat) == Some((k - start) as nat));
                assert(body.take((k - start) as int) =~= b@.subrange(start as int, k as int));
                assert(body.skip((k - start) + 1) =~= b@.subrange(k + 1, b@.len() as int));
            }
            let frac_len = b.len() - k - 1;
            if frac_len > I::max_scale() as usize {
                return Err(ParseError::Precision);
            }
            let scale = frac_len as u32;

            let int_num: I = match parse_uint(b, start, k) {
                Ok(x) => x,
                Err(e) => {
                    return Err(e);
                },
            };
            let frac_num: I = match parse_uint(b, k + 1, b.len()) {
                Ok(x) => x,
                Err(e) => {
                    return Err(e);
                },
            };
            proof {
                I::lemma_shape(int_num);
                crate::math::lemma_pow10_mono(scale as nat, I::spec_max_exp());
                crate::math::lemma_pow10_values();
            }
            let int_part = match int_num.checked_mul_exp(scale) {
                Some(x) => x,
                None => {
                    return Err(ParseError::Overflow);
                },
            };
            let man = match int_part.checked_add_int(frac_num) {
                Some(x) => x,
                None => {
                    return Err(ParseError::Overflow);
                },
            };
            (man, scale)
        } else {
            proof {
                assert(dot_from(body, (k - start) as nat) == None::<nat>);
            }
            match parse_uint(b, start, b.len()) {
                Ok(x) => (x, 0),
                Err(e) => {
                    return Err(e);
                },
            }
        };

        if Self::valid_mantissa(man) {
            Ok(Self::pack(sign, scale, man))
        } else {
            Err(ParseError::Overflow)
        }
    }
}

impl<I: UnderlyingInt, const S: bool> FromStr for Decimal<I, S> {
    type Err = ParseError;

    fn from_str(s: &str) -> (r: Result<Self, ParseError>)
        ensures
            same_result(r, parse_spec::<I>(s.spec_bytes(), S), |d: Self| d@),
    {
        Decimal::<I, S>::from_str(s)
    }
}

} // verus!
