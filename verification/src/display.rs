//! Writing a decimal as a string: the integer digits, and a point and the
//! fraction digits when there are any, at the decimal's own scale or at a
//! given precision.
use vstd::prelude::*;

use crate::from_str::{DIGIT_0, MINUS, POINT};
use crate::math::{div_round, lemma_pow10_mono, lemma_pow10_pos, lemma_pow10_values, pow10};
use crate::{Decimal, UnderlyingInt};

verus! {

/// The decimal digits of `n` in ASCII, most significant first (`0` for
/// zero).
pub open spec fn digits_of(n: nat) -> Seq<u8>
    decreases n,
{
    if n < 10 {
        seq![(DIGIT_0 + n) as u8]
    } else {
        digits_of(n / 10).push((DIGIT_0 + n % 10) as u8)
    }
}

/// `k` ASCII zeros.
pub open spec fn zeros(k: nat) -> Seq<u8> {
    Seq::new(k, |i: int| DIGIT_0)
}

/// The digits of `n` with zeros in front, `w` digits in all when `n` has
/// no more.
pub open spec fn padded(n: nat, w: nat) -> Seq<u8> {
    if digits_of(n).len() >= w {
        digits_of(n)
    } else {
        zeros((w - digits_of(n).len()) as nat) + digits_of(n)
    }
}

/// The integer digits, point and fraction digits of `q`, a number with
/// `f` fraction digits, `f > 0`.
pub open spec fn with_point(q: nat, f: nat) -> Seq<u8> {
    digits_of(q / pow10(f)) + seq![POINT] + padded(q % pow10(f), f)
}

/// The digits of a mantissa `man` at scale `scale`, shown with `precision`
/// fraction digits: rounded half up when that is fewer than the scale;
/// padded with zeros when more, up to the largest scale `max_scale` (or
/// without limit for an integer).
pub open spec fn display_digits(man: nat, scale: nat, precision: nat, max_scale: nat) -> Seq<u8> {
    if scale == 0 {
        if precision > 0 {
            digits_of(man) + seq![POINT] + zeros(precision)
        } else {
            digits_of(man)
        }
    } else if precision >= scale {
        let shown = if precision <= max_scale {
            precision
        } else {
            max_scale
        };
        with_point(man, scale) + zeros((shown - scale) as nat)
    } else {
        let u = div_round(man, pow10((scale - precision) as nat));
        if precision == 0 {
            digits_of(u)
        } else {
            with_point(u, precision)
        }
    }
}

/// The most bytes a display takes.
pub const DISPLAY_LEN: usize = 80;

/// Whether the display of a mantissa `man` at scale `scale` with `precision`
/// fraction digits takes at most [`DISPLAY_LEN`] bytes: it always does but
/// for an integer shown with fraction zeros, whose zeros are not limited to
/// the largest scale.
pub open spec fn display_fits_spec(man: nat, scale: nat, precision: Option<usize>) -> bool {
    match precision {
        Some(p) => scale == 0 && p > 0 ==> digits_of(man).len() + 1 + p <= DISPLAY_LEN,
        None => true,
    }
}

/// The characters of ASCII bytes.
pub open spec fn ascii_chars(s: Seq<u8>) -> Seq<char> {
    s.map_values(|b: u8| b as char)
}

/// An ASCII byte sequence.
pub open spec fn is_ascii_bytes(s: Seq<u8>) -> bool {
    forall|i: int| 0 <= i < s.len() ==> s[i] < 128
}

/// `String::from_utf8(bytes)` on ASCII bytes: the string of the same
/// characters (the call fails only on bytes that are not UTF-8, and ASCII
/// is).
#[verifier::external_body]
fn ascii_string(bytes: Vec<u8>) -> (r: String)
    requires
        is_ascii_bytes(bytes@),
    ensures
        r@ == ascii_chars(bytes@),
{
    String::from_utf8(bytes).unwrap()
}

/// Digits are ASCII.
proof fn lemma_digits_ascii(n: nat)
    ensures
        is_ascii_bytes(digits_of(n)),
        digits_of(n).len() >= 1,
    decreases n,
{
    if n >= 10 {
        lemma_digits_ascii(n / 10);
    }
}

/// A number below `10^w` has at most `w` digits.
pub(crate) proof fn lemma_digits_len(n: nat, w: nat)
    requires
        w >= 1,
        n < pow10(w),
    ensures
        digits_of(n).len() <= w,
    decreases n,
{
    if n >= 10 {
        lemma_pow10_pos((w - 1) as nat);
        assert(pow10(w) == 10 * pow10((w - 1) as nat));
        assert(n / 10 < pow10((w - 1) as nat));
        if w == 1 {
            assert(false);
        }
        lemma_digits_len(n / 10, (w - 1) as nat);
    }
}

/// Appends the digits of `n`.
fn push_digits<I: UnderlyingInt>(v: &mut Vec<u8>, n: I)
    ensures
        final(v)@ == old(v)@ + digits_of(n.val()),
    decreases n.val(),
{
    proof {
        I::lemma_shape(n);
        lemma_pow10_values();
    }
    if n.int_lt(I::from_u32(10)) {
        v.push(DIGIT_0 + n.as_u32() as u8);
    } else {
        let (q, r) = n.div_rem_exp(1);
        push_digits(v, q);
        v.push(DIGIT_0 + r.as_u32() as u8);
    }
}

/// Appends `k` zeros.
fn push_zeros(v: &mut Vec<u8>, k: usize)
    ensures
        final(v)@ == old(v)@ + zeros(k as nat),
{
    let ghost v0 = v@;
    let mut i: usize = 0;
    while i < k
        invariant
            i <= k,
            v@ == v0 + zeros(i as nat),
        decreases k - i,
    {
        v.push(DIGIT_0);
        i += 1;
        assert(v@ =~= v0 + zeros(i as nat));
    }
}

/// Appends the digits of `n`, with zeros in front up to `w` digits.
fn push_padded<I: UnderlyingInt>(v: &mut Vec<u8>, n: I, w: usize)
    ensures
        final(v)@ == old(v)@ + padded(n.val(), w as nat),
{
    let mut t: Vec<u8> = Vec::new();
    push_digits(&mut t, n);
    assert(t@ =~= digits_of(n.val()));
    if t.len() < w {
        push_zeros(v, w - t.len());
    }
    let ghost v1 = v@;
    let mut i: usize = 0;
    while i < t.len()
        invariant
            i <= t.len(),
            v@ == v1 + t@.take(i as int),
        decreases t.len() - i,
    {
        v.push(t[i]);
        i += 1;
        assert(v@ =~= v1 + t@.take(i as int));
    }
    assert(t@.take(t.len() as int) =~= t@);
    proof {
        if t.len() >= w {
            assert(v@ =~= old(v)@ + padded(n.val(), w as nat));
        } else {
            assert(v@ =~= old(v)@ + padded(n.val(), w as nat));
        }
    }
}

/// Appends the integer digits, point and fraction digits of `q`, a number
/// with `f` fraction digits.
fn push_with_point<I: UnderlyingInt>(v: &mut Vec<u8>, q: I, f: u32)
    requires
        1 <= f <= I::spec_max_exp(),
    ensures
        final(v)@ == old(v)@ + with_point(q.val(), f as nat),
{
    let (int_part, frac) = q.div_rem_exp(f);
    push_digits(v, int_part);
    v.push(POINT);
    push_padded(v, frac, f as usize);
    assert(v@ =~= old(v)@ + with_point(q.val(), f as nat));
}

impl<I: UnderlyingInt, const S: bool> Decimal<I, S> {
    /// What the decimal shows: whether it is no negative number (`false`
    /// for a negative sign on a nonzero mantissa), and its digits with
    /// `precision` fraction digits, or as many as its scale when `None`
    /// (see [`display_digits`]).
    pub fn display_parts(&self, precision: Option<usize>) -> (r: (bool, String))
        requires
            display_fits_spec(self@.man, self@.scale, precision),
        ensures
            r.0 == (self@.sign == 0 || self@.man == 0),
            r.1@ == ascii_chars(
                display_digits(
                    self@.man,
                    self@.scale,
                    match precision {
                        Some(p) => p as nat,
                        None => self@.scale,
                    },
                    I::spec_max_scale(),
                ),
            ),
    {
        let (sign, scale, man) = self.unpack();
        let mut v: Vec<u8> = Vec::new();
        self.push_display(&mut v, precision);
        proof {
            lemma_display_ascii(man.val(), scale as nat, match precision {
                Some(p) => p as nat,
                None => scale as nat,
            }, I::spec_max_scale());
        }
        (sign == 0 || man.int_eq(I::zero()), ascii_string(v))
    }

    /// Whether [`Self::display_parts`] can show the decimal with
    /// `precision` fraction digits (see [`display_fits_spec`]).
    pub fn display_fits(&self, precision: Option<usize>) -> (r: bool)
        ensures
            r == display_fits_spec(self@.man, self@.scale, precision),
    {
        let (_, scale, man) = self.unpack();
        match precision {
            None => true,
            Some(p) => {
                if scale != 0 || p == 0 {
                    true
                } else if p >= DISPLAY_LEN {
                    false
                } else {
                    let mut t: Vec<u8> = Vec::new();
                    push_digits(&mut t, man);
                    assert(t@ =~= digits_of(man.val()));
                    t.len() < DISPLAY_LEN - p
                }
            },
        }
    }

    /// The decimal as a string: a `-` for a negative number, then its
    /// digits at its own scale (see [`display_digits`]).
    pub fn to_string(&self) -> (r: String)
        ensures
            r@ == ascii_chars(
                (if self@.sign == 1 && self@.man != 0 {
                    seq![MINUS]
                } else {
                    Seq::<u8>::empty()
                }) + display_digits(self@.man, self@.scale, self@.scale, I::spec_max_scale()),
            ),
    {
        let (sign, scale, man) = self.unpack();
        let mut v: Vec<u8> = Vec::new();
        if sign != 0 && !man.int_eq(I::zero()) {
            v.push(MINUS);
        }
        let ghost v0 = v@;
        self.push_display(&mut v, None);
        proof {
            lemma_display_ascii(man.val(), scale as nat, scale as nat, I::spec_max_scale());
            assert(v@ == v0 + display_digits(man.val(), scale as nat, scale as nat, I::spec_max_scale()));
            assert forall|i: int| 0 <= i < v@.len() implies v@[i] < 128 by {
                if i >= v0.len() {
                    assert(v@[i] == display_digits(man.val(), scale as nat, scale as nat, I::spec_max_scale())[i - v0.len()]);
                }
            }
        }
        ascii_string(v)
    }

    /// Appends the digits with `precision` fraction digits.
    fn push_display(&self, v: &mut Vec<u8>, precision: Option<usize>)
        ensures
            final(v)@ == old(v)@ + display_digits(
                self@.man,
                self@.scale,
                match precision {
                    Some(p) => p as nat,
                    None => self@.scale,
                },
                I::spec_max_scale(),
            ),
    {
        let (_, scale, uns) = self.unpack();
        proof {
            crate::lemma_fields_in_range(*self);
            I::lemma_shape(uns);
            lemma_pow10_values();
        }
        let precision = match precision {
            Some(p) => p,
            None => scale as usize,
        };
        if scale == 0 {
            push_digits(v, uns);
            if precision > 0 {
                // pad zeros and set point
                v.push(POINT);
                push_zeros(v, precision);
            }
            return;
        }
        let sc = scale as usize;
        if precision >= sc {
            push_with_point(v, uns, scale);
            let shown = if precision < I::max_scale() as usize {
                precision
            } else {
                I::max_scale() as usize
            };
            push_zeros(v, shown - sc);
        } else {
            let p = precision as u32;
            proof {
                crate::ops::lemma_sizes::<I>();
                lemma_pow10_mono((scale - p) as nat, I::spec_max_exp());
            }
            let uns = uns.div_exp(scale - p);
            if precision == 0 {
                push_digits(v, uns);
            } else {
                push_with_point(v, uns, p);
            }
        }
    }
}

/// What is shown is ASCII.
pub(crate) proof fn lemma_display_ascii(man: nat, scale: nat, precision: nat, max_scale: nat)
    ensures
        is_ascii_bytes(display_digits(man, scale, precision, max_scale)),
{
    assert forall|n: nat, w: nat| is_ascii_bytes(#[trigger] padded(n, w)) by {
        lemma_digits_ascii(n);
    }
    assert forall|q: nat, f: nat| is_ascii_bytes(#[trigger] with_point(q, f)) by {
        lemma_digits_ascii(q / pow10(f));
        lemma_digits_ascii(q % pow10(f));
        assert(is_ascii_bytes(padded(q % pow10(f), f)));
    }
    lemma_digits_ascii(man);
    lemma_digits_ascii(div_round(man, pow10((scale - precision) as nat)));
}

} // verus!
