//! Numbers: unsigned and signed 64-bit integers, and decimal fractions.
//!
//! A literal with a decimal point is a fraction, one that starts with a minus
//! sign is a signed integer, any other one is an unsigned integer. Integers
//! are read and written here; fractions and the forms in which they are
//! written have files of their own.

use vstd::prelude::*;
use vstd::slice::*;
use vstd::string::*;
use crate::decimal::{canonical, find_point, has_point, is_decimal_text, Decimal};
use crate::literal::{is_float_literal, plain_form};
use crate::error::{Error, IntErrorKind, ParseNumberError};
use crate::text::ascii_text;

verus! {

/// The byte of `+`.
pub const PLUS: u8 = 0x2b;

/// The byte of `-`.
pub const MINUS: u8 = 0x2d;

/// The byte of `.`.
pub const POINT: u8 = 0x2e;

/// The byte of `0`.
pub const DIGIT_ZERO: u8 = 0x30;

/// The largest magnitude of a negative `i64`.
pub const I64_MIN_MAGNITUDE: u64 = 0x8000_0000_0000_0000;

/// An ASCII decimal digit.
pub open spec fn is_digit(b: u8) -> bool {
    0x30 <= b <= 0x39
}

/// Every byte is a decimal digit.
pub open spec fn all_digits(t: Seq<u8>) -> bool {
    forall|i: int| 0 <= i < t.len() ==> is_digit(#[trigger] t[i])
}

/// The number that a run of decimal digits writes.
pub open spec fn decimal_value(t: Seq<u8>) -> nat
    decreases t.len(),
{
    if t.len() == 0 {
        0
    } else {
        decimal_value(t.drop_last()) * 10 + (t.last() - 0x30) as nat
    }
}

/// The text without its first byte where that byte is a sign.
pub open spec fn unsigned_part(t: Seq<u8>, minus_too: bool) -> Seq<u8> {
    if t.len() > 0 && (t[0] == PLUS || (minus_too && t[0] == MINUS)) {
        t.skip(1)
    } else {
        t
    }
}

/// What a text is as a `u64`: an optional plus sign, then decimal digits, at
/// least one, that write a value of the type.
pub open spec fn unsigned_of(t: Seq<u8>) -> Result<u64, IntErrorKind> {
    let digits = unsigned_part(t, false);
    if t.len() == 0 {
        Err(IntErrorKind::Empty)
    } else if digits.len() == 0 || !all_digits(digits) {
        Err(IntErrorKind::InvalidDigit)
    } else if decimal_value(digits) > u64::MAX {
        Err(IntErrorKind::PosOverflow)
    } else {
        Ok(decimal_value(digits) as u64)
    }
}

/// What a text is as an `i64`: an optional sign, then decimal digits, at least
/// one, that write a value of the type.
pub open spec fn signed_of(t: Seq<u8>) -> Result<i64, IntErrorKind> {
    let digits = unsigned_part(t, true);
    if t.len() == 0 {
        Err(IntErrorKind::Empty)
    } else if digits.len() == 0 || !all_digits(digits) {
        Err(IntErrorKind::InvalidDigit)
    } else if t[0] == MINUS {
        if decimal_value(digits) > I64_MIN_MAGNITUDE {
            Err(IntErrorKind::NegOverflow)
        } else {
            Ok((-(decimal_value(digits) as int)) as i64)
        }
    } else if decimal_value(digits) > i64::MAX {
        Err(IntErrorKind::PosOverflow)
    } else {
        Ok(decimal_value(digits) as i64)
    }
}

/// The mathematical content of a [`Number`]: the value of an integer, with
/// the variant that holds it, or the digits of a fraction.
pub enum Numeral {
    /// A value that a `u64` holds.
    UInt(int),
    /// A value that an `i64` holds.
    Int(int),
    /// The digits of a decimal fraction, in the form in which it is kept.
    Float(Seq<char>),
}

/// The value lies in the range of its variant, and a fraction is written as
/// one.
pub open spec fn is_numeral(n: Numeral) -> bool {
    match n {
        Numeral::UInt(x) => 0 <= x <= u64::MAX,
        Numeral::Int(x) => i64::MIN <= x <= i64::MAX,
        Numeral::Float(c) => is_decimal_text(c),
    }
}

/// What a text is as a number. The three cases are tried in this order: a
/// text that holds a decimal point is a fraction or nothing, one that starts
/// with a minus sign is a signed integer or nothing, any other one is an
/// unsigned integer or nothing.
pub open spec fn number_of(t: Seq<u8>) -> Result<Numeral, ParseNumberError> {
    if has_point(t) {
        if is_float_literal(t) {
            Ok(Numeral::Float(ascii_text(canonical(plain_form(t)))))
        } else {
            Err(ParseNumberError::ParseFloatError)
        }
    } else if t.len() > 0 && t[0] == MINUS {
        match signed_of(t) {
            Ok(v) => Ok(Numeral::Int(v as int)),
            Err(k) => Err(ParseNumberError::ParseIntError(k)),
        }
    } else {
        match unsigned_of(t) {
            Ok(v) => Ok(Numeral::UInt(v as int)),
            Err(k) => Err(ParseNumberError::ParseIntError(k)),
        }
    }
}

/// A digit more makes a number no smaller.
pub proof fn lemma_decimal_value_grows(t: Seq<u8>, n: int)
    requires
        0 <= n <= t.len(),
        all_digits(t),
    ensures
        decimal_value(t.take(n)) <= decimal_value(t),
    decreases t.len() - n,
{
    if n < t.len() {
        lemma_decimal_value_grows(t, n + 1);
        assert(t.take(n + 1).drop_last() =~= t.take(n));
        assert(is_digit(t[n]));
    } else {
        assert(t.take(n) =~= t);
    }
}

/// Whether all bytes of `text` are decimal digits.
pub fn only_digits(text: &[u8]) -> (r: bool)
    ensures
        r == all_digits(text@),
{
    let mut i: usize = 0;
    while i < text.len()
        invariant
            i <= text.len(),
            all_digits(text@.take(i as int)),
        decreases text.len() - i,
    {
        let b = text[i];
        if b < 0x30 || b > 0x39 {
            return false;
        }
        proof {
            assert forall|k: int| 0 <= k < i + 1 implies is_digit(#[trigger] text@.take(i + 1)[k]) by {
                if k < i {
                    assert(text@.take(i as int)[k] == text@[k]);
                }
            }
        }
        i += 1;
    }
    proof {
        assert(text@.take(i as int) =~= text@);
    }
    true
}

/// The value that decimal digits write, where it is at most `limit`.
pub fn digits_value(text: &[u8], limit: u64) -> (r: Option<u64>)
    requires
        all_digits(text@),
        limit >= 9,
    ensures
        r == if decimal_value(text@) <= limit {
            Some(decimal_value(text@) as u64)
        } else {
            None
        },
{
    let mut acc: u64 = 0;
    let mut i: usize = 0;
    while i < text.len()
        invariant
            i <= text.len(),
            all_digits(text@),
            limit >= 9,
            acc == decimal_value(text@.take(i as int)),
            acc <= limit,
        decreases text.len() - i,
    {
        let d: u64 = (text[i] - 0x30) as u64;
        proof {
            assert(is_digit(text@[i as int]));
            assert(text@.take(i + 1).drop_last() =~= text@.take(i as int));
            assert(decimal_value(text@.take(i + 1)) == acc * 10 + d);
        }
        if acc > (limit - d) / 10 {
            proof {
                assert(acc * 10 + d > limit) by (nonlinear_arith)
                    requires
                        acc > (limit - d) / 10,
                        d <= limit,
                ;
                lemma_decimal_value_grows(text@, i + 1);
            }
            return None;
        }
        proof {
            assert(acc * 10 + d <= limit) by (nonlinear_arith)
                requires
                    acc <= (limit - d) / 10,
                    d <= limit,
            ;
        }
        acc = acc * 10 + d;
        i += 1;
    }
    proof {
        assert(text@.take(i as int) =~= text@);
    }
    Some(acc)
}

/// Reads an unsigned integer: an optional plus sign, then decimal digits.
pub fn parse_unsigned(text: &[u8]) -> (r: Result<u64, IntErrorKind>)
    ensures
        r == unsigned_of(text@),
{
    if text.len() == 0 {
        return Err(IntErrorKind::Empty);
    }
    let digits = if text[0] == PLUS {
        slice_subrange(text, 1, text.len())
    } else {
        text
    };
    proof {
        assert(digits@ =~= unsigned_part(text@, false));
    }
    if digits.len() == 0 || !only_digits(digits) {
        return Err(IntErrorKind::InvalidDigit);
    }
    match digits_value(digits, u64::MAX) {
        Some(v) => Ok(v),
        None => Err(IntErrorKind::PosOverflow),
    }
}

/// Reads a signed integer: an optional sign, then decimal digits.
pub fn parse_signed(text: &[u8]) -> (r: Result<i64, IntErrorKind>)
    ensures
        r == signed_of(text@),
{
    if text.len() == 0 {
        return Err(IntErrorKind::Empty);
    }
    let negative = text[0] == MINUS;
    let digits = if text[0] == PLUS || negative {
        slice_subrange(text, 1, text.len())
    } else {
        text
    };
    proof {
        assert(digits@ =~= unsigned_part(text@, true));
    }
    if digits.len() == 0 || !only_digits(digits) {
        return Err(IntErrorKind::InvalidDigit);
    }
    if negative {
        match digits_value(digits, I64_MIN_MAGNITUDE) {
            Some(m) => if m == I64_MIN_MAGNITUDE {
                Ok(i64::MIN)
            } else {
                Ok(-(m as i64))
            },
            None => Err(IntErrorKind::NegOverflow),
        }
    } else {
        match digits_value(digits, 0x7fff_ffff_ffff_ffff) {
            Some(m) => Ok(m as i64),
            None => Err(IntErrorKind::PosOverflow),
        }
    }
}

/// A JSON number. Equality is by variant first: an unsigned `1` is not a
/// signed `1`, and neither is the fraction `1.0`. The order is by variant
/// first too, in the order in which the variants stand here.
#[derive(Debug, Eq, Hash)]
pub enum Number {
    /// An unsigned integer.
    UInt(u64),
    /// A signed integer.
    Int(i64),
    /// A decimal fraction.
    Float(Decimal),
}

impl View for Number {
    type V = Numeral;

    open spec fn view(&self) -> Numeral {
        match self {
            Number::UInt(x) => Numeral::UInt(*x as int),
            Number::Int(x) => Numeral::Int(*x as int),
            Number::Float(d) => Numeral::Float(d@),
        }
    }
}

impl Clone for Number {
    fn clone(&self) -> (r: Number)
        ensures
            r@ == self@,
    {
        match self {
            Number::UInt(x) => Number::UInt(*x),
            Number::Int(x) => Number::Int(*x),
            Number::Float(d) => Number::Float(d.clone()),
        }
    }
}

/// The digits that write a natural number, without leading zeros.
pub open spec fn digits_of(n: nat) -> Seq<u8>
    decreases n,
{
    if n < 10 {
        seq![(n + 0x30) as u8]
    } else {
        digits_of(n / 10).push((n % 10 + 0x30) as u8)
    }
}

/// The text of a number: the digits of an integer, behind a minus sign where
/// it is negative, and a fraction in the form in which it is kept.
pub open spec fn numeral_text(n: Numeral) -> Seq<char> {
    match n {
        Numeral::UInt(x) => ascii_text(digits_of(x as nat)),
        Numeral::Int(x) => if x < 0 {
            seq!['-'] + ascii_text(digits_of((-x) as nat))
        } else {
            ascii_text(digits_of(x as nat))
        },
        Numeral::Float(c) => c,
    }
}

/// The digits of a number are digits, and write that number.
pub proof fn lemma_digits_of(n: nat)
    ensures
        digits_of(n).len() >= 1,
        all_digits(digits_of(n)),
        decimal_value(digits_of(n)) == n,
    decreases n,
{
    if n < 10 {
        assert(digits_of(n).drop_last() =~= Seq::<u8>::empty());
        assert(decimal_value(digits_of(n).drop_last()) == 0);
    } else {
        lemma_digits_of(n / 10);
        let d = digits_of(n / 10);
        assert(d.push((n % 10 + 0x30) as u8).drop_last() =~= d);
    }
}

/// Appends the decimal digits of `n`.
fn push_digits(out: &mut String, n: u64)
    ensures
        final(out)@ == old(out)@ + ascii_text(digits_of(n as nat)),
    decreases n,
{
    if n >= 10 {
        push_digits(out, n / 10);
    }
    let d: u8 = (n % 10) as u8 + 0x30;
    out.push(d as char);
    proof {
        if n >= 10 {
            assert(ascii_text(digits_of(n as nat)) =~= ascii_text(digits_of((n / 10) as nat)).push(
                d as char,
            ));
            assert(final(out)@ =~= old(out)@ + ascii_text(digits_of(n as nat)));
        } else {
            assert(ascii_text(digits_of(n as nat)) =~= seq![d as char]);
            assert(final(out)@ =~= old(out)@ + ascii_text(digits_of(n as nat)));
        }
    }
}

impl Number {
    /// Reads a number from the bytes of its literal.
    pub fn from_bytes(text: &[u8]) -> (r: Result<Number, ParseNumberError>)
        ensures
            match r {
                Ok(n) => number_of(text@) == Ok::<Numeral, ParseNumberError>(n@),
                Err(e) => number_of(text@) == Err::<Numeral, ParseNumberError>(e),
            },
    {
        if find_point(text, 0) < text.len() {
            match Decimal::from_bytes(text) {
                Some(d) => Ok(Number::Float(d)),
                None => Err(ParseNumberError::ParseFloatError),
            }
        } else if text.len() > 0 && text[0] == MINUS {
            match parse_signed(text) {
                Ok(v) => Ok(Number::Int(v)),
                Err(k) => Err(ParseNumberError::ParseIntError(k)),
            }
        } else {
            match parse_unsigned(text) {
                Ok(v) => Ok(Number::UInt(v)),
                Err(k) => Err(ParseNumberError::ParseIntError(k)),
            }
        }
    }

    /// Reads a number from its literal.
    pub fn from_str(s: &str) -> (r: Result<Number, Error>)
        ensures
            match r {
                Ok(n) => number_of(s.spec_bytes()) == Ok::<Numeral, ParseNumberError>(n@),
                Err(e) => number_of(s.spec_bytes()) matches Err(k) && e == Error::InvalidNumber(k),
            },
    {
        match Number::from_bytes(s.as_bytes()) {
            Ok(n) => Ok(n),
            Err(k) => Err(Error::InvalidNumber(k)),
        }
    }

    /// Appends the text of the number.
    pub fn write_to(&self, out: &mut String)
        ensures
            final(out)@ == old(out)@ + numeral_text(self@),
            is_numeral(self@),
    {
        match self {
            Number::UInt(x) => push_digits(out, *x),
            Number::Int(x) => {
                if *x < 0 {
                    out.push('-');
                    let magnitude: u64 = if *x == i64::MIN {
                        I64_MIN_MAGNITUDE
                    } else {
                        (-*x) as u64
                    };
                    push_digits(out, magnitude);
                    proof {
                        assert(final(out)@ =~= old(out)@ + numeral_text(self@));
                    }
                } else {
                    push_digits(out, *x as u64);
                }
            },
            Number::Float(d) => {
                out.append(d.as_str());
            },
        }
    }

    /// The text of the number.
    pub fn to_string(&self) -> (r: String)
        ensures
            r@ == numeral_text(self@),
            is_numeral(self@),
    {
        let mut out = String::new();
        self.write_to(&mut out);
        proof {
            assert(out@ =~= numeral_text(self@));
        }
        out
    }
}

impl std::str::FromStr for Number {
    type Err = Error;

    /// Reads a number from its literal, as [`Number::from_str`] does.
    fn from_str(s: &str) -> (r: Result<Number, Error>)
        ensures
            match r {
                Ok(n) => number_of(s.spec_bytes()) == Ok::<Numeral, ParseNumberError>(n@),
                Err(e) => number_of(s.spec_bytes()) matches Err(k) && e == Error::InvalidNumber(k),
            },
    {
        Number::from_str(s)
    }
}

} // verus!
