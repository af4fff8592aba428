//! Decimal fractions, kept as their digits.
//!
//! A fraction is kept as an optional minus sign and digits around one
//! decimal point, in one form, whatever zeros, sign or exponent it was
//! written with: no zero in front of the integer digits and none behind the
//! fraction digits, but at least one digit on either side of the point. So
//! two fractions are equal exactly when they are the same number with the
//! same sign. The library never rounds a fraction to a binary float.

use vstd::prelude::*;
use vstd::slice::*;
use vstd::string::*;
use crate::literal::{is_float_literal, plain_form};
use crate::number::{all_digits, is_digit, DIGIT_ZERO, MINUS, POINT};
use crate::text::ascii_text;

verus! {

/// The first position from `from` on that holds a decimal point, or the end
/// of the text.
pub open spec fn point_from(t: Seq<u8>, from: int) -> int
    decreases t.len() - from,
{
    if 0 <= from < t.len() && t[from] != POINT {
        point_from(t, from + 1)
    } else {
        from
    }
}

/// The position of the first decimal point, or the length of a text without
/// one.
pub open spec fn point_at(t: Seq<u8>) -> int {
    point_from(t, 0)
}

/// Whether the text holds a decimal point.
pub open spec fn has_point(t: Seq<u8>) -> bool {
    point_at(t) < t.len()
}

/// The text without its first byte where that byte is a minus sign.
pub open spec fn after_minus(t: Seq<u8>) -> Seq<u8> {
    if t.len() > 0 && t[0] == MINUS {
        t.skip(1)
    } else {
        t
    }
}

/// The minus sign of a text that starts with one.
pub open spec fn minus_of(t: Seq<u8>) -> Seq<u8> {
    if t.len() > 0 && t[0] == MINUS {
        seq![MINUS]
    } else {
        Seq::empty()
    }
}

/// What stands in front of the first decimal point.
pub open spec fn integer_digits(body: Seq<u8>) -> Seq<u8> {
    body.take(point_at(body))
}

/// What stands behind the first decimal point.
pub open spec fn fraction_digits(body: Seq<u8>) -> Seq<u8> {
    body.skip(point_at(body) + 1)
}

/// Digits around one decimal point, at least one digit in all.
pub open spec fn is_unsigned_fraction(body: Seq<u8>) -> bool {
    &&& body.len() >= 2
    &&& has_point(body)
    &&& all_digits(integer_digits(body))
    &&& all_digits(fraction_digits(body))
}

/// A decimal fraction: an optional minus sign, then digits around one decimal
/// point, at least one digit in all.
pub open spec fn is_decimal_literal(t: Seq<u8>) -> bool {
    is_unsigned_fraction(after_minus(t))
}

/// The first position from `from` on that holds no zero, or the end of the
/// digits.
pub open spec fn leading_zeros(d: Seq<u8>, from: int) -> int
    decreases d.len() - from,
{
    if 0 <= from < d.len() && d[from] == DIGIT_ZERO {
        leading_zeros(d, from + 1)
    } else {
        from
    }
}

/// The position behind the last digit in front of `to` that is no zero, or
/// the start of the digits.
pub open spec fn trailing_zeros(d: Seq<u8>, to: int) -> int
    decreases to,
{
    if 0 < to <= d.len() && d[to - 1] == DIGIT_ZERO {
        trailing_zeros(d, to - 1)
    } else {
        to
    }
}

/// The digits, or one zero where there is none.
pub open spec fn or_zero(d: Seq<u8>) -> Seq<u8> {
    if d.len() == 0 {
        seq![DIGIT_ZERO]
    } else {
        d
    }
}

/// The integer digits without zeros in front, but at least one digit.
pub open spec fn trimmed_integer(d: Seq<u8>) -> Seq<u8> {
    or_zero(d.skip(leading_zeros(d, 0)))
}

/// The fraction digits without zeros behind, but at least one digit.
pub open spec fn trimmed_fraction(d: Seq<u8>) -> Seq<u8> {
    or_zero(d.take(trailing_zeros(d, d.len() as int)))
}

/// The one form in which a decimal fraction is kept: its sign, its integer
/// digits without zeros in front, the point, and its fraction digits without
/// zeros behind, with a zero where no digit is left.
pub open spec fn canonical(t: Seq<u8>) -> Seq<u8> {
    minus_of(t) + trimmed_integer(integer_digits(after_minus(t))) + seq![POINT] + trimmed_fraction(
        fraction_digits(after_minus(t)),
    )
}

/// A decimal fraction in the form in which it is kept.
pub open spec fn is_canonical(t: Seq<u8>) -> bool {
    is_decimal_literal(t) && canonical(t) == t
}

/// The characters of a decimal fraction in the form in which it is kept.
pub open spec fn is_decimal_text(c: Seq<char>) -> bool {
    exists|t: Seq<u8>| is_canonical(t) && c == ascii_text(t)
}

/// What the position of the point says of the text around it.
pub proof fn lemma_point_from(t: Seq<u8>, from: int)
    requires
        0 <= from <= t.len(),
    ensures
        from <= point_from(t, from) <= t.len(),
        forall|i: int| from <= i < point_from(t, from) ==> #[trigger] t[i] != POINT,
        point_from(t, from) < t.len() ==> t[point_from(t, from)] == POINT,
    decreases t.len() - from,
{
    if from < t.len() && t[from] != POINT {
        lemma_point_from(t, from + 1);
    }
}

/// Where the first point stands at `p`, that is its position.
pub proof fn lemma_point_is_at(t: Seq<u8>, p: int)
    requires
        0 <= p <= t.len(),
        forall|i: int| 0 <= i < p ==> #[trigger] t[i] != POINT,
        p < t.len() ==> t[p] == POINT,
    ensures
        point_at(t) == p,
{
    lemma_point_from(t, 0);
    let q = point_at(t);
    if q < p {
        assert(t[q] != POINT);
    } else if p < q {
        assert(t[p] != POINT);
    }
}

/// What the count of the zeros in front says of the digits.
pub proof fn lemma_leading_zeros(d: Seq<u8>, from: int)
    requires
        0 <= from <= d.len(),
    ensures
        from <= leading_zeros(d, from) <= d.len(),
        forall|i: int| from <= i < leading_zeros(d, from) ==> #[trigger] d[i] == DIGIT_ZERO,
        leading_zeros(d, from) < d.len() ==> d[leading_zeros(d, from)] != DIGIT_ZERO,
    decreases d.len() - from,
{
    if from < d.len() && d[from] == DIGIT_ZERO {
        lemma_leading_zeros(d, from + 1);
    }
}

/// What the count of the zeros behind says of the digits.
pub proof fn lemma_trailing_zeros(d: Seq<u8>, to: int)
    requires
        0 <= to <= d.len(),
    ensures
        0 <= trailing_zeros(d, to) <= to,
        forall|i: int| trailing_zeros(d, to) <= i < to ==> #[trigger] d[i] == DIGIT_ZERO,
        trailing_zeros(d, to) > 0 ==> d[trailing_zeros(d, to) - 1] != DIGIT_ZERO,
    decreases to,
{
    if 0 < to && d[to - 1] == DIGIT_ZERO {
        lemma_trailing_zeros(d, to - 1);
    }
}

/// Trimmed digits are digits, at least one, and trimming them again changes
/// nothing.
pub proof fn lemma_trimmed(d: Seq<u8>)
    requires
        all_digits(d),
    ensures
        all_digits(trimmed_integer(d)),
        trimmed_integer(d).len() >= 1,
        trimmed_integer(trimmed_integer(d)) == trimmed_integer(d),
        all_digits(trimmed_fraction(d)),
        trimmed_fraction(d).len() >= 1,
        trimmed_fraction(trimmed_fraction(d)) == trimmed_fraction(d),
{
    lemma_leading_zeros(d, 0);
    lemma_trailing_zeros(d, d.len() as int);
    let a = trimmed_integer(d);
    let k = leading_zeros(d, 0);
    assert(all_digits(a)) by {
        assert forall|i: int| 0 <= i < a.len() implies is_digit(#[trigger] a[i]) by {
            if k < d.len() {
                assert(a[i] == d[k + i]);
            }
        }
    }
    assert(trimmed_integer(a) == a) by {
        if k < d.len() {
            assert(a[0] == d[k]);
            assert(leading_zeros(a, 0) == 0);
            assert(a.skip(0) =~= a);
        } else {
            assert(a =~= seq![DIGIT_ZERO]);
            assert(leading_zeros(a, 1) == 1);
            assert(leading_zeros(a, 0) == 1);
            assert(a.skip(1) =~= Seq::<u8>::empty());
        }
    }
    let b = trimmed_fraction(d);
    let e = trailing_zeros(d, d.len() as int);
    assert(all_digits(b)) by {
        assert forall|i: int| 0 <= i < b.len() implies is_digit(#[trigger] b[i]) by {
            if e > 0 {
                assert(b[i] == d[i]);
            }
        }
    }
    assert(trimmed_fraction(b) == b) by {
        if e > 0 {
            assert(b[b.len() - 1] == d[e - 1]);
            assert(trailing_zeros(b, b.len() as int) == b.len());
            assert(b.take(b.len() as int) =~= b);
        } else {
            assert(b =~= seq![DIGIT_ZERO]);
            assert(trailing_zeros(b, 0) == 0);
            assert(trailing_zeros(b, 1) == 0);
            assert(b.take(0) =~= Seq::<u8>::empty());
        }
    }
}

/// What digits around a point are as a fraction.
pub proof fn lemma_fraction_parts(sign: Seq<u8>, int_part: Seq<u8>, frac_part: Seq<u8>)
    requires
        sign == Seq::<u8>::empty() || sign == seq![MINUS],
        all_digits(int_part),
        all_digits(frac_part),
        int_part.len() + frac_part.len() >= 1,
    ensures
        is_decimal_literal(sign + int_part + seq![POINT] + frac_part),
        minus_of(sign + int_part + seq![POINT] + frac_part) == sign,
        after_minus(sign + int_part + seq![POINT] + frac_part) == int_part + seq![POINT]
            + frac_part,
        integer_digits(int_part + seq![POINT] + frac_part) == int_part,
        fraction_digits(int_part + seq![POINT] + frac_part) == frac_part,
{
    let t = sign + int_part + seq![POINT] + frac_part;
    let body = int_part + seq![POINT] + frac_part;
    if sign.len() == 0 {
        assert(t =~= body);
        if int_part.len() > 0 {
            assert(is_digit(int_part[0]));
            assert(t[0] == int_part[0]);
        } else {
            assert(t[0] == POINT);
        }
    } else {
        assert(t[0] == MINUS);
        assert(t.skip(1) =~= body);
    }
    assert(after_minus(t) == body);
    assert forall|i: int| 0 <= i < int_part.len() implies #[trigger] body[i] != POINT by {
        assert(body[i] == int_part[i]);
        assert(is_digit(int_part[i]));
    }
    assert(body[int_part.len() as int] == POINT);
    lemma_point_is_at(body, int_part.len() as int);
    assert(body.take(int_part.len() as int) =~= int_part);
    assert(body.skip(int_part.len() as int + 1) =~= frac_part);
}

/// The kept form of a fraction is a fraction, and is kept as it is.
pub proof fn lemma_canonical(t: Seq<u8>)
    requires
        is_decimal_literal(t),
    ensures
        is_canonical(canonical(t)),
{
    let body = after_minus(t);
    let sign = minus_of(t);
    let i = trimmed_integer(integer_digits(body));
    let f = trimmed_fraction(fraction_digits(body));
    lemma_trimmed(integer_digits(body));
    lemma_trimmed(fraction_digits(body));
    lemma_fraction_parts(sign, i, f);
}

/// A fraction in its kept form starts with a digit or with a minus sign, and
/// is made of digits, one point and at most that one sign.
pub proof fn lemma_canonical_bytes(t: Seq<u8>)
    requires
        is_canonical(t),
    ensures
        t.len() >= 3,
        is_digit(t[0]) || t[0] == MINUS,
        has_point(t),
        forall|i: int| 0 <= i < t.len() ==> is_digit(#[trigger] t[i]) || t[i] == POINT || (i == 0
            && t[i] == MINUS),
{
    let body = after_minus(t);
    let sign = minus_of(t);
    let i = trimmed_integer(integer_digits(body));
    let f = trimmed_fraction(fraction_digits(body));
    lemma_trimmed(integer_digits(body));
    lemma_trimmed(fraction_digits(body));
    let u = sign + i + seq![POINT] + f;
    assert(t == u);
    assert forall|k: int| 0 <= k < t.len() implies is_digit(#[trigger] t[k]) || t[k] == POINT || (k
        == 0 && t[k] == MINUS) by {
        if k < sign.len() {
        } else if k < sign.len() + i.len() {
            assert(u[k] == i[k - sign.len()]);
        } else if k == sign.len() + i.len() {
        } else {
            assert(u[k] == f[k - sign.len() - i.len() - 1]);
        }
    }
    assert(is_digit(t[0]) || t[0] == MINUS) by {
        if sign.len() == 0 {
            assert(u[0] == i[0]);
        }
    }
    lemma_point_from(t, 0);
    assert(t[(sign.len() + i.len()) as int] == POINT);
    if point_at(t) >= t.len() {
        assert(t[(sign.len() + i.len()) as int] != POINT);
    }
}

/// A decimal fraction. Two fractions are equal when they are the same number
/// with the same sign, whatever zeros they were written with.
#[derive(Debug, Eq, Hash)]
pub struct Decimal {
    text: String,
}

impl View for Decimal {
    type V = Seq<char>;

    closed spec fn view(&self) -> Seq<char> {
        self.text@
    }
}

impl Clone for Decimal {
    fn clone(&self) -> (r: Decimal)
        ensures
            r@ == self@,
    {
        proof {
            use_type_invariant(self);
        }
        Decimal { text: self.text.clone() }
    }
}

/// Appends the characters of the ASCII bytes from `from` up to `to`.
fn push_ascii(out: &mut String, bytes: &[u8], from: usize, to: usize)
    requires
        from <= to <= bytes@.len(),
    ensures
        final(out)@ == old(out)@ + ascii_text(bytes@.subrange(from as int, to as int)),
{
    let mut i: usize = from;
    proof {
        assert(out@ =~= old(out)@ + ascii_text(bytes@.subrange(from as int, i as int)));
    }
    while i < to
        invariant
            from <= i <= to <= bytes@.len(),
            out@ == old(out)@ + ascii_text(bytes@.subrange(from as int, i as int)),
        decreases to - i,
    {
        out.push(bytes[i] as char);
        proof {
            assert(out@ =~= old(out)@ + ascii_text(bytes@.subrange(from as int, i + 1)));
        }
        i += 1;
    }
}

/// Whether the bytes from `from` up to `to` are decimal digits.
fn digits_between(bytes: &[u8], from: usize, to: usize) -> (r: bool)
    requires
        from <= to <= bytes@.len(),
    ensures
        r == all_digits(bytes@.subrange(from as int, to as int)),
{
    let mut i: usize = from;
    while i < to
        invariant
            from <= i <= to <= bytes@.len(),
            all_digits(bytes@.subrange(from as int, i as int)),
        decreases to - i,
    {
        let b = bytes[i];
        if b < 0x30 || b > 0x39 {
            proof {
                assert(bytes@.subrange(from as int, to as int)[i - from] == b);
            }
            return false;
        }
        proof {
            assert forall|k: int| 0 <= k < i + 1 - from implies is_digit(
                #[trigger] bytes@.subrange(from as int, i + 1)[k],
            ) by {
                if k < i - from {
                    assert(bytes@.subrange(from as int, i as int)[k] == bytes@[from + k]);
                }
            }
        }
        i += 1;
    }
    true
}

/// The position of the first decimal point from `from` on, or the length of
/// the text.
pub fn find_point(text: &[u8], from: usize) -> (r: usize)
    requires
        from <= text@.len(),
    ensures
        r == point_from(text@, from as int),
        from <= r <= text@.len(),
{
    let mut i: usize = from;
    while i < text.len()
        invariant
            from <= i <= text@.len(),
            point_from(text@, from as int) == point_from(text@, i as int),
        decreases text.len() - i,
    {
        if text[i] == POINT {
            return i;
        }
        i += 1;
    }
    i
}

impl Decimal {
    #[verifier::type_invariant]
    spec fn well_formed(self) -> bool {
        is_decimal_text(self.text@)
    }

    /// Reads a decimal fraction that is written without a plus sign and
    /// without an exponent, and brings it into the form in which it is kept;
    /// `None` where the text is no such fraction.
    pub fn from_plain(text: &[u8]) -> (r: Option<Decimal>)
        ensures
            r is Some <==> is_decimal_literal(text@),
            r matches Some(d) ==> d@ == ascii_text(canonical(text@)),
    {
        let negative = text.len() > 0 && text[0] == MINUS;
        let body = if negative {
            slice_subrange(text, 1, text.len())
        } else {
            text
        };
        proof {
            assert(body@ =~= after_minus(text@));
        }
        let p = find_point(body, 0);
        if body.len() < 2 || p >= body.len() {
            return None;
        }
        proof {
            assert(body@.take(p as int) =~= body@.subrange(0, p as int));
            assert(body@.skip(p + 1) =~= body@.subrange(p + 1, body@.len() as int));
        }
        if !digits_between(body, 0, p) || !digits_between(body, p + 1, body.len()) {
            return None;
        }
        let ghost int_part = integer_digits(body@);
        let ghost frac_part = fraction_digits(body@);
        proof {
            lemma_leading_zeros(int_part, 0);
            lemma_trailing_zeros(frac_part, frac_part.len() as int);
        }
        // the first integer digit that is kept
        let mut first: usize = 0;
        while first < p && body[first] == DIGIT_ZERO
            invariant
                first <= p < body@.len(),
                int_part == body@.take(p as int),
                leading_zeros(int_part, 0) == leading_zeros(int_part, first as int),
            decreases p - first,
        {
            proof {
                assert(int_part[first as int] == body@[first as int]);
            }
            first += 1;
        }
        // behind the last fraction digit that is kept
        let mut last: usize = body.len();
        while last > p + 1 && body[last - 1] == DIGIT_ZERO
            invariant
                p + 1 <= last <= body@.len(),
                frac_part == body@.skip(p + 1),
                trailing_zeros(frac_part, frac_part.len() as int) == trailing_zeros(
                    frac_part,
                    last - p - 1,
                ),
            decreases last,
        {
            proof {
                assert(frac_part[last - p - 2] == body@[last - 1]);
            }
            last -= 1;
        }
        proof {
            assert(first == leading_zeros(int_part, 0)) by {
                if first < p {
                    assert(int_part[first as int] == body@[first as int]);
                }
            }
            assert(last - p - 1 == trailing_zeros(frac_part, frac_part.len() as int)) by {
                if last > p + 1 {
                    assert(frac_part[last - p - 2] == body@[last - 1]);
                }
            }
        }
        let mut out = String::new();
        if negative {
            out.push('-');
        }
        if first == p {
            out.push('0');
        } else {
            push_ascii(&mut out, body, first, p);
        }
        out.push('.');
        if last == p + 1 {
            out.push('0');
        } else {
            push_ascii(&mut out, body, p + 1, last);
        }
        proof {
            let kept = canonical(text@);
            assert(trimmed_integer(int_part) =~= if first == p {
                seq![DIGIT_ZERO]
            } else {
                body@.subrange(first as int, p as int)
            });
            assert(trimmed_fraction(frac_part) =~= if last == p + 1 {
                seq![DIGIT_ZERO]
            } else {
                body@.subrange(p + 1, last as int)
            });
            assert(out@ =~= ascii_text(kept));
            lemma_canonical(text@);
        }
        Some(Decimal { text: out })
    }

    /// Reads a fraction, with or without an exponent, and brings it into the
    /// form in which it is kept; `None` where the text is no fraction.
    pub fn parse(text: &str) -> (r: Option<Decimal>)
        ensures
            r is Some <==> is_float_literal(text.spec_bytes()),
            r matches Some(d) ==> d@ == ascii_text(canonical(plain_form(text.spec_bytes()))),
    {
        Decimal::from_bytes(text.as_bytes())
    }

    /// The fraction in the form in which it is kept.
    pub fn as_str(&self) -> (r: &str)
        ensures
            r@ == self@,
            is_decimal_text(self@),
    {
        proof {
            use_type_invariant(self);
        }
        self.text.as_str()
    }
}

} // verus!
