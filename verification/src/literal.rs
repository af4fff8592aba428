//! The forms in which a fraction may be written: with a plus sign, and with
//! an exponent that shifts the decimal point.
//!
//! A literal is a sign, digits around one decimal point, and then, if it has
//! one, an `e` or `E`, a sign and the digits of the exponent. What is kept of
//! it is the same number written without plus sign and exponent.

use vstd::prelude::*;
use vstd::slice::*;
use crate::decimal::{
    after_minus, canonical, find_point, fraction_digits, has_point, integer_digits,
    is_decimal_literal, is_unsigned_fraction, lemma_fraction_parts, lemma_point_from, minus_of,
    point_at, Decimal,
};
use crate::number::{
    all_digits, decimal_value, digits_value, is_digit, only_digits, unsigned_part, DIGIT_ZERO,
    MINUS, PLUS, POINT,
};
use crate::text::ascii_text;

verus! {

/// The byte of `E`.
pub const UPPER_E: u8 = 0x45;

/// The byte of `e`.
pub const LOWER_E: u8 = 0x65;

/// The largest exponent, in magnitude, of a fraction that is kept: the point
/// is shifted by writing zeros, and more are not written.
pub const EXPONENT_LIMIT: u64 = 0xffff;

/// The first position from `from` on that holds an `e` or an `E`, or the end
/// of the text.
pub open spec fn mark_from(t: Seq<u8>, from: int) -> int
    decreases t.len() - from,
{
    if 0 <= from < t.len() && t[from] != LOWER_E && t[from] != UPPER_E {
        mark_from(t, from + 1)
    } else {
        from
    }
}

/// The position of the first `e` or `E`, or the length of a text without
/// one.
pub open spec fn mark_at(t: Seq<u8>) -> int {
    mark_from(t, 0)
}

/// What stands in front of the exponent: the sign and the digits around the
/// point.
pub open spec fn mantissa(t: Seq<u8>) -> Seq<u8> {
    t.take(mark_at(t))
}

/// What stands behind the `e` or `E`.
pub open spec fn exponent_text(t: Seq<u8>) -> Seq<u8> {
    t.skip(mark_at(t) + 1)
}

/// An exponent: an optional sign, then digits, at least one, that write at
/// most [`EXPONENT_LIMIT`].
pub open spec fn is_exponent(x: Seq<u8>) -> bool {
    &&& unsigned_part(x, true).len() >= 1
    &&& all_digits(unsigned_part(x, true))
    &&& decimal_value(unsigned_part(x, true)) <= EXPONENT_LIMIT
}

/// By how many places the exponent of the literal shifts the point to the
/// right; to the left where it is negative.
pub open spec fn shift_of(t: Seq<u8>) -> int {
    if mark_at(t) >= t.len() {
        0
    } else if exponent_text(t).len() > 0 && exponent_text(t)[0] == MINUS {
        -(decimal_value(unsigned_part(exponent_text(t), true)) as int)
    } else {
        decimal_value(unsigned_part(exponent_text(t), true)) as int
    }
}

/// A fraction as it may be written: an optional sign, digits around one
/// decimal point, at least one digit in all, and then nothing or an exponent.
pub open spec fn is_float_literal(t: Seq<u8>) -> bool {
    &&& is_unsigned_fraction(unsigned_part(mantissa(t), true))
    &&& mark_at(t) < t.len() ==> is_exponent(exponent_text(t))
}

/// `n` zeros; none where `n` is not positive.
pub open spec fn zeros(n: int) -> Seq<u8> {
    Seq::new(
        if n > 0 {
            n as nat
        } else {
            0nat
        },
        |i: int| DIGIT_ZERO,
    )
}

/// `n`, held between 0 and `len`.
pub open spec fn within(n: int, len: int) -> int {
    if n < 0 {
        0
    } else if n > len {
        len
    } else {
        n
    }
}

/// The integer digits after the point is shifted by `e` places: to the
/// right they take fraction digits along, and zeros where those run out; to
/// the left they lose their last digits to the fraction.
pub open spec fn shifted_integer(i: Seq<u8>, f: Seq<u8>, e: int) -> Seq<u8> {
    if e >= 0 {
        i + f.take(within(e, f.len() as int)) + zeros(e - f.len())
    } else {
        i.take(within(i.len() + e, i.len() as int))
    }
}

/// The fraction digits after the point is shifted by `e` places.
pub open spec fn shifted_fraction(i: Seq<u8>, f: Seq<u8>, e: int) -> Seq<u8> {
    if e >= 0 {
        f.skip(within(e, f.len() as int))
    } else {
        zeros(-e - i.len()) + i.skip(within(i.len() + e, i.len() as int)) + f
    }
}

/// The literal without plus sign and exponent: the same number, written as
/// a minus sign, where it has one, and digits around the shifted point.
pub open spec fn plain_form(t: Seq<u8>) -> Seq<u8> {
    minus_of(mantissa(t)) + shifted_integer(
        integer_digits(unsigned_part(mantissa(t), true)),
        fraction_digits(unsigned_part(mantissa(t), true)),
        shift_of(t),
    ) + seq![POINT] + shifted_fraction(
        integer_digits(unsigned_part(mantissa(t), true)),
        fraction_digits(unsigned_part(mantissa(t), true)),
        shift_of(t),
    )
}

/// What the position of the exponent mark says of the text around it.
pub proof fn lemma_mark_from(t: Seq<u8>, from: int)
    requires
        0 <= from <= t.len(),
    ensures
        from <= mark_from(t, from) <= t.len(),
        forall|i: int|
            from <= i < mark_from(t, from) ==> #[trigger] t[i] != LOWER_E && t[i] != UPPER_E,
        mark_from(t, from) < t.len() ==> t[mark_from(t, from)] == LOWER_E || t[mark_from(t, from)]
            == UPPER_E,
    decreases t.len() - from,
{
    if from < t.len() && t[from] != LOWER_E && t[from] != UPPER_E {
        lemma_mark_from(t, from + 1);
    }
}

/// Where the first `e` or `E` stands at `p`, that is the position of the
/// exponent mark.
pub proof fn lemma_mark_is_at(t: Seq<u8>, p: int)
    requires
        0 <= p < t.len(),
        forall|i: int| 0 <= i < p ==> #[trigger] t[i] != LOWER_E && t[i] != UPPER_E,
        t[p] == LOWER_E || t[p] == UPPER_E,
    ensures
        mark_at(t) == p,
{
    lemma_mark_from(t, 0);
    let q = mark_at(t);
    if q < p {
        assert(t[q] != LOWER_E && t[q] != UPPER_E);
    } else if p < q {
        assert(t[p] != LOWER_E && t[p] != UPPER_E);
    }
}

/// A text without an `e` and an `E` has no exponent mark.
pub proof fn lemma_no_mark(t: Seq<u8>, from: int)
    requires
        0 <= from <= t.len(),
        forall|i: int| from <= i < t.len() ==> #[trigger] t[i] != LOWER_E && t[i] != UPPER_E,
    ensures
        mark_from(t, from) == t.len(),
    decreases t.len() - from,
{
    if from < t.len() {
        assert(t[from] != LOWER_E && t[from] != UPPER_E);
        lemma_no_mark(t, from + 1);
    }
}

/// Digits stay digits where the point is shifted, and none is lost.
pub proof fn lemma_shifted(i: Seq<u8>, f: Seq<u8>, e: int)
    requires
        all_digits(i),
        all_digits(f),
    ensures
        all_digits(shifted_integer(i, f, e)),
        all_digits(shifted_fraction(i, f, e)),
        shifted_integer(i, f, e).len() + shifted_fraction(i, f, e).len() >= i.len() + f.len(),
{
    let a = shifted_integer(i, f, e);
    let b = shifted_fraction(i, f, e);
    assert forall|k: int| 0 <= k < a.len() implies is_digit(#[trigger] a[k]) by {
        if e >= 0 {
            let m = within(e, f.len() as int);
            if k < i.len() {
                assert(a[k] == i[k]);
            } else if k < i.len() + m {
                assert(a[k] == f[k - i.len()]);
            }
        } else {
            assert(a[k] == i[k]);
        }
    }
    assert forall|k: int| 0 <= k < b.len() implies is_digit(#[trigger] b[k]) by {
        if e >= 0 {
            let m = within(e, f.len() as int);
            assert(b[k] == f[k + m]);
        } else {
            let c = within(i.len() + e, i.len() as int);
            let z = zeros(-e - i.len());
            if k < z.len() {
            } else if k < z.len() + (i.len() - c) {
                assert(b[k] == i[c + (k - z.len())]);
            } else {
                assert(b[k] == f[k - z.len() - (i.len() - c)]);
            }
        }
    }
}

/// The plain form of a literal is a fraction without plus sign and exponent.
pub proof fn lemma_plain_form(t: Seq<u8>)
    requires
        is_float_literal(t),
    ensures
        is_decimal_literal(plain_form(t)),
{
    let body = unsigned_part(mantissa(t), true);
    let i = integer_digits(body);
    let f = fraction_digits(body);
    lemma_point_from(body, 0);
    lemma_shifted(i, f, shift_of(t));
    assert(i.len() + f.len() == body.len() - 1);
    lemma_fraction_parts(
        minus_of(mantissa(t)),
        shifted_integer(i, f, shift_of(t)),
        shifted_fraction(i, f, shift_of(t)),
    );
}

/// A fraction that is written without plus sign and exponent is a literal,
/// and is its own plain form.
pub proof fn lemma_plain_literal(t: Seq<u8>)
    requires
        is_decimal_literal(t),
    ensures
        is_float_literal(t),
        plain_form(t) == t,
{
    let body = after_minus(t);
    let p = point_at(body);
    lemma_point_from(body, 0);
    assert forall|k: int| 0 <= k < t.len() implies #[trigger] t[k] != LOWER_E && t[k] != UPPER_E
        && (k > 0 ==> t[k] != PLUS) && (t[k] == PLUS ==> false) by {
        let j = if t[0] == MINUS {
            k - 1
        } else {
            k
        };
        if j >= 0 {
            assert(body[j] == t[k]);
            if j < p {
                assert(integer_digits(body)[j] == body[j]);
                assert(is_digit(integer_digits(body)[j]));
            } else if j > p {
                assert(fraction_digits(body)[j - p - 1] == body[j]);
                assert(is_digit(fraction_digits(body)[j - p - 1]));
            }
        }
    }
    lemma_no_mark(t, 0);
    assert(mantissa(t) =~= t);
    assert(t[0] != PLUS);
    assert(unsigned_part(t, true) == body);
    let i = integer_digits(body);
    let f = fraction_digits(body);
    assert(shifted_integer(i, f, 0) =~= i);
    assert(shifted_fraction(i, f, 0) =~= f);
    assert(i + seq![POINT] + f =~= body);
    assert(minus_of(t) + body =~= t);
    assert(plain_form(t) =~= t);
}

/// Appends the bytes from `from` up to `to`.
fn push_range(out: &mut Vec<u8>, bytes: &[u8], from: usize, to: usize)
    requires
        from <= to <= bytes@.len(),
    ensures
        final(out)@ == old(out)@ + bytes@.subrange(from as int, to as int),
{
    let mut k: usize = from;
    proof {
        assert(out@ =~= old(out)@ + bytes@.subrange(from as int, k as int));
    }
    while k < to
        invariant
            from <= k <= to <= bytes@.len(),
            out@ == old(out)@ + bytes@.subrange(from as int, k as int),
        decreases to - k,
    {
        out.push(bytes[k]);
        proof {
            assert(out@ =~= old(out)@ + bytes@.subrange(from as int, k + 1));
        }
        k += 1;
    }
}

/// Appends `n` zeros.
fn push_zeros(out: &mut Vec<u8>, n: usize)
    ensures
        final(out)@ == old(out)@ + zeros(n as int),
{
    let mut k: usize = 0;
    proof {
        assert(out@ =~= old(out)@ + zeros(0));
    }
    while k < n
        invariant
            k <= n,
            out@ == old(out)@ + zeros(k as int),
        decreases n - k,
    {
        out.push(DIGIT_ZERO);
        proof {
            assert(out@ =~= old(out)@ + zeros(k + 1));
        }
        k += 1;
    }
}

/// The position of the first `e` or `E`, or the length of the text.
fn find_mark(text: &[u8]) -> (r: usize)
    ensures
        r == mark_at(text@),
        r <= text@.len(),
{
    let mut k: usize = 0;
    while k < text.len()
        invariant
            k <= text@.len(),
            mark_from(text@, 0) == mark_from(text@, k as int),
        decreases text.len() - k,
    {
        if text[k] == LOWER_E || text[k] == UPPER_E {
            return k;
        }
        k += 1;
    }
    k
}

/// The text without its first byte where that byte is a sign.
fn behind_sign(text: &[u8]) -> (r: &[u8])
    ensures
        r@ == unsigned_part(text@, true),
{
    if text.len() > 0 && (text[0] == PLUS || text[0] == MINUS) {
        let r = slice_subrange(text, 1, text.len());
        proof {
            assert(r@ =~= text@.skip(1));
        }
        r
    } else {
        text
    }
}

/// The magnitude of the exponent; `None` where the text is no exponent.
fn read_exponent(text: &[u8]) -> (r: Option<usize>)
    ensures
        r is Some <==> is_exponent(text@),
        r matches Some(v) ==> v == decimal_value(unsigned_part(text@, true)),
{
    let digits = behind_sign(text);
    if digits.len() == 0 || !only_digits(digits) {
        return None;
    }
    match digits_value(digits, EXPONENT_LIMIT) {
        Some(v) => Some(v as usize),
        None => None,
    }
}

/// Appends the digits of `body` around the point, shifted to the right by
/// `places`.
fn shift_right(out: &mut Vec<u8>, body: &[u8], p: usize, places: usize)
    requires
        p == point_at(body@),
        p < body@.len(),
    ensures
        final(out)@ == old(out)@ + shifted_integer(
            integer_digits(body@),
            fraction_digits(body@),
            places as int,
        ) + seq![POINT] + shifted_fraction(
            integer_digits(body@),
            fraction_digits(body@),
            places as int,
        ),
{
    let ghost i = integer_digits(body@);
    let ghost f = fraction_digits(body@);
    let frac_len = body.len() - p - 1;
    let taken = if places < frac_len {
        places
    } else {
        frac_len
    };
    push_range(out, body, 0, p);
    push_range(out, body, p + 1, p + 1 + taken);
    push_zeros(out, places - taken);
    let ghost front = out@;
    out.push(POINT);
    push_range(out, body, p + 1 + taken, body.len());
    proof {
        assert(body@.subrange(0, p as int) =~= i);
        assert(body@.subrange(p + 1, p + 1 + taken) =~= f.take(taken as int));
        assert(body@.subrange(p + 1 + taken, body@.len() as int) =~= f.skip(taken as int));
        assert(zeros(places - taken) =~= zeros(places - f.len()));
        assert(front =~= old(out)@ + shifted_integer(i, f, places as int));
        assert(final(out)@ =~= front + seq![POINT] + shifted_fraction(i, f, places as int));
    }
}

/// Appends the digits of `body` around the point, shifted to the left by
/// `places`.
fn shift_left(out: &mut Vec<u8>, body: &[u8], p: usize, places: usize)
    requires
        p == point_at(body@),
        p < body@.len(),
        places >= 1,
    ensures
        final(out)@ == old(out)@ + shifted_integer(
            integer_digits(body@),
            fraction_digits(body@),
            -(places as int),
        ) + seq![POINT] + shifted_fraction(
            integer_digits(body@),
            fraction_digits(body@),
            -(places as int),
        ),
{
    let ghost i = integer_digits(body@);
    let ghost f = fraction_digits(body@);
    let len = body.len();
    let kept = if places < p {
        p - places
    } else {
        0
    };
    let padding = if places > p {
        places - p
    } else {
        0
    };
    push_range(out, body, 0, kept);
    let ghost front = out@;
    out.push(POINT);
    push_zeros(out, padding);
    push_range(out, body, kept, p);
    push_range(out, body, p + 1, len);
    proof {
        assert(body@.subrange(0, kept as int) =~= i.take(kept as int));
        assert(body@.subrange(kept as int, p as int) =~= i.skip(kept as int));
        assert(body@.subrange(p + 1, body@.len() as int) =~= f);
        assert(zeros(padding as int) =~= zeros(places - i.len()));
        assert(front =~= old(out)@ + shifted_integer(i, f, -(places as int)));
        assert(final(out)@ =~= front + seq![POINT] + shifted_fraction(i, f, -(places as int)));
    }
}

impl Decimal {
    /// Reads a fraction, with or without an exponent, and brings it into the
    /// form in which it is kept; `None` where the text is no fraction.
    pub fn from_bytes(text: &[u8]) -> (r: Option<Decimal>)
        ensures
            r is Some <==> is_float_literal(text@),
            r matches Some(d) ==> d@ == ascii_text(canonical(plain_form(text@))),
    {
        let mark = find_mark(text);
        let head = slice_subrange(text, 0, mark);
        proof {
            assert(head@ =~= mantissa(text@));
        }
        let negative = head.len() > 0 && head[0] == MINUS;
        let body = behind_sign(head);
        let p = find_point(body, 0);
        if body.len() < 2 || p >= body.len() {
            return None;
        }
        proof {
            assert(body@.take(p as int) =~= body@.subrange(0, p as int));
            assert(body@.skip(p + 1) =~= body@.subrange(p + 1, body@.len() as int));
        }
        if !digits_in(body, 0, p) || !digits_in(body, p + 1, body.len()) {
            return None;
        }
        let mut left = false;
        let mut places: usize = 0;
        if mark < text.len() {
            let tail = slice_subrange(text, mark + 1, text.len());
            proof {
                assert(tail@ =~= exponent_text(text@));
            }
            match read_exponent(tail) {
                Some(v) => {
                    left = tail[0] == MINUS && v > 0;
                    places = v;
                },
                None => {
                    return None;
                },
            }
        }
        let mut out: Vec<u8> = Vec::new();
        if negative {
            out.push(MINUS);
        }
        proof {
            assert(out@ =~= minus_of(mantissa(text@)));
        }
        if left {
            shift_left(&mut out, body, p, places);
        } else {
            shift_right(&mut out, body, p, places);
        }
        proof {
            assert(out@ =~= plain_form(text@));
            lemma_plain_form(text@);
        }
        Decimal::from_plain(out.as_slice())
    }
}

/// Whether the bytes from `from` up to `to` are decimal digits.
fn digits_in(bytes: &[u8], from: usize, to: usize) -> (r: bool)
    requires
        from <= to <= bytes@.len(),
    ensures
        r == all_digits(bytes@.subrange(from as int, to as int)),
{
    only_digits(slice_subrange(bytes, from, to))
}

} // verus!
