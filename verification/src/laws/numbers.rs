//! Numbers: the digits that are written are the digits that are read.

use vstd::prelude::*;
use vstd::utf8::*;
use crate::decimal::{is_canonical, lemma_canonical_bytes, point_from};
use crate::error::{Error, IntErrorKind, ParseNumberError};
use crate::decimal::{fraction_digits, has_point, lemma_point_from, point_at};
use crate::literal::{
    exponent_text, lemma_mark_is_at, lemma_no_mark, lemma_plain_literal, mantissa, LOWER_E,
    UPPER_E,
};
use crate::grammar::{ends_number, is_number_byte, number_end, number_run_end, value_at, COMMA};
use crate::laws::standing::{lemma_stands_index, stands_at};
use crate::laws::trees::lemma_skip_to;
use crate::model::Json;
use crate::number::{
    digits_of, is_digit, is_numeral, lemma_digits_of, number_of, numeral_text, signed_of,
    unsigned_part, MINUS, Numeral, POINT,
};
use crate::text::{
    ascii_text, is_ascii_bytes, lemma_encode_ascii, lemma_encode_char, lemma_encode_concat,
};

verus! {

/// A text without a byte that is a point holds no point.
pub proof fn lemma_no_point(t: Seq<u8>, from: int)
    requires
        0 <= from <= t.len(),
        forall|i: int| from <= i < t.len() ==> #[trigger] t[i] != POINT,
    ensures
        point_from(t, from) == t.len(),
    decreases t.len() - from,
{
    if from < t.len() {
        assert(t[from] != POINT);
        lemma_no_point(t, from + 1);
    }
}

/// A run of number bytes ends in front of the first byte that is none.
pub proof fn lemma_run_stops(s: Seq<u8>, pos: int, stop: int)
    requires
        0 <= pos <= stop <= s.len(),
        forall|i: int| pos <= i < stop ==> is_number_byte(#[trigger] s[i]),
        stop < s.len() ==> !is_number_byte(s[stop]),
    ensures
        number_run_end(s, pos) == stop,
    decreases stop - pos,
{
    if pos < stop {
        assert(is_number_byte(s[pos]));
        lemma_run_stops(s, pos + 1, stop);
    }
}

/// A number that is read back: a value in the range of its variant or a
/// fraction in its kept form, and an integer in the variant in which a
/// literal of its sign is read.
pub open spec fn reads_back(n: Numeral) -> bool {
    is_numeral(n) && (n matches Numeral::Int(x) ==> x < 0)
}

/// The text of a number is a run of number bytes that starts with a digit or
/// a minus sign, and it is read as that number.
pub proof fn lemma_number_text(n: Numeral)
    requires
        reads_back(n),
    ensures
        encode_utf8(numeral_text(n)).len() >= 1,
        is_digit(encode_utf8(numeral_text(n))[0]) || encode_utf8(numeral_text(n))[0] == MINUS,
        forall|i: int|
            0 <= i < encode_utf8(numeral_text(n)).len() ==> is_number_byte(
                #[trigger] encode_utf8(numeral_text(n))[i],
            ),
        number_of(encode_utf8(numeral_text(n))) == Ok::<Numeral, ParseNumberError>(n),
{
    let s = encode_utf8(numeral_text(n));
    match n {
        Numeral::UInt(x) => {
            let d = digits_of(x as nat);
            lemma_digits_of(x as nat);
            assert(is_ascii_bytes(d)) by {
                assert forall|i: int| 0 <= i < d.len() implies #[trigger] d[i] < 0x80 by {
                    assert(is_digit(d[i]));
                }
            }
            lemma_encode_ascii(d);
            assert(s == d);
            assert(is_digit(s[0]));
            assert forall|i: int| 0 <= i < s.len() implies is_number_byte(#[trigger] s[i]) by {
                assert(is_digit(d[i]));
            }
            assert forall|i: int| 0 <= i < d.len() implies #[trigger] d[i] != POINT by {
                assert(is_digit(d[i]));
            }
            lemma_no_point(d, 0);
            assert(unsigned_part(d, false) == d);
            assert(number_of(d) == Ok::<Numeral, ParseNumberError>(n));
        },
        Numeral::Int(x) => {
            let d = digits_of((-x) as nat);
            lemma_digits_of((-x) as nat);
            assert(is_ascii_bytes(d)) by {
                assert forall|i: int| 0 <= i < d.len() implies #[trigger] d[i] < 0x80 by {
                    assert(is_digit(d[i]));
                }
            }
            lemma_encode_ascii(d);
            lemma_encode_concat(seq!['-'], ascii_text(d));
            lemma_encode_char('-');
            let m = seq![MINUS] + d;
            assert(s == m);
            assert(s[0] == MINUS);
            assert forall|i: int| 0 <= i < s.len() implies is_number_byte(#[trigger] s[i])
                && s[i] != POINT by {
                if i > 0 {
                    assert(s[i] == d[i - 1]);
                    assert(is_digit(d[i - 1]));
                }
            }
            lemma_no_point(m, 0);
            assert(unsigned_part(m, true) =~= d);
            assert(signed_of(m) == Ok::<i64, IntErrorKind>(x as i64));
            assert(number_of(m) == Ok::<Numeral, ParseNumberError>(n));
        },
        Numeral::Float(c) => {
            let t = choose|t: Seq<u8>| is_canonical(t) && c == ascii_text(t);
            lemma_canonical_bytes(t);
            assert(is_ascii_bytes(t)) by {
                assert forall|i: int| 0 <= i < t.len() implies #[trigger] t[i] < 0x80 by {
                    assert(is_digit(t[i]) || t[i] == POINT || t[i] == MINUS);
                }
            }
            lemma_encode_ascii(t);
            assert(s == t);
            assert forall|i: int| 0 <= i < s.len() implies is_number_byte(#[trigger] s[i]) by {
                assert(is_digit(t[i]) || t[i] == POINT || t[i] == MINUS);
            }
            lemma_plain_literal(t);
            assert(number_of(t) == Ok::<Numeral, ParseNumberError>(n));
        },
    }
}

/// A number is read back from its text where the text ends behind it, or
/// goes on with a byte in front of which a number ends; and also from a comma
/// in front of it.
pub proof fn lemma_number_reads_back(s: Seq<u8>, pos: int, n: Numeral)
    requires
        reads_back(n),
        stands_at(s, pos, encode_utf8(numeral_text(n))),
        pos + encode_utf8(numeral_text(n)).len() < s.len() ==> ends_number(
            s[pos + encode_utf8(numeral_text(n)).len()],
        ),
    ensures
        value_at(s, pos) == Ok::<(Json, int), Error>(
            (Json::Number(n), pos + encode_utf8(numeral_text(n)).len()),
        ),
        pos >= 1 && s[pos - 1] == COMMA ==> value_at(s, pos - 1) == Ok::<(Json, int), Error>(
            (Json::Number(n), pos + encode_utf8(numeral_text(n)).len()),
        ),
{
    let x = encode_utf8(numeral_text(n));
    let end = pos + x.len();
    lemma_number_text(n);
    lemma_stands_index(s, pos, x, 0);
    lemma_skip_to(s, pos);
    assert forall|i: int| pos <= i < end implies is_number_byte(#[trigger] s[i]) by {
        lemma_stands_index(s, pos, x, i - pos);
        assert(is_number_byte(x[i - pos]));
    }
    lemma_run_stops(s, pos, end);
    assert(number_end(s, pos) == end);
}

/// A run of number bytes with one other byte behind it is no number.
pub proof fn lemma_other_byte_spoils(t: Seq<u8>)
    requires
        t.len() >= 2,
        is_digit(t[0]) || t[0] == MINUS,
        forall|i: int| 0 <= i < t.len() - 1 ==> is_number_byte(#[trigger] t[i]),
        !is_number_byte(t[t.len() - 1]),
    ensures
        number_of(t) is Err,
{
    let last = t.len() - 1;
    let b = t[last];
    if has_point(t) {
        if b == LOWER_E || b == UPPER_E {
            assert forall|i: int| 0 <= i < last implies #[trigger] t[i] != LOWER_E && t[i]
                != UPPER_E by {
                assert(is_number_byte(t[i]));
            }
            lemma_mark_is_at(t, last);
            assert(exponent_text(t).len() == 0);
            assert(unsigned_part(exponent_text(t), true).len() == 0);
        } else {
            assert forall|i: int| 0 <= i < t.len() implies #[trigger] t[i] != LOWER_E && t[i]
                != UPPER_E by {
                if i < last {
                    assert(is_number_byte(t[i]));
                }
            }
            lemma_no_mark(t, 0);
            assert(mantissa(t) =~= t);
            let body = unsigned_part(t, true);
            assert(body.len() >= 1);
            assert(body[body.len() - 1] == b);
            lemma_point_from(body, 0);
            let q = point_at(body);
            if q < body.len() {
                let f = fraction_digits(body);
                assert(f[f.len() - 1] == b);
                assert(!is_digit(f[f.len() - 1]));
            }
        }
    } else if t[0] == MINUS {
        let digits = unsigned_part(t, true);
        assert(digits[digits.len() - 1] == b);
        assert(!is_digit(digits[digits.len() - 1]));
    } else {
        let digits = unsigned_part(t, false);
        assert(digits == t);
        assert(!is_digit(digits[last]));
    }
}

} // verus!
