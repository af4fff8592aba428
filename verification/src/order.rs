//! Equality and order of numbers. Two numbers are equal when they are of one
//! variant and hold the same value. The order is by variant first, unsigned
//! integers in front of signed ones and those in front of fractions, then by
//! value.

use std::cmp::Ordering;
use vstd::prelude::*;
use vstd::slice::*;
use vstd::string::*;
use vstd::utf8::*;
use crate::decimal::{
    after_minus, find_point, fraction_digits, has_point, integer_digits, is_canonical,
    is_decimal_text, lemma_canonical_bytes, Decimal,
};
use crate::number::{is_digit, Number, Numeral, MINUS, POINT};
use crate::text::{
    ascii_text, bytes_lt, compare_bytes, is_ascii_bytes, lemma_bytes_lt_irreflexive,
    lemma_bytes_lt_total, lemma_bytes_lt_transitive, lemma_encode_ascii, Order,
};

verus! {

/// How one text stands to another, byte by byte.
pub open spec fn bytes_order(a: Seq<u8>, b: Seq<u8>) -> Order {
    if bytes_lt(a, b) {
        Order::Less
    } else if a == b {
        Order::Equal
    } else {
        Order::Greater
    }
}

/// How one integer stands to another.
pub open spec fn int_order(a: int, b: int) -> Order {
    if a < b {
        Order::Less
    } else if a == b {
        Order::Equal
    } else {
        Order::Greater
    }
}

/// The order seen from the other side.
pub open spec fn reversed(o: Order) -> Order {
    match o {
        Order::Less => Order::Greater,
        Order::Equal => Order::Equal,
        Order::Greater => Order::Less,
    }
}

/// How one fraction without sign stands to another, both in their kept form:
/// the one with fewer integer digits is smaller; with as many, the integer
/// digits decide, compared from the front, and where they are the same the
/// fraction digits do.
pub open spec fn magnitude_order(a: Seq<u8>, b: Seq<u8>) -> Order {
    if integer_digits(a).len() != integer_digits(b).len() {
        int_order(integer_digits(a).len() as int, integer_digits(b).len() as int)
    } else if integer_digits(a) != integer_digits(b) {
        bytes_order(integer_digits(a), integer_digits(b))
    } else {
        bytes_order(fraction_digits(a), fraction_digits(b))
    }
}

/// Whether the text starts with a minus sign.
pub open spec fn is_negative(t: Seq<u8>) -> bool {
    t.len() > 0 && t[0] == MINUS
}

/// How one fraction stands to another, both in their kept form: a negative
/// one is below one that is not; two that are not negative stand as their
/// magnitudes do, two negative ones the other way round.
pub open spec fn decimal_order(a: Seq<u8>, b: Seq<u8>) -> Order {
    if is_negative(a) != is_negative(b) {
        if is_negative(a) {
            Order::Less
        } else {
            Order::Greater
        }
    } else if is_negative(a) {
        reversed(magnitude_order(after_minus(a), after_minus(b)))
    } else {
        magnitude_order(a, b)
    }
}

/// The place of a variant among the variants.
pub open spec fn variant_rank(n: Numeral) -> int {
    match n {
        Numeral::UInt(_) => 0,
        Numeral::Int(_) => 1,
        Numeral::Float(_) => 2,
    }
}

/// How one number stands to another: by variant first, then by value.
pub open spec fn number_order(a: Numeral, b: Numeral) -> Order {
    match (a, b) {
        (Numeral::UInt(x), Numeral::UInt(y)) => int_order(x, y),
        (Numeral::Int(x), Numeral::Int(y)) => int_order(x, y),
        (Numeral::Float(c), Numeral::Float(d)) => decimal_order(encode_utf8(c), encode_utf8(d)),
        _ => int_order(variant_rank(a), variant_rank(b)),
    }
}

/// The bytes of a fraction in its kept form are that form.
pub proof fn lemma_decimal_bytes(c: Seq<char>)
    requires
        is_decimal_text(c),
    ensures
        is_canonical(encode_utf8(c)),
        c == ascii_text(encode_utf8(c)),
{
    let t = choose|t: Seq<u8>| is_canonical(t) && c == ascii_text(t);
    lemma_canonical_bytes(t);
    assert(is_ascii_bytes(t)) by {
        assert forall|i: int| 0 <= i < t.len() implies #[trigger] t[i] < 0x80 by {
            assert(is_digit(t[i]) || t[i] == POINT || t[i] == MINUS);
        }
    }
    lemma_encode_ascii(t);
}

/// Two fractions in their kept form stand equal exactly when they are the
/// same.
pub proof fn lemma_decimal_order_equal(a: Seq<u8>, b: Seq<u8>)
    requires
        is_canonical(a),
        is_canonical(b),
    ensures
        decimal_order(a, b) is Equal <==> a == b,
{
    lemma_bytes_lt_irreflexive(integer_digits(after_minus(a)));
    lemma_bytes_lt_irreflexive(fraction_digits(after_minus(a)));
    lemma_bytes_lt_irreflexive(integer_digits(a));
    lemma_bytes_lt_irreflexive(fraction_digits(a));
    if is_negative(a) == is_negative(b) && !is_negative(a) {
        assert(after_minus(a) == a);
        assert(after_minus(b) == b);
    }
}

/// Seen from the other side, two texts stand the other way round.
pub proof fn lemma_bytes_order_reversed(a: Seq<u8>, b: Seq<u8>)
    ensures
        bytes_order(b, a) == reversed(bytes_order(a, b)),
{
    lemma_bytes_lt_total(a, b);
    lemma_bytes_lt_irreflexive(a);
    if bytes_lt(a, b) && bytes_lt(b, a) {
        lemma_bytes_lt_transitive(a, b, a);
    }
}

/// Seen from the other side, two numbers stand the other way round: the
/// order never puts each of two numbers below the other.
pub proof fn law_number_order_reversed(a: Numeral, b: Numeral)
    ensures
        number_order(b, a) == reversed(number_order(a, b)),
{
    match (a, b) {
        (Numeral::Float(c), Numeral::Float(d)) => {
            let x = encode_utf8(c);
            let y = encode_utf8(d);
            lemma_bytes_order_reversed(integer_digits(x), integer_digits(y));
            lemma_bytes_order_reversed(fraction_digits(x), fraction_digits(y));
            lemma_bytes_order_reversed(
                integer_digits(after_minus(x)),
                integer_digits(after_minus(y)),
            );
            lemma_bytes_order_reversed(
                fraction_digits(after_minus(x)),
                fraction_digits(after_minus(y)),
            );
        },
        _ => {},
    }
}

/// How one text stands to another, byte by byte.
fn order_of_bytes(a: &[u8], b: &[u8]) -> (r: Order)
    ensures
        r == bytes_order(a@, b@),
{
    compare_bytes(a, b)
}

/// How one fraction without sign stands to another.
fn order_of_magnitudes(a: &[u8], b: &[u8]) -> (r: Order)
    requires
        has_point(a@),
        has_point(b@),
    ensures
        r == magnitude_order(a@, b@),
{
    let pa = find_point(a, 0);
    let pb = find_point(b, 0);
    assert(pa < a.len() && pb < b.len());
    proof {
        assert(integer_digits(a@).len() == pa);
        assert(integer_digits(b@).len() == pb);
        lemma_bytes_lt_irreflexive(integer_digits(a@));
        assert(a@.take(pa as int) =~= a@.subrange(0, pa as int));
        assert(b@.take(pb as int) =~= b@.subrange(0, pb as int));
        assert(a@.skip(pa + 1) =~= a@.subrange(pa + 1, a@.len() as int));
        assert(b@.skip(pb + 1) =~= b@.subrange(pb + 1, b@.len() as int));
    }
    if pa < pb {
        Order::Less
    } else if pa > pb {
        Order::Greater
    } else {
        match order_of_bytes(slice_subrange(a, 0, pa), slice_subrange(b, 0, pb)) {
            Order::Equal => order_of_bytes(
                slice_subrange(a, pa + 1, a.len()),
                slice_subrange(b, pb + 1, b.len()),
            ),
            other => other,
        }
    }
}

/// How one fraction stands to another.
pub fn compare_decimals(a: &Decimal, b: &Decimal) -> (r: Order)
    ensures
        r == decimal_order(encode_utf8(a@), encode_utf8(b@)),
        r is Equal <==> a@ == b@,
{
    let x = a.as_str().as_bytes();
    let y = b.as_str().as_bytes();
    proof {
        lemma_decimal_bytes(a@);
        lemma_decimal_bytes(b@);
        lemma_canonical_bytes(x@);
        lemma_canonical_bytes(y@);
        lemma_decimal_order_equal(x@, y@);
    }
    let negative = x[0] == MINUS;
    if negative != (y[0] == MINUS) {
        return if negative {
            Order::Less
        } else {
            Order::Greater
        };
    }
    if negative {
        let p = slice_subrange(x, 1, x.len());
        let q = slice_subrange(y, 1, y.len());
        proof {
            assert(p@ =~= after_minus(x@));
            assert(q@ =~= after_minus(y@));
            lemma_point_behind_minus(x@);
            lemma_point_behind_minus(y@);
        }
        match order_of_magnitudes(p, q) {
            Order::Less => Order::Greater,
            Order::Equal => Order::Equal,
            Order::Greater => Order::Less,
        }
    } else {
        order_of_magnitudes(x, y)
    }
}

/// A fraction with a minus sign has its point behind the sign.
pub proof fn lemma_point_behind_minus(t: Seq<u8>)
    requires
        is_canonical(t),
    ensures
        has_point(after_minus(t)),
{
}

/// How one number stands to another.
pub fn compare_numbers(a: &Number, b: &Number) -> (r: Order)
    ensures
        r == number_order(a@, b@),
{
    match (a, b) {
        (Number::UInt(x), Number::UInt(y)) => {
            if *x < *y {
                Order::Less
            } else if *x == *y {
                Order::Equal
            } else {
                Order::Greater
            }
        },
        (Number::Int(x), Number::Int(y)) => {
            if *x < *y {
                Order::Less
            } else if *x == *y {
                Order::Equal
            } else {
                Order::Greater
            }
        },
        (Number::Float(x), Number::Float(y)) => compare_decimals(x, y),
        (Number::UInt(_), _) => Order::Less,
        (Number::Int(_), Number::UInt(_)) => Order::Greater,
        (Number::Int(_), Number::Float(_)) => Order::Less,
        (Number::Float(_), _) => Order::Greater,
    }
}

/// The standard value for a place in the order.
pub open spec fn ordering_of(o: Order) -> Ordering {
    match o {
        Order::Less => Ordering::Less,
        Order::Equal => Ordering::Equal,
        Order::Greater => Ordering::Greater,
    }
}

/// The standard value for a place in the order.
pub fn to_ordering(o: Order) -> (r: Ordering)
    ensures
        r == ordering_of(o),
{
    match o {
        Order::Less => Ordering::Less,
        Order::Equal => Ordering::Equal,
        Order::Greater => Ordering::Greater,
    }
}

impl PartialOrd for Decimal {
    fn partial_cmp(&self, other: &Decimal) -> (r: Option<Ordering>) {
        Some(to_ordering(compare_decimals(self, other)))
    }
}

impl vstd::std_specs::cmp::PartialOrdSpecImpl for Decimal {
    open spec fn obeys_partial_cmp_spec() -> bool {
        true
    }

    open spec fn partial_cmp_spec(&self, other: &Decimal) -> Option<Ordering> {
        Some(ordering_of(decimal_order(encode_utf8(self@), encode_utf8(other@))))
    }
}

impl PartialEq for Decimal {
    /// Two fractions are equal when they are the same number with the same
    /// sign.
    fn eq(&self, other: &Decimal) -> (r: bool) {
        matches!(compare_decimals(self, other), Order::Equal)
    }
}

impl vstd::std_specs::cmp::PartialEqSpecImpl for Decimal {
    open spec fn obeys_eq_spec() -> bool {
        true
    }

    open spec fn eq_spec(&self, other: &Decimal) -> bool {
        self@ == other@
    }
}

impl PartialEq for Number {
    /// Two numbers are equal when they are of one variant and hold the same
    /// value: the same integer, or the same fraction with the same sign.
    fn eq(&self, other: &Number) -> (r: bool) {
        match (self, other) {
            (Number::UInt(x), Number::UInt(y)) => *x == *y,
            (Number::Int(x), Number::Int(y)) => *x == *y,
            (Number::Float(x), Number::Float(y)) => matches!(compare_decimals(x, y), Order::Equal),
            _ => false,
        }
    }
}

impl vstd::std_specs::cmp::PartialEqSpecImpl for Number {
    open spec fn obeys_eq_spec() -> bool {
        true
    }

    open spec fn eq_spec(&self, other: &Number) -> bool {
        self@ == other@
    }
}

impl PartialOrd for Number {
    fn partial_cmp(&self, other: &Number) -> (r: Option<Ordering>) {
        Some(to_ordering(compare_numbers(self, other)))
    }
}

impl vstd::std_specs::cmp::PartialOrdSpecImpl for Number {
    open spec fn obeys_partial_cmp_spec() -> bool {
        true
    }

    open spec fn partial_cmp_spec(&self, other: &Number) -> Option<Ordering> {
        Some(ordering_of(number_order(self@, other@)))
    }
}

} // verus!
