//! What holds of the parser and the serializer together, and of objects.
//!
//! The statements stand in this file, each in a function whose name starts
//! with `law_`; the files beside it hold the steps that lead to them.

use vstd::prelude::*;
use vstd::utf8::*;
use crate::error::Error;
use crate::grammar::{
    ends_number, is_number_byte, lemma_literal_truncated, lemma_matching_close,
    lemma_number_run_end, lemma_skip_whitespace, matching_close, number_run_end, object_at,
    skip_whitespace, step_past, value_at, word_alse, word_null, word_rue, CLOSE_BRACE,
    CLOSE_BRACKET, LETTER_F, LETTER_N, LETTER_T, OPEN_BRACE, OPEN_BRACKET,
};
use crate::laws::brackets::{lemma_net_concat, lemma_never_closes, net};
use crate::laws::keys::lemma_value_well_formed;
use crate::laws::members::{
    last_under, lemma_members_follow_text, lemma_put_all, members_listed, put_all,
};
use crate::laws::numbers::{lemma_other_byte_spoils, reads_back};
use crate::laws::trees::lemma_reads_back;
use crate::model::{
    is_sorted, lemma_place, lemma_put, lemma_put_other, lookup, put, well_formed, Json, Members,
};
use crate::number::{is_digit, MINUS};
use crate::render::render;

pub mod brackets;
pub mod keys;
pub mod members;
pub mod numbers;
pub mod standing;
pub mod strings;
pub mod trees;

verus! {

/// A bracket that the search for the end of a container counts: a square
/// bracket where the character stands in an array, a brace where it stands
/// in an object, at whatever depth.
pub open spec fn is_counted(c: char, in_array: bool, in_object: bool) -> bool {
    (in_array && (c == '[' || c == ']')) || (in_object && (c == '{' || c == '}'))
}

/// No bracket that is counted stands in the text.
pub open spec fn bracket_free(t: Seq<char>, in_array: bool, in_object: bool) -> bool {
    forall|i: int| 0 <= i < t.len() ==> !is_counted(#[trigger] t[i], in_array, in_object)
}

/// The bytes of the text of a tree.
pub open spec fn bytes_of(j: Json) -> Seq<u8> {
    encode_utf8(render(j))
}

/// A tree that is read back where it stands, in an array or not, in an
/// object or not: its numbers are read back, the keys of its objects ascend,
/// and none of its strings and keys holds a bracket that is counted against
/// a container around it.
pub open spec fn nestable(j: Json, in_array: bool, in_object: bool) -> bool
    decreases j,
{
    match j {
        Json::Null => true,
        Json::Bool(_) => true,
        Json::Number(n) => reads_back(n),
        Json::String(t) => bracket_free(t, in_array, in_object),
        Json::Array(items) => forall|i: int|
            0 <= i < items.len() ==> nestable(#[trigger] items[i], true, in_object),
        Json::Object(m) => is_sorted(m) && forall|i: int|
            0 <= i < m.len() ==> bracket_free((#[trigger] m[i]).0, in_array, true) && nestable(
                m[i].1,
                in_array,
                true,
            ),
    }
}

/// A tree that is read back from its own text:
/// - every number in it lies in the range of its variant or is a fraction in
///   its kept form, and every signed integer in it is negative (one that is
///   not is written without a sign and read as an unsigned integer);
/// - the keys of every object in it ascend;
/// - no string or key that stands in an array holds a square bracket, and
///   none that stands in an object holds a brace.
pub open spec fn round_trips(j: Json) -> bool {
    nestable(j, false, false)
}

/// Parsing the text of a tree gives the tree back, and reads the text to its
/// end.
pub proof fn law_round_trip(j: Json)
    requires
        round_trips(j),
    ensures
        value_at(bytes_of(j), 0) == Ok::<(Json, int), Error>((j, bytes_of(j).len() as int)),
{
    let s = bytes_of(j);
    assert(s.subrange(0, s.len() as int) =~= s);
    lemma_reads_back(s, 0, j, false, false);
}

/// Of two members with one key the later one stays: putting a second value
/// under a key leaves the members as if the first had never been put.
pub proof fn law_later_member_wins(m: Members, k: Seq<char>, first: Json, second: Json)
    requires
        is_sorted(m),
    ensures
        lookup(put(put(m, k, first), k, second), k) == Some(second),
        put(put(m, k, first), k, second) == put(m, k, second),
        forall|other: Seq<char>|
            other != k ==> lookup(put(put(m, k, first), k, second), other) == lookup(m, other),
{
    lemma_put(m, k, first);
    let once = put(m, k, first);
    lemma_put(once, k, second);
    lemma_put(m, k, second);
    lemma_place(m, k);
    lemma_place(once, k);
    assert(put(once, k, second) =~= put(m, k, second));
    assert forall|other: Seq<char>| other != k implies lookup(put(once, k, second), other)
        == lookup(m, other) by {
        lemma_put_other(m, k, first, other);
        lemma_put_other(once, k, second, other);
    }
}

/// An object is what its text holds, member by member: under every key
/// stands the value of the last member that the text holds under it, each
/// key stands once, and the first failure among the members is the failure
/// of the object.
pub proof fn law_last_member_in_the_text_stays(s: Seq<u8>, pos: int)
    requires
        0 <= pos < s.len(),
        matching_close(s, pos + 1, 1, OPEN_BRACE, CLOSE_BRACE) is Some,
    ensures
        match members_listed(
            s,
            pos + 1,
            matching_close(s, pos + 1, 1, OPEN_BRACE, CLOSE_BRACE)->0,
            Members::empty(),
        ) {
            Ok((list, end)) => {
                &&& object_at(s, pos) == Ok::<(Json, int), Error>(
                    (Json::Object(put_all(Members::empty(), list, list.len() as int)), step_past(s, end)),
                )
                &&& is_sorted(put_all(Members::empty(), list, list.len() as int))
                &&& forall|k: Seq<char>|
                    #[trigger] lookup(put_all(Members::empty(), list, list.len() as int), k)
                        == last_under(list, k, list.len() as int)
            },
            Err(e) => object_at(s, pos) == Err::<(Json, int), Error>(e),
        },
{
    let close = matching_close(s, pos + 1, 1, OPEN_BRACE, CLOSE_BRACE)->0;
    lemma_matching_close(s, pos + 1, 1, OPEN_BRACE, CLOSE_BRACE);
    let none = Members::empty();
    lemma_members_follow_text(s, pos + 1, close, none, none);
    match members_listed(s, pos + 1, close, none) {
        Ok((list, end)) => {
            assert forall|k: Seq<char>|
                #[trigger] lookup(put_all(none, list, list.len() as int), k) == last_under(
                    list,
                    k,
                    list.len() as int,
                ) by {
                lemma_put_all(none, list, list.len() as int, k);
            }
            lemma_put_all(none, list, list.len() as int, Seq::<char>::empty());
        },
        _ => {},
    }
}

/// A container that is not closed fails at the end of the text, however deep
/// it stands: where no bracket matches the one that opens an array, or no
/// brace the one that opens an object, the text has ended unexpectedly.
pub proof fn law_unclosed_container(s: Seq<u8>, pos: int)
    requires
        0 <= pos <= s.len(),
        0 < s.len() <= usize::MAX,
        (s[skip_whitespace(s, pos)] == OPEN_BRACKET && matching_close(
            s,
            skip_whitespace(s, pos) + 1,
            1,
            OPEN_BRACKET,
            CLOSE_BRACKET,
        ) is None) || (s[skip_whitespace(s, pos)] == OPEN_BRACE && matching_close(
            s,
            skip_whitespace(s, pos) + 1,
            1,
            OPEN_BRACE,
            CLOSE_BRACE,
        ) is None),
    ensures
        value_at(s, pos) == Err::<(Json, int), Error>(Error::UnexpectedEnd(s.len() as usize)),
{
    lemma_skip_whitespace(s, pos);
}

/// An array that is not closed fails at the end of the text, whatever it
/// holds and however deep the arrays in it go: where every part of the text
/// from the opening bracket on holds more opening brackets than closing
/// ones, the text has ended unexpectedly. Of an object and its braces the
/// same holds.
pub proof fn law_open_brackets_outnumber(s: Seq<u8>, pos: int, open: u8, close: u8)
    requires
        0 <= pos <= s.len(),
        0 < s.len() <= usize::MAX,
        (open == OPEN_BRACKET && close == CLOSE_BRACKET) || (open == OPEN_BRACE && close
            == CLOSE_BRACE),
        s[skip_whitespace(s, pos)] == open,
        forall|k: int|
            skip_whitespace(s, pos) < k <= s.len() ==> net(
                #[trigger] s.subrange(skip_whitespace(s, pos), k),
                open,
                close,
            ) > 0,
    ensures
        value_at(s, pos) == Err::<(Json, int), Error>(Error::UnexpectedEnd(s.len() as usize)),
{
    lemma_skip_whitespace(s, pos);
    let at = skip_whitespace(s, pos);
    let first = s.subrange(at, at + 1);
    assert(first.drop_last() =~= Seq::<u8>::empty());
    assert(net(first.drop_last(), open, close) == 0);
    assert(first.last() == s[at]);
    assert(net(first, open, close) == 1);
    assert forall|k: int| at + 1 < k <= s.len() implies 1 + net(
        #[trigger] s.subrange(at + 1, k),
        open,
        close,
    ) != 0 by {
        lemma_net_concat(first, s.subrange(at + 1, k), open, close);
        assert(s.subrange(at, k) =~= first + s.subrange(at + 1, k));
    }
    lemma_never_closes(s, at + 1, 1, open, close);
    law_unclosed_container(s, pos);
}

/// A number ends where the text ends, or in front of white space, a comma,
/// or a bracket or brace that closes a container. Where any other byte
/// stands behind its digits, that byte is read with them and the number is
/// invalid.
pub proof fn law_number_takes_other_byte_along(s: Seq<u8>, pos: int)
    requires
        0 <= pos <= s.len(),
        s.len() > 0,
        is_digit(s[skip_whitespace(s, pos)]) || s[skip_whitespace(s, pos)] == MINUS,
        number_run_end(s, skip_whitespace(s, pos)) < s.len(),
        !ends_number(s[number_run_end(s, skip_whitespace(s, pos))]),
    ensures
        value_at(s, pos) matches Err(Error::InvalidNumber(_)),
{
    lemma_skip_whitespace(s, pos);
    let at = skip_whitespace(s, pos);
    lemma_number_run_end(s, at);
    let run_end = number_run_end(s, at);
    let t = s.subrange(at, run_end + 1);
    assert(is_number_byte(s[at]));
    assert forall|i: int| 0 <= i < t.len() - 1 implies is_number_byte(#[trigger] t[i]) by {
        assert(t[i] == s[at + i]);
    }
    assert(t[t.len() - 1] == s[run_end]);
    assert(t[0] == s[at]);
    lemma_other_byte_spoils(t);
}

/// A text without a byte holds no value: the end is unexpected, at the
/// start.
pub proof fn law_empty_text()
    ensures
        value_at(Seq::<u8>::empty(), 0) == Err::<(Json, int), Error>(Error::UnexpectedEnd(0)),
{
}

/// `null`, `true` and `false` that break off fail with an unexpected end,
/// where the text ends.
pub proof fn law_truncated_word(s: Seq<u8>)
    requires
        1 <= s.len() <= usize::MAX,
        ({
            ||| s.len() < 4 && s == word_null().take(s.len() as int)
            ||| s.len() < 4 && s == (seq![LETTER_T] + word_rue()).take(s.len() as int)
            ||| s.len() < 5 && s == (seq![LETTER_F] + word_alse()).take(s.len() as int)
        }),
    ensures
        value_at(s, 0) == Err::<(Json, int), Error>(Error::UnexpectedEnd(s.len() as usize)),
{
    assert(s.subrange(0, s.len() as int) =~= s);
    if s[0] == LETTER_N {
        lemma_literal_truncated(s, 0, word_null());
    } else if s[0] == LETTER_T {
        assert(s.subrange(1, s.len() as int) =~= word_rue().take(s.len() - 1));
        lemma_literal_truncated(s, 1, word_rue());
    } else {
        let word = seq![LETTER_F] + word_alse();
        assert(s[0] == word[0]);
        assert(s.subrange(1, s.len() as int) =~= word_alse().take(s.len() - 1));
        lemma_literal_truncated(s, 1, word_alse());
    }
}

/// Every tree that is read is well formed: its objects keep their keys in
/// ascending order, no key twice, in whatever order and however often the
/// text holds them, and its numbers lie in the range of their variants.
pub proof fn law_parsed_is_well_formed(s: Seq<u8>, pos: int)
    requires
        0 <= pos <= s.len(),
    ensures
        value_at(s, pos) matches Ok((j, _)) ==> well_formed(j),
{
    lemma_value_well_formed(s, pos);
}

} // verus!
