//! Trees that are read: their numbers are numbers, and the keys of their
//! objects ascend.

use vstd::prelude::*;
use crate::grammar::{
    elements_from, lemma_matching_close, lemma_member_start, lemma_skip_whitespace, literal_at,
    matching_close, member_at, members_from, moved, skip_whitespace, string_at, value_at,
    CLOSE_BRACE, CLOSE_BRACKET, COLON, OPEN_BRACE, OPEN_BRACKET,
};
use crate::decimal::{has_point, lemma_canonical};
use crate::literal::{is_float_literal, lemma_plain_form, plain_form};
use crate::grammar::number_end;
use crate::model::{has_key, lemma_place, lemma_put, place, put, well_formed, Json, Members};
use crate::number::{is_digit, is_numeral, number_of, MINUS};

verus! {

/// Members that were read into sorted members are sorted, and so is every
/// object below them.
pub proof fn lemma_members_well_formed(s: Seq<u8>, pos: int, stop: int, acc: Members)
    requires
        0 <= pos <= s.len(),
        stop < s.len(),
        well_formed(Json::Object(acc)),
    ensures
        members_from(s, pos, stop, acc) matches Ok((m, _)) ==> well_formed(Json::Object(m)),
    decreases s.len() - pos, 4int,
{
    if pos < stop {
        match member_at(s, pos) {
            Ok(((key, value), next)) => {
                if moved(s, pos, next) {
                    lemma_member_well_formed(s, pos);
                    lemma_put(acc, key, value);
                    lemma_place(acc, key);
                    let after = put(acc, key, value);
                    assert forall|i: int| 0 <= i < after.len() implies well_formed(
                        (#[trigger] after[i]).1,
                    ) by {
                        let p = place(acc, key);
                        if i == p {
                        } else if has_key(acc, key) || i < p {
                            assert(after[i] == acc[i]);
                        } else {
                            assert(after[i] == acc[i - 1]);
                        }
                    }
                    lemma_members_well_formed(s, next, stop, after);
                }
            },
            _ => {},
        }
    }
}

/// The value of a member that was read keeps its keys sorted.
pub proof fn lemma_member_well_formed(s: Seq<u8>, pos: int)
    requires
        0 <= pos < s.len(),
    ensures
        member_at(s, pos) matches Ok(((_, value), _)) ==> well_formed(value),
    decreases s.len() - pos, 3int,
{
    lemma_member_start(s, pos);
    match string_at(s, skip_whitespace(s, pos)) {
        Ok((_, after_key)) => match literal_at(s, skip_whitespace(s, after_key), seq![COLON]) {
            Ok(after_colon) => {
                lemma_value_well_formed(s, after_colon);
            },
            _ => {},
        },
        _ => {},
    }
}

/// Items that were read keep their keys sorted.
pub proof fn lemma_elements_well_formed(s: Seq<u8>, pos: int, stop: int, acc: Seq<Json>)
    requires
        0 <= pos <= s.len(),
        stop < s.len(),
        well_formed(Json::Array(acc)),
    ensures
        elements_from(s, pos, stop, acc) matches Ok((items, _)) ==> well_formed(
            Json::Array(items),
        ),
    decreases s.len() - pos, 4int,
{
    if pos < stop {
        lemma_skip_whitespace(s, pos);
        match value_at(s, pos) {
            Ok((item, next)) => {
                if moved(s, pos, next) {
                    lemma_value_well_formed(s, pos);
                    let after = acc.push(item);
                    let before = Json::Array(acc);
                    assert forall|i: int| 0 <= i < after.len() implies well_formed(
                        #[trigger] after[i],
                    ) by {
                        if i < acc.len() {
                            assert(after[i] == acc[i]);
                            assert(well_formed(before->Array_0[i]));
                        }
                    }
                    lemma_elements_well_formed(s, next, stop, after);
                }
            },
            _ => {},
        }
    }
}

/// A number that was read lies in the range of its variant, or is a fraction
/// in its kept form.
pub proof fn lemma_number_is_numeral(t: Seq<u8>)
    ensures
        number_of(t) matches Ok(n) ==> is_numeral(n),
{
    if has_point(t) && is_float_literal(t) {
        lemma_plain_form(t);
        lemma_canonical(plain_form(t));
    }
}

/// A value that was read is well formed.
pub proof fn lemma_value_well_formed(s: Seq<u8>, pos: int)
    requires
        0 <= pos <= s.len(),
    ensures
        value_at(s, pos) matches Ok((j, _)) ==> well_formed(j),
    decreases s.len() - skip_whitespace(s, pos), 2int,
{
    if s.len() > 0 {
        lemma_skip_whitespace(s, pos);
        let at = skip_whitespace(s, pos);
        if is_digit(s[at]) || s[at] == MINUS {
            lemma_number_is_numeral(s.subrange(at, number_end(s, at)));
        } else if s[at] == OPEN_BRACKET {
            lemma_matching_close(s, at + 1, 1, OPEN_BRACKET, CLOSE_BRACKET);
            match matching_close(s, at + 1, 1, OPEN_BRACKET, CLOSE_BRACKET) {
                Some(close) => lemma_elements_well_formed(s, at + 1, close, Seq::empty()),
                None => {},
            }
        } else if s[at] == OPEN_BRACE {
            lemma_matching_close(s, at + 1, 1, OPEN_BRACE, CLOSE_BRACE);
            match matching_close(s, at + 1, 1, OPEN_BRACE, CLOSE_BRACE) {
                Some(close) => lemma_members_well_formed(s, at + 1, close, Seq::empty()),
                None => {},
            }
        }
    }
}

} // verus!
