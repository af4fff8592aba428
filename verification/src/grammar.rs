//! The grammar: what the text that starts at a position is, and where it
//! ends.
//!
//! The text is taken as bytes, and a position is an offset in bytes. The
//! parser computes the functions of this file and nothing else.
//!
//! The grammar is lenient in one way and naive in another, and both are part
//! of it:
//! - a comma is white space, wherever it stands;
//! - the end of a container is found by counting brackets before its content
//!   is read, and a bracket in a string counts like any other.
//!
//! A number is the longest run of digits, minus signs and decimal points. It
//! ends where the text ends, or in front of white space, a comma, or a
//! bracket or brace that closes a container. Any other byte behind the run
//! belongs to the literal and makes it invalid: `123d` is no number.

use vstd::prelude::*;
use vstd::utf8::*;
use crate::error::Error;
use crate::model::{put, Json, Members};
use crate::number::{is_digit, number_of, MINUS, POINT};

verus! {

/// The byte of `"`.
pub const QUOTE: u8 = 0x22;

/// The byte of `,`.
pub const COMMA: u8 = 0x2c;

/// The byte of `:`.
pub const COLON: u8 = 0x3a;

/// The byte of `[`.
pub const OPEN_BRACKET: u8 = 0x5b;

/// The byte of `\`.
pub const BACKSLASH: u8 = 0x5c;

/// The byte of `]`.
pub const CLOSE_BRACKET: u8 = 0x5d;

/// The byte of `f`, with which `false` starts.
pub const LETTER_F: u8 = 0x66;

/// The byte of `n`, with which `null` starts.
pub const LETTER_N: u8 = 0x6e;

/// The byte of `t`, with which `true` starts.
pub const LETTER_T: u8 = 0x74;

/// The byte of `{`.
pub const OPEN_BRACE: u8 = 0x7b;

/// The byte of `}`.
pub const CLOSE_BRACE: u8 = 0x7d;

/// A value with the position behind it, or the failure.
pub type Parsed<T> = Result<(T, int), Error>;

/// The bytes that stand between values and mean nothing: white space and the
/// comma. A byte is read as the character of the same number, so the white
/// space is that of the first 256 characters.
pub open spec fn is_skippable(b: u8) -> bool {
    b == COMMA || b == 0x20 || (0x09 <= b <= 0x0d) || b == 0x85 || b == 0xa0
}

/// The first position from `pos` on that holds a byte which is not skipped,
/// or the end of the text.
pub open spec fn first_unskippable(s: Seq<u8>, pos: int) -> int
    decreases s.len() - pos,
{
    if 0 <= pos < s.len() && is_skippable(s[pos]) {
        first_unskippable(s, pos + 1)
    } else {
        pos
    }
}

/// Where the cursor stands after white space and commas are skipped: on the
/// first byte that is none, or, where the text holds no such byte any more, on
/// its last byte.
pub open spec fn skip_whitespace(s: Seq<u8>, pos: int) -> int {
    if first_unskippable(s, pos) < s.len() {
        first_unskippable(s, pos)
    } else {
        s.len() - 1
    }
}

/// One byte further, unless the text has ended.
pub open spec fn step_past(s: Seq<u8>, pos: int) -> int {
    if pos < s.len() {
        pos + 1
    } else {
        pos
    }
}

/// The position behind the bytes of `lit`, which must stand at `pos`. The
/// first byte that differs is an unexpected character, at its own position;
/// a text that ends before `lit` does is an unexpected end.
pub open spec fn literal_at(s: Seq<u8>, pos: int, lit: Seq<u8>) -> Result<int, Error>
    decreases lit.len(),
{
    if lit.len() == 0 {
        Ok(pos)
    } else if pos >= s.len() {
        Err(Error::UnexpectedEnd(pos as usize))
    } else if s[pos] != lit[0] {
        Err(Error::UnexpectedChar(pos as usize))
    } else {
        literal_at(s, pos + 1, lit.drop_first())
    }
}

/// The bytes of `null`.
pub open spec fn word_null() -> Seq<u8> {
    seq![0x6e, 0x75, 0x6c, 0x6c]
}

/// The bytes of `rue`, which follow the `t` of `true`.
pub open spec fn word_rue() -> Seq<u8> {
    seq![0x72, 0x75, 0x65]
}

/// The bytes of `alse`, which follow the `f` of `false`.
pub open spec fn word_alse() -> Seq<u8> {
    seq![0x61, 0x6c, 0x73, 0x65]
}

/// The null value: the word `null`.
pub open spec fn null_at(s: Seq<u8>, pos: int) -> Parsed<Json> {
    match literal_at(s, pos, word_null()) {
        Ok(end) => Ok((Json::Null, end)),
        Err(e) => Err(e),
    }
}

/// A boolean: `t` and then `rue`, or `f` and then `alse`.
pub open spec fn bool_at(s: Seq<u8>, pos: int) -> Parsed<Json> {
    if s[pos] == LETTER_T {
        match literal_at(s, pos + 1, word_rue()) {
            Ok(end) => Ok((Json::Bool(true), end)),
            Err(e) => Err(e),
        }
    } else if s[pos] == LETTER_F {
        match literal_at(s, pos + 1, word_alse()) {
            Ok(end) => Ok((Json::Bool(false), end)),
            Err(e) => Err(e),
        }
    } else {
        Err(Error::UnexpectedChar(pos as usize))
    }
}

/// A byte that a number literal is made of: a digit, the minus sign or the
/// decimal point.
pub open spec fn is_number_byte(b: u8) -> bool {
    is_digit(b) || b == MINUS || b == POINT
}

/// The end of the longest run of number bytes that starts at `pos`.
pub open spec fn number_run_end(s: Seq<u8>, pos: int) -> int
    decreases s.len() - pos,
{
    if 0 <= pos < s.len() && is_number_byte(s[pos]) {
        number_run_end(s, pos + 1)
    } else {
        pos
    }
}

/// A byte in front of which a number ends: white space, a comma, or a
/// bracket or brace that closes a container.
pub open spec fn ends_number(b: u8) -> bool {
    is_skippable(b) || b == CLOSE_BRACKET || b == CLOSE_BRACE
}

/// The end of the number literal that starts at `pos`: the end of the
/// longest run of number bytes, where the text ends there or goes on with a
/// byte in front of which a number ends; one byte further where it goes on
/// with any other byte, which then belongs to the literal.
pub open spec fn number_end(s: Seq<u8>, pos: int) -> int {
    if number_run_end(s, pos) < s.len() && !ends_number(s[number_run_end(s, pos)]) {
        number_run_end(s, pos) + 1
    } else {
        number_run_end(s, pos)
    }
}

/// A number: the literal that starts at `pos`, read as a number. The literal
/// is the longest run of number bytes, unless a byte follows the run in
/// front of which no number ends: that byte is read with the run, so that
/// the literal is no number.
pub open spec fn number_at(s: Seq<u8>, pos: int) -> Parsed<Json> {
    let end = number_end(s, pos);
    match number_of(s.subrange(pos, end)) {
        Ok(n) => Ok((Json::Number(n), end)),
        Err(e) => Err(Error::InvalidNumber(e)),
    }
}

/// The first position from `pos` on where a character begins.
pub open spec fn next_char_start(s: Seq<u8>, pos: int) -> int
    decreases s.len() - pos,
{
    if 0 <= pos < s.len() && is_continuation_byte(s[pos]) {
        next_char_start(s, pos + 1)
    } else {
        pos
    }
}

/// The position of the quote that closes a string whose content goes on at
/// `pos`: the first quote that no backslash escapes. A backslash escapes the
/// one byte behind it, a backslash too.
pub open spec fn closing_quote(s: Seq<u8>, pos: int, escaped: bool) -> Option<int>
    decreases s.len() - pos,
{
    if pos < 0 || pos >= s.len() {
        None
    } else if escaped {
        closing_quote(s, pos + 1, false)
    } else if s[pos] == BACKSLASH {
        closing_quote(s, pos + 1, true)
    } else if s[pos] == QUOTE {
        Some(pos)
    } else {
        closing_quote(s, pos + 1, false)
    }
}

/// The character that an escape stands for.
pub open spec fn escape_meaning(c: char) -> Option<char> {
    if c == '"' {
        Some('"')
    } else if c == '\\' {
        Some('\\')
    } else if c == '/' {
        Some('/')
    } else if c == 'b' {
        Some('\u{8}')
    } else if c == 'f' {
        Some('\u{c}')
    } else if c == 'n' {
        Some('\u{a}')
    } else if c == 'r' {
        Some('\u{d}')
    } else if c == 't' {
        Some('\u{9}')
    } else {
        None
    }
}

/// `head` in front of a text that was read without failure.
pub open spec fn prepend(head: Seq<char>, rest: Result<Seq<char>, Error>) -> Result<
    Seq<char>,
    Error,
> {
    match rest {
        Ok(t) => Ok(head + t),
        Err(e) => Err(e),
    }
}

/// The text that the content of a string literal stands for. A backslash and
/// the character behind it stand for one character; any other character
/// stands for itself. The first escape without a meaning is the failure. A
/// backslash with nothing behind it stands for nothing.
pub open spec fn unescape(t: Seq<char>) -> Result<Seq<char>, Error>
    decreases t.len(),
{
    if t.len() == 0 {
        Ok(Seq::empty())
    } else if t[0] != '\\' {
        prepend(seq![t[0]], unescape(t.skip(1)))
    } else if t.len() == 1 {
        Ok(Seq::empty())
    } else {
        match escape_meaning(t[1]) {
            Some(c) => prepend(seq![c], unescape(t.skip(2))),
            None => Err(Error::InvalidEscape(t[1])),
        }
    }
}

/// A string: one character is passed over, the opening quote; the content
/// runs up to the closing quote and is unescaped. A text that ends before the
/// closing quote is an unexpected end, at the end of the text.
pub open spec fn string_at(s: Seq<u8>, pos: int) -> Parsed<Seq<char>> {
    let start = next_char_start(s, pos + 1);
    match closing_quote(s, start, false) {
        None => Err(Error::UnexpectedEnd(s.len() as usize)),
        Some(close) => match unescape(decode_utf8(s.subrange(start, close))) {
            Ok(t) => Ok((t, close + 1)),
            Err(e) => Err(e),
        },
    }
}

/// The position of the bracket that closes a container whose content goes on
/// at `pos`, `depth` containers deep: every opening bracket from there on
/// counts one up, every closing one counts one down, wherever it stands, and
/// the bracket that brings the count to nothing is the one.
pub open spec fn matching_close(s: Seq<u8>, pos: int, depth: int, open: u8, close: u8) -> Option<
    int,
>
    decreases s.len() - pos,
{
    if pos < 0 || pos >= s.len() {
        None
    } else if depth + bracket_step(s[pos], open, close) == 0 {
        Some(pos)
    } else {
        matching_close(s, pos + 1, depth + bracket_step(s[pos], open, close), open, close)
    }
}

/// What a byte adds to the count of open containers.
pub open spec fn bracket_step(b: u8, open: u8, close: u8) -> int {
    if b == open {
        1
    } else if b == close {
        -1
    } else {
        0
    }
}

/// After white space the cursor is on a byte of the text, and not in front of
/// where it was unless it was at the end.
pub proof fn lemma_skip_whitespace(s: Seq<u8>, pos: int)
    requires
        0 <= pos <= s.len(),
        s.len() > 0,
    ensures
        0 <= skip_whitespace(s, pos) < s.len(),
        pos < s.len() ==> pos <= skip_whitespace(s, pos),
        pos == s.len() ==> skip_whitespace(s, pos) == pos - 1,
        pos <= first_unskippable(s, pos) <= s.len(),
        forall|i: int| pos <= i < first_unskippable(s, pos) ==> is_skippable(#[trigger] s[i]),
        first_unskippable(s, pos) < s.len() ==> !is_skippable(s[first_unskippable(s, pos)]),
    decreases s.len() - pos,
{
    if pos < s.len() && is_skippable(s[pos]) {
        lemma_skip_whitespace(s, pos + 1);
    }
}

/// The closing quote stands in the text, at or behind the place from which it
/// was sought.
pub proof fn lemma_closing_quote(s: Seq<u8>, pos: int, escaped: bool)
    ensures
        closing_quote(s, pos, escaped) matches Some(q) ==> pos <= q < s.len() && s[q] == QUOTE,
    decreases s.len() - pos,
{
    if 0 <= pos < s.len() {
        if escaped {
            lemma_closing_quote(s, pos + 1, false);
        } else if s[pos] == BACKSLASH {
            lemma_closing_quote(s, pos + 1, true);
        } else if s[pos] != QUOTE {
            lemma_closing_quote(s, pos + 1, false);
        }
    }
}

/// The next start of a character is at or behind `pos`, within the text, and
/// a character begins there.
pub proof fn lemma_next_char_start(s: Seq<u8>, pos: int)
    requires
        0 <= pos <= s.len(),
    ensures
        pos <= next_char_start(s, pos) <= s.len(),
        next_char_start(s, pos) < s.len() ==> !is_continuation_byte(s[next_char_start(s, pos)]),
    decreases s.len() - pos,
{
    if pos < s.len() && is_continuation_byte(s[pos]) {
        lemma_next_char_start(s, pos + 1);
    }
}

/// The matching bracket stands in the text, at or behind the place from which
/// it was sought.
pub proof fn lemma_matching_close(s: Seq<u8>, pos: int, depth: int, open: u8, close: u8)
    ensures
        matching_close(s, pos, depth, open, close) matches Some(c) ==> pos <= c < s.len(),
    decreases s.len() - pos,
{
    if 0 <= pos < s.len() && depth + bracket_step(s[pos], open, close) != 0 {
        lemma_matching_close(s, pos + 1, depth + bracket_step(s[pos], open, close), open, close);
    }
}

/// A literal that stands in the text ends behind its start, within the text.
pub proof fn lemma_literal_at(s: Seq<u8>, pos: int, lit: Seq<u8>)
    requires
        0 <= pos <= s.len(),
    ensures
        literal_at(s, pos, lit) matches Ok(end) ==> end == pos + lit.len() && end <= s.len()
            && s.subrange(pos, end) == lit,
        literal_at(s, pos, lit) is Ok <==> pos + lit.len() <= s.len() && s.subrange(
            pos,
            pos + lit.len(),
        ) == lit,
    decreases lit.len(),
{
    if lit.len() > 0 && pos < s.len() && s[pos] == lit[0] {
        lemma_literal_at(s, pos + 1, lit.drop_first());
        let end = pos + lit.len();
        if end <= s.len() {
            assert(s.subrange(pos, end) =~= seq![s[pos]] + s.subrange(pos + 1, end));
            assert(lit =~= seq![lit[0]] + lit.drop_first());
            if s.subrange(pos, end) == lit {
                assert(s.subrange(pos + 1, end) =~= s.subrange(pos, end).drop_first());
            }
        }
    } else if lit.len() == 0 {
        assert(s.subrange(pos, pos) =~= lit);
    } else if pos < s.len() {
        if pos + lit.len() <= s.len() {
            assert(s.subrange(pos, pos + lit.len())[0] != lit[0]);
        }
    }
}

/// A string ends behind its opening quote, within the text.
pub proof fn lemma_string_at(s: Seq<u8>, pos: int)
    requires
        0 <= pos < s.len(),
    ensures
        string_at(s, pos) matches Ok((_, end)) ==> pos + 1 < end <= s.len(),
{
    lemma_next_char_start(s, pos + 1);
    lemma_closing_quote(s, next_char_start(s, pos + 1), false);
}

/// Whether the cursor went forward from `pos` to `next` and stayed in the
/// text. Every value and every member moves it so (see
/// [`lemma_value_moves`]); where a container is read, the test only bounds the
/// number of its parts.
pub open spec fn moved(s: Seq<u8>, pos: int, next: int) -> bool {
    pos < next <= s.len()
}

/// What stands at `pos`, behind white space: the first byte decides. `n`
/// begins the null value, `t` and `f` a boolean, a digit or a minus sign a
/// number, a quote a string, an opening bracket an array, an opening brace an
/// object; any other byte is an unexpected character. An empty text is an
/// unexpected end.
pub open spec fn value_at(s: Seq<u8>, pos: int) -> Parsed<Json>
    decreases s.len() - skip_whitespace(s, pos), 2int,
{
    let at = skip_whitespace(s, pos);
    if s.len() == 0 {
        Err(Error::UnexpectedEnd(pos as usize))
    } else if s[at] == LETTER_N {
        null_at(s, at)
    } else if s[at] == LETTER_T || s[at] == LETTER_F {
        bool_at(s, at)
    } else if is_digit(s[at]) || s[at] == MINUS {
        number_at(s, at)
    } else if s[at] == QUOTE {
        match string_at(s, at) {
            Ok((t, end)) => Ok((Json::String(t), end)),
            Err(e) => Err(e),
        }
    } else if s[at] == OPEN_BRACKET {
        array_at(s, at)
    } else if s[at] == OPEN_BRACE {
        object_at(s, at)
    } else {
        Err(Error::UnexpectedChar(at as usize))
    }
}

/// An array: behind the opening bracket the matching closing bracket is
/// sought first; a text without it is an unexpected end, at the end of the
/// text. Then values are read for as long as the cursor stands in front of
/// that bracket, and at last one byte is passed over, the bracket.
pub open spec fn array_at(s: Seq<u8>, pos: int) -> Parsed<Json>
    decreases s.len() - pos, 1int,
    when 0 <= pos < s.len()
{
    match matching_close(s, pos + 1, 1, OPEN_BRACKET, CLOSE_BRACKET) {
        None => Err(Error::UnexpectedEnd(s.len() as usize)),
        Some(close) => {
            proof {
                lemma_matching_close(s, pos + 1, 1, OPEN_BRACKET, CLOSE_BRACKET);
            }
            match elements_from(s, pos + 1, close, Seq::empty()) {
                Ok((items, end)) => Ok((Json::Array(items), step_past(s, end))),
                Err(e) => Err(e),
            }
        },
    }
}

/// The values from `pos` on, behind `items`, for as long as the cursor stands
/// in front of `stop`.
pub open spec fn elements_from(s: Seq<u8>, pos: int, stop: int, items: Seq<Json>) -> Parsed<
    Seq<Json>,
>
    decreases s.len() - pos, 4int,
    when 0 <= pos && stop < s.len()
{
    if pos < stop {
        proof {
            lemma_skip_whitespace(s, pos);
        }
        match value_at(s, pos) {
            Ok((item, next)) => if moved(s, pos, next) {
                elements_from(s, next, stop, items.push(item))
            } else {
                Err(Error::UnexpectedEnd(pos as usize))
            },
            Err(e) => Err(e),
        }
    } else {
        Ok((items, pos))
    }
}

/// An object: as an array, between braces, of members in place of values.
pub open spec fn object_at(s: Seq<u8>, pos: int) -> Parsed<Json>
    decreases s.len() - pos, 1int,
    when 0 <= pos < s.len()
{
    match matching_close(s, pos + 1, 1, OPEN_BRACE, CLOSE_BRACE) {
        None => Err(Error::UnexpectedEnd(s.len() as usize)),
        Some(close) => {
            proof {
                lemma_matching_close(s, pos + 1, 1, OPEN_BRACE, CLOSE_BRACE);
            }
            match members_from(s, pos + 1, close, Seq::empty()) {
                Ok((members, end)) => Ok((Json::Object(members), step_past(s, end))),
                Err(e) => Err(e),
            }
        },
    }
}

/// A member: behind white space a string, the key; behind white space a
/// colon; then a value.
pub open spec fn member_at(s: Seq<u8>, pos: int) -> Parsed<(Seq<char>, Json)>
    decreases s.len() - pos, 3int,
    when 0 <= pos < s.len()
{
    match string_at(s, skip_whitespace(s, pos)) {
        Err(e) => Err(e),
        Ok((key, after_key)) => match literal_at(s, skip_whitespace(s, after_key), seq![COLON]) {
            Err(e) => Err(e),
            Ok(after_colon) => {
                proof {
                    lemma_member_start(s, pos);
                }
                match value_at(s, after_colon) {
                    Ok((value, end)) => Ok(((key, value), end)),
                    Err(e) => Err(e),
                }
            },
        },
    }
}

/// The members from `pos` on, put into `members` one after the other, for as
/// long as the cursor stands in front of `stop`. A key that came before gets
/// the later value.
pub open spec fn members_from(s: Seq<u8>, pos: int, stop: int, members: Members) -> Parsed<
    Members,
>
    decreases s.len() - pos, 4int,
    when 0 <= pos && stop < s.len()
{
    if pos < stop {
        match member_at(s, pos) {
            Ok(((key, value), next)) => if moved(s, pos, next) {
                members_from(s, next, stop, put(members, key, value))
            } else {
                Err(Error::UnexpectedEnd(pos as usize))
            },
            Err(e) => Err(e),
        }
    } else {
        Ok((members, pos))
    }
}

/// The value of a member is sought behind the key and the colon.
pub proof fn lemma_member_start(s: Seq<u8>, pos: int)
    requires
        0 <= pos < s.len(),
    ensures
        string_at(s, skip_whitespace(s, pos)) matches Ok((_, after_key)) ==> (literal_at(
            s,
            skip_whitespace(s, after_key),
            seq![COLON],
        ) matches Ok(after_colon) ==> pos < after_colon <= s.len() && pos <= skip_whitespace(
            s,
            after_colon,
        ) < s.len()),
{
    lemma_skip_whitespace(s, pos);
    let key_at = skip_whitespace(s, pos);
    lemma_string_at(s, key_at);
    match string_at(s, key_at) {
        Ok((_, after_key)) => {
            lemma_skip_whitespace(s, after_key);
            let colon_at = skip_whitespace(s, after_key);
            lemma_literal_at(s, colon_at, seq![COLON]);
            match literal_at(s, colon_at, seq![COLON]) {
                Ok(after_colon) => {
                    lemma_skip_whitespace(s, after_colon);
                },
                _ => {},
            }
        },
        _ => {},
    }
}

/// The end of a run of number bytes is in the text, behind the bytes of the
/// run.
pub proof fn lemma_number_run_end(s: Seq<u8>, pos: int)
    requires
        0 <= pos <= s.len(),
    ensures
        pos <= number_run_end(s, pos) <= s.len(),
        forall|i: int| pos <= i < number_run_end(s, pos) ==> is_number_byte(#[trigger] s[i]),
        number_run_end(s, pos) < s.len() ==> !is_number_byte(s[number_run_end(s, pos)]),
    decreases s.len() - pos,
{
    if pos < s.len() && is_number_byte(s[pos]) {
        lemma_number_run_end(s, pos + 1);
    }
}

/// The values of an array end in the text, at or behind the closing bracket.
pub proof fn lemma_elements_end(s: Seq<u8>, pos: int, stop: int, items: Seq<Json>)
    requires
        0 <= pos <= s.len(),
        stop < s.len(),
    ensures
        elements_from(s, pos, stop, items) matches Ok((_, end)) ==> pos <= end <= s.len() && stop
            <= end,
    decreases s.len() - pos,
{
    if pos < stop {
        match value_at(s, pos) {
            Ok((item, next)) => {
                if moved(s, pos, next) {
                    lemma_elements_end(s, next, stop, items.push(item));
                }
            },
            _ => {},
        }
    }
}

/// The members of an object end in the text, at or behind the closing brace.
pub proof fn lemma_members_end(s: Seq<u8>, pos: int, stop: int, members: Members)
    requires
        0 <= pos <= s.len(),
        stop < s.len(),
    ensures
        members_from(s, pos, stop, members) matches Ok((_, end)) ==> pos <= end <= s.len() && stop
            <= end,
    decreases s.len() - pos,
{
    if pos < stop {
        match member_at(s, pos) {
            Ok(((key, value), next)) => {
                if moved(s, pos, next) {
                    lemma_members_end(s, next, stop, put(members, key, value));
                }
            },
            _ => {},
        }
    }
}

/// A value ends behind the byte with which it starts, within the text.
pub proof fn lemma_value_moves(s: Seq<u8>, pos: int)
    requires
        0 <= pos <= s.len(),
    ensures
        value_at(s, pos) matches Ok((_, end)) ==> skip_whitespace(s, pos) < end <= s.len(),
        pos < s.len() ==> (value_at(s, pos) matches Ok((_, end)) ==> moved(s, pos, end)),
{
    if s.len() > 0 {
        lemma_skip_whitespace(s, pos);
        let at = skip_whitespace(s, pos);
        if s[at] == LETTER_N {
            lemma_literal_at(s, at, word_null());
        } else if s[at] == LETTER_T {
            lemma_literal_at(s, at + 1, word_rue());
        } else if s[at] == LETTER_F {
            lemma_literal_at(s, at + 1, word_alse());
        } else if is_digit(s[at]) || s[at] == MINUS {
            lemma_number_run_end(s, at + 1);
        } else if s[at] == QUOTE {
            lemma_string_at(s, at);
        } else if s[at] == OPEN_BRACKET {
            lemma_matching_close(s, at + 1, 1, OPEN_BRACKET, CLOSE_BRACKET);
            match matching_close(s, at + 1, 1, OPEN_BRACKET, CLOSE_BRACKET) {
                Some(close) => lemma_elements_end(s, at + 1, close, Seq::empty()),
                None => {},
            }
        } else if s[at] == OPEN_BRACE {
            lemma_matching_close(s, at + 1, 1, OPEN_BRACE, CLOSE_BRACE);
            match matching_close(s, at + 1, 1, OPEN_BRACE, CLOSE_BRACE) {
                Some(close) => lemma_members_end(s, at + 1, close, Seq::empty()),
                None => {},
            }
        }
    }
}

/// A member ends behind the byte with which it starts, within the text.
pub proof fn lemma_member_moves(s: Seq<u8>, pos: int)
    requires
        0 <= pos < s.len(),
    ensures
        member_at(s, pos) matches Ok((_, end)) ==> moved(s, pos, end),
{
    lemma_member_start(s, pos);
    match string_at(s, skip_whitespace(s, pos)) {
        Ok((_, after_key)) => match literal_at(s, skip_whitespace(s, after_key), seq![COLON]) {
            Ok(after_colon) => {
                lemma_value_moves(s, after_colon);
            },
            _ => {},
        },
        _ => {},
    }
}

/// A word that breaks off fails where the text ends.
pub proof fn lemma_literal_truncated(s: Seq<u8>, pos: int, lit: Seq<u8>)
    requires
        0 <= pos <= s.len() <= usize::MAX,
        s.len() - pos < lit.len(),
        s.subrange(pos, s.len() as int) == lit.take(s.len() - pos),
    ensures
        literal_at(s, pos, lit) == Err::<int, Error>(Error::UnexpectedEnd(s.len() as usize)),
    decreases lit.len(),
{
    if pos < s.len() {
        assert(s.subrange(pos, s.len() as int)[0] == s[pos]);
        assert(lit.take(s.len() - pos)[0] == lit[0]);
        assert(s.subrange(pos, s.len() as int)[0] == lit.take(s.len() - pos)[0]);
        assert(s.subrange(pos + 1, s.len() as int) =~= s.subrange(pos, s.len() as int).skip(1));
        assert(lit.drop_first().take(s.len() - pos - 1) =~= lit.take(s.len() - pos).skip(1));
        lemma_literal_truncated(s, pos + 1, lit.drop_first());
    }
}

} // verus!
