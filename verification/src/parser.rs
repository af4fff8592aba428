//! The parser: a cursor over a text, which reads one value per call.

use vstd::prelude::*;
use vstd::slice::*;
use vstd::string::*;
use vstd::utf8::*;
use crate::error::Error;
use crate::grammar::{
    array_at, bool_at, closing_quote, elements_from, ends_number, escape_meaning,
    first_unskippable, lemma_literal_at, lemma_matching_close, lemma_member_moves,
    lemma_member_start, lemma_skip_whitespace, lemma_value_moves, literal_at, matching_close,
    members_from, next_char_start, null_at, number_at, number_run_end, object_at, prepend,
    skip_whitespace, string_at, unescape, value_at, word_alse, word_null, word_rue, Parsed,
    BACKSLASH, CLOSE_BRACE, CLOSE_BRACKET, COLON, COMMA, LETTER_F, LETTER_N, LETTER_T,
    OPEN_BRACE, OPEN_BRACKET, QUOTE,
};
use crate::model::Json;
use crate::number::{Number, MINUS, POINT};
use crate::object::Object;
use crate::text::{slice_str, starts_char};
use crate::value::Value;

verus! {

/// What is left to unescape where the character in front was a backslash, or
/// was none.
pub open spec fn unescape_pending(escaped: bool, rest: Seq<char>) -> Result<Seq<char>, Error> {
    if !escaped {
        unescape(rest)
    } else if rest.len() == 0 {
        Ok(Seq::empty())
    } else {
        match escape_meaning(rest[0]) {
            Some(c) => prepend(seq![c], unescape(rest.skip(1))),
            None => Err(Error::InvalidEscape(rest[0])),
        }
    }
}

/// The character that an escape stands for.
pub fn escape_char(c: char) -> (r: Option<char>)
    ensures
        r == escape_meaning(c),
{
    if c == '"' {
        Some('"')
    } else if c == '\\' {
        Some('\\')
    } else if c == '/' {
        Some('/')
    } else if c == 'b' {
        Some('\u{8}')
    } else if c == 'f' {
        Some('\u{c}')
    } else if c == 'n' {
        Some('\u{a}')
    } else if c == 'r' {
        Some('\u{d}')
    } else if c == 't' {
        Some('\u{9}')
    } else {
        None
    }
}

/// The text that the content of a string literal stands for.
pub fn unescape_str(s: &str) -> (r: Result<String, Error>)
    ensures
        match r {
            Ok(t) => unescape(s@) == Ok::<Seq<char>, Error>(t@),
            Err(e) => unescape(s@) == Err::<Seq<char>, Error>(e),
        },
{
    let mut out = String::new();
    let mut escaped = false;
    proof {
        assert(s@.skip(0) =~= s@);
        assert(Seq::<char>::empty() + s@ =~= s@);
        match unescape(s@) {
            Ok(t) => assert(Seq::<char>::empty() + t =~= t),
            _ => {},
        }
    }
    for c in it: s.chars()
        invariant
            it.seq() == s@,
            unescape(s@) == prepend(out@, unescape_pending(escaped, s@.skip(it.index() as int))),
    {
        let ghost i = it.index() as int;
        let ghost rest = s@.skip(i);
        let ghost before = out@;
        proof {
            assert(rest[0] == c);
            assert(rest.skip(1) =~= s@.skip(i + 1));
        }
        if escaped {
            match escape_char(c) {
                Some(m) => {
                    out.push(m);
                    escaped = false;
                    proof {
                        match unescape(rest.skip(1)) {
                            Ok(t) => assert(before + (seq![m] + t) =~= before.push(m) + t),
                            _ => {},
                        }
                    }
                },
                None => {
                    return Err(Error::InvalidEscape(c));
                },
            }
        } else if c == '\\' {
            escaped = true;
            proof {
                if rest.len() > 1 {
                    assert(rest.skip(1)[0] == rest[1]);
                    assert(rest.skip(1).skip(1) =~= rest.skip(2));
                }
            }
        } else {
            out.push(c);
            proof {
                match unescape(rest.skip(1)) {
                    Ok(t) => assert(before + (seq![c] + t) =~= before.push(c) + t),
                    _ => {},
                }
            }
        }
    }
    proof {
        assert(out@ + Seq::<char>::empty() =~= out@);
    }
    Ok(out)
}

/// A cursor over a text. It stands on a byte of the text or at its end, and
/// only moves forward.
pub struct Parser<'a> {
    input: &'a str,
    len: usize,
    pos: usize,
}

impl<'a> Parser<'a> {
    #[verifier::type_invariant]
    spec fn in_bounds(self) -> bool {
        self.len == self.input.spec_bytes().len() && self.pos <= self.len
    }

    /// The bytes of the text.
    pub closed spec fn text(&self) -> Seq<u8> {
        self.input.spec_bytes()
    }

    /// The position of the cursor, an offset in bytes.
    pub closed spec fn cursor(&self) -> int {
        self.pos as int
    }

    /// A parser at the start of `inp`.
    pub fn new(inp: &'a str) -> (r: Self)
        ensures
            r.text() == inp.spec_bytes(),
            r.cursor() == 0,
    {
        Self { input: inp, len: inp.as_bytes().len(), pos: 0 }
    }

    /// The position of the cursor, an offset in bytes.
    pub fn offset(&self) -> (r: usize)
        ensures
            r == self.cursor(),
            r <= self.text().len(),
    {
        proof {
            use_type_invariant(self);
        }
        self.pos
    }

    /// The byte at `pos`.
    fn char(&self, pos: usize) -> (b: u8)
        requires
            pos < self.text().len(),
        ensures
            b == self.text()[pos as int],
    {
        self.input.as_bytes()[pos]
    }

    /// The position behind `chars`, which must stand at `pos`.
    fn require_chars(&self, pos: usize, chars: &[u8]) -> (r: Result<usize, Error>)
        requires
            pos <= self.text().len(),
        ensures
            match r {
                Ok(end) => literal_at(self.text(), pos as int, chars@) == Ok::<int, Error>(end as int)
                    && end == pos + chars@.len() && end <= self.text().len(),
                Err(e) => literal_at(self.text(), pos as int, chars@) == Err::<int, Error>(e),
            },
    {
        proof {
            use_type_invariant(self);
            lemma_literal_at(self.text(), pos as int, chars@);
        }
        let mut i: usize = 0;
        let mut at: usize = pos;
        proof {
            assert(chars@.skip(0) =~= chars@);
        }
        while i < chars.len()
            invariant
                i <= chars.len(),
                at == pos + i,
                at <= self.len,
                self.len == self.text().len(),
                literal_at(self.text(), pos as int, chars@) == literal_at(
                    self.text(),
                    at as int,
                    chars@.skip(i as int),
                ),
            decreases chars.len() - i,
        {
            proof {
                assert(chars@.skip(i as int)[0] == chars@[i as int]);
                assert(chars@.skip(i as int).drop_first() =~= chars@.skip(i + 1));
            }
            if at >= self.len {
                return Err(Error::UnexpectedEnd(at));
            }
            if self.char(at) != chars[i] {
                return Err(Error::UnexpectedChar(at));
            }
            at += 1;
            i += 1;
        }
        Ok(at)
    }

    /// Where the cursor stands after white space and commas.
    fn skip_whitespace(&self, pos: usize) -> (r: usize)
        requires
            pos <= self.text().len(),
            self.text().len() > 0,
        ensures
            r == skip_whitespace(self.text(), pos as int),
            r < self.text().len(),
            pos < self.text().len() ==> pos <= r,
    {
        proof {
            use_type_invariant(self);
            lemma_skip_whitespace(self.text(), pos as int);
        }
        let mut at: usize = pos;
        while at < self.len
            invariant
                pos <= at <= self.len,
                self.len == self.text().len(),
                first_unskippable(self.text(), pos as int) == first_unskippable(
                    self.text(),
                    at as int,
                ),
            decreases self.len - at,
        {
            let b = self.char(at);
            let skip = b == COMMA || b == 0x20 || (0x09 <= b && b <= 0x0d) || b == 0x85 || b
                == 0xa0;
            if !skip {
                return at;
            }
            at += 1;
        }
        self.len - 1
    }

    /// The null value.
    fn parse_null(&self, pos: usize) -> (r: Result<(Value, usize), Error>)
        requires
            pos <= self.text().len(),
        ensures
            self.agrees(r, null_at(self.text(), pos as int)),
    {
        // n u l l
        let word: [u8; 4] = [0x6e, 0x75, 0x6c, 0x6c];
        proof {
            assert(word@ =~= word_null());
        }
        match self.require_chars(pos, word.as_slice()) {
            Ok(end) => Ok((Value::Null, end)),
            Err(e) => Err(e),
        }
    }

    /// A boolean.
    fn parse_bool(&self, pos: usize) -> (r: Result<(Value, usize), Error>)
        requires
            pos < self.text().len(),
        ensures
            self.agrees(r, bool_at(self.text(), pos as int)),
    {
        proof {
            use_type_invariant(self);
        }
        let first = self.char(pos);
        if first == LETTER_T {
            // r u e
            let word: [u8; 3] = [0x72, 0x75, 0x65];
            proof {
                assert(word@ =~= word_rue());
            }
            match self.require_chars(pos + 1, word.as_slice()) {
                Ok(end) => Ok((Value::Bool(true), end)),
                Err(e) => Err(e),
            }
        } else if first == LETTER_F {
            // a l s e
            let word: [u8; 4] = [0x61, 0x6c, 0x73, 0x65];
            proof {
                assert(word@ =~= word_alse());
            }
            match self.require_chars(pos + 1, word.as_slice()) {
                Ok(end) => Ok((Value::Bool(false), end)),
                Err(e) => Err(e),
            }
        } else {
            Err(Error::UnexpectedChar(pos))
        }
    }

    /// The end of the longest run of number bytes that starts at `pos`.
    fn number_run_end(&self, pos: usize) -> (r: usize)
        requires
            pos <= self.text().len(),
        ensures
            r == number_run_end(self.text(), pos as int),
            pos <= r <= self.text().len(),
    {
        proof {
            use_type_invariant(self);
        }
        let mut at: usize = pos;
        while at < self.len
            invariant
                pos <= at <= self.len,
                self.len == self.text().len(),
                number_run_end(self.text(), pos as int) == number_run_end(self.text(), at as int),
            decreases self.len - at,
        {
            let b = self.char(at);
            let belongs = (0x30 <= b && b <= 0x39) || b == MINUS || b == POINT;
            if !belongs {
                return at;
            }
            at += 1;
        }
        at
    }

    /// Whether a number ends in front of the byte at `pos`.
    fn ends_number(&self, pos: usize) -> (r: bool)
        requires
            pos < self.text().len(),
        ensures
            r == ends_number(self.text()[pos as int]),
    {
        let b = self.char(pos);
        b == COMMA || b == 0x20 || (0x09 <= b && b <= 0x0d) || b == 0x85 || b == 0xa0 || b
            == CLOSE_BRACKET || b == CLOSE_BRACE
    }

    /// A number.
    fn parse_number(&self, pos: usize) -> (r: Result<(Value, usize), Error>)
        requires
            pos <= self.text().len(),
        ensures
            self.agrees(r, number_at(self.text(), pos as int)),
    {
        proof {
            use_type_invariant(self);
        }
        let run_end = self.number_run_end(pos);
        let end: usize = if run_end < self.len && !self.ends_number(run_end) {
            run_end + 1
        } else {
            run_end
        };
        let literal = slice_subrange(self.input.as_bytes(), pos, end);
        match Number::from_bytes(literal) {
            Ok(n) => Ok((Value::Number(n), end)),
            Err(e) => Err(Error::InvalidNumber(e)),
        }
    }

    /// The first position from `pos` on where a character begins.
    fn next_char_start(&self, pos: usize) -> (r: usize)
        requires
            pos <= self.text().len(),
        ensures
            r == next_char_start(self.text(), pos as int),
            pos <= r <= self.text().len(),
            starts_char(self.text(), r as int),
    {
        proof {
            use_type_invariant(self);
        }
        let mut at: usize = pos;
        while at < self.len
            invariant
                pos <= at <= self.len,
                self.len == self.text().len(),
                next_char_start(self.text(), pos as int) == next_char_start(self.text(), at as int),
            decreases self.len - at,
        {
            let b = self.char(at);
            if !(0x80 <= b && b <= 0xbf) {
                return at;
            }
            at += 1;
        }
        at
    }

    /// The position of the quote that closes the string whose content starts
    /// at `pos`.
    fn closing_quote(&self, pos: usize) -> (r: Option<usize>)
        requires
            pos <= self.text().len(),
        ensures
            closing_quote(self.text(), pos as int, false) == match r {
                Some(q) => Some(q as int),
                None => None::<int>,
            },
            r matches Some(q) ==> pos <= q < self.text().len() && self.text()[q as int] == QUOTE,
    {
        proof {
            use_type_invariant(self);
        }
        let mut at: usize = pos;
        let mut escaped = false;
        while at < self.len
            invariant
                pos <= at <= self.len,
                self.len == self.text().len(),
                closing_quote(self.text(), pos as int, false) == closing_quote(
                    self.text(),
                    at as int,
                    escaped,
                ),
            decreases self.len - at,
        {
            let b = self.char(at);
            if escaped {
                escaped = false;
            } else if b == BACKSLASH {
                escaped = true;
            } else if b == QUOTE {
                return Some(at);
            }
            at += 1;
        }
        None
    }

    /// A string.
    fn parse_string(&self, pos: usize) -> (r: Result<(String, usize), Error>)
        requires
            pos < self.text().len(),
        ensures
            match r {
                Ok((t, end)) => string_at(self.text(), pos as int) == Ok::<(Seq<char>, int), Error>(
                    (t@, end as int),
                ) && pos < end <= self.text().len(),
                Err(e) => string_at(self.text(), pos as int) == Err::<(Seq<char>, int), Error>(e),
            },
    {
        proof {
            use_type_invariant(self);
        }
        let start = self.next_char_start(pos + 1);
        match self.closing_quote(start) {
            None => Err(Error::UnexpectedEnd(self.len)),
            Some(close) => {
                let raw = slice_str(self.input, start, close);
                match unescape_str(raw) {
                    Ok(t) => Ok((t, close + 1)),
                    Err(e) => Err(e),
                }
            },
        }
    }

    /// The position of the bracket that closes the container whose content
    /// starts at `pos`.
    fn find_close(&self, pos: usize, open: u8, close: u8) -> (r: Option<usize>)
        requires
            1 <= pos <= self.text().len(),
            open != close,
        ensures
            matching_close(self.text(), pos as int, 1, open, close) == match r {
                Some(c) => Some(c as int),
                None => None::<int>,
            },
            r matches Some(c) ==> pos <= c < self.text().len(),
    {
        proof {
            use_type_invariant(self);
            lemma_matching_close(self.text(), pos as int, 1, open, close);
        }
        let mut at: usize = pos;
        let mut depth: usize = 1;
        while at < self.len
            invariant
                1 <= pos <= at <= self.len,
                self.len == self.text().len(),
                open != close,
                1 <= depth <= 1 + (at - pos),
                matching_close(self.text(), pos as int, 1, open, close) == matching_close(
                    self.text(),
                    at as int,
                    depth as int,
                    open,
                    close,
                ),
            decreases self.len - at,
        {
            let b = self.char(at);
            if b == open {
                depth += 1;
            } else if b == close {
                depth -= 1;
                if depth == 0 {
                    return Some(at);
                }
            }
            at += 1;
        }
        None
    }

    /// Whether what was read is what the grammar says.
    spec fn agrees(&self, got: Result<(Value, usize), Error>, want: Parsed<Json>) -> bool {
        match got {
            Ok((v, end)) => want == Ok::<(Json, int), Error>((v@, end as int)) && end
                <= self.text().len(),
            Err(e) => want == Err::<(Json, int), Error>(e),
        }
    }

    /// An array.
    #[verifier::loop_isolation(false)]
    fn parse_array(&self, pos: usize) -> (r: Result<(Value, usize), Error>)
        requires
            pos < self.text().len(),
        ensures
            self.agrees(r, array_at(self.text(), pos as int)),
        decreases self.text().len() - pos, 1int,
    {
        proof {
            use_type_invariant(self);
        }
        let close = match self.find_close(pos + 1, OPEN_BRACKET, CLOSE_BRACKET) {
            None => {
                return Err(Error::UnexpectedEnd(self.len));
            },
            Some(c) => c,
        };
        let mut items: Vec<Value> = Vec::new();
        let ghost mut done: Seq<Json> = Seq::empty();
        let mut at: usize = pos + 1;
        while at < close
            invariant
                pos < at <= self.len,
                close < self.len,
                self.len == self.text().len(),
                done.len() == items.len(),
                forall|i: int| 0 <= i < done.len() ==> done[i] == (#[trigger] items[i])@,
                elements_from(self.text(), pos + 1, close as int, Seq::empty()) == elements_from(
                    self.text(),
                    at as int,
                    close as int,
                    done,
                ),
            decreases self.len - at,
        {
            proof {
                lemma_skip_whitespace(self.text(), at as int);
                lemma_value_moves(self.text(), at as int);
            }
            match self.parse_value(at) {
                Ok((item, next)) => {
                    proof {
                        done = done.push(item@);
                    }
                    items.push(item);
                    at = next;
                },
                Err(e) => {
                    return Err(e);
                },
            }
        }
        let end: usize = if at < self.len {
            at + 1
        } else {
            at
        };
        let value = Value::Array(items);
        proof {
            assert(value@ == Json::Array(done)) by {
                assert(value@->Array_0 =~= done);
            }
        }
        Ok((value, end))
    }

    /// An object.
    #[verifier::loop_isolation(false)]
    fn parse_object(&self, pos: usize) -> (r: Result<(Value, usize), Error>)
        requires
            pos < self.text().len(),
        ensures
            self.agrees(r, object_at(self.text(), pos as int)),
        decreases self.text().len() - pos, 1int,
    {
        proof {
            use_type_invariant(self);
        }
        let close = match self.find_close(pos + 1, OPEN_BRACE, CLOSE_BRACE) {
            None => {
                return Err(Error::UnexpectedEnd(self.len));
            },
            Some(c) => c,
        };
        let mut members = Object::new();
        let mut at: usize = pos + 1;
        while at < close
            invariant
                pos < at <= self.len,
                close < self.len,
                self.len == self.text().len(),
                members_from(self.text(), pos + 1, close as int, Seq::empty()) == members_from(
                    self.text(),
                    at as int,
                    close as int,
                    members@,
                ),
            decreases self.len - at,
        {
            proof {
                lemma_member_start(self.text(), at as int);
                lemma_member_moves(self.text(), at as int);
            }
            let key_at = self.skip_whitespace(at);
            let (key, after_key) = match self.parse_string(key_at) {
                Ok(found) => found,
                Err(e) => {
                    return Err(e);
                },
            };
            let colon_at = self.skip_whitespace(after_key);
            let colon: [u8; 1] = [COLON];
            proof {
                assert(colon@ =~= seq![COLON]);
            }
            let after_colon = match self.require_chars(colon_at, colon.as_slice()) {
                Ok(found) => found,
                Err(e) => {
                    return Err(e);
                },
            };
            match self.parse_value(after_colon) {
                Ok((value, next)) => {
                    members.insert(key, value);
                    at = next;
                },
                Err(e) => {
                    return Err(e);
                },
            }
        }
        let end: usize = if at < self.len {
            at + 1
        } else {
            at
        };
        Ok((Value::Object(members), end))
    }

    /// What stands at `pos`, behind white space.
    fn parse_value(&self, pos: usize) -> (r: Result<(Value, usize), Error>)
        requires
            pos <= self.text().len(),
        ensures
            self.agrees(r, value_at(self.text(), pos as int)),
        decreases self.text().len() - skip_whitespace(self.text(), pos as int), 2int,
    {
        proof {
            use_type_invariant(self);
        }
        if self.len == 0 {
            return Err(Error::UnexpectedEnd(pos));
        }
        let at = self.skip_whitespace(pos);
        let b = self.char(at);
        if b == LETTER_N {
            self.parse_null(at)
        } else if b == LETTER_T || b == LETTER_F {
            self.parse_bool(at)
        } else if (0x30 <= b && b <= 0x39) || b == MINUS {
            self.parse_number(at)
        } else if b == QUOTE {
            match self.parse_string(at) {
                Ok((t, end)) => Ok((Value::String(t), end)),
                Err(e) => Err(e),
            }
        } else if b == OPEN_BRACKET {
            self.parse_array(at)
        } else if b == OPEN_BRACE {
            self.parse_object(at)
        } else {
            Err(Error::UnexpectedChar(at))
        }
    }

    /// Reads the value at the cursor and moves the cursor behind it. Where the
    /// text holds no value there, the cursor stays and the failure is handed
    /// back.
    pub fn parse(&mut self) -> (r: Result<Value, Error>)
        ensures
            final(self).text() == old(self).text(),
            match value_at(old(self).text(), old(self).cursor()) {
                Ok((j, end)) => r matches Ok(v) && v@ == j && final(self).cursor() == end,
                Err(e) => r == Err::<Value, Error>(e) && final(self).cursor() == old(self).cursor(),
            },
    {
        proof {
            use_type_invariant(&*self);
        }
        match self.parse_value(self.pos) {
            Ok((v, end)) => {
                self.pos = end;
                Ok(v)
            },
            Err(e) => Err(e),
        }
    }
}

} // verus!
