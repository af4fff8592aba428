//! String literals: what escaping writes is what unescaping reads.

use vstd::prelude::*;
use vstd::utf8::*;
use crate::error::Error;
use crate::grammar::{
    closing_quote, escape_meaning, next_char_start, prepend, string_at, unescape, BACKSLASH,
    CLOSE_BRACE, CLOSE_BRACKET, OPEN_BRACE, OPEN_BRACKET, QUOTE,
};
use crate::laws::{bracket_free, is_counted};
use crate::laws::brackets::{lemma_plain_concat, plain};
use crate::laws::standing::{lemma_stands_concat, lemma_stands_index, stands_at};
use crate::render::{escape, escape_one, quoted};
use crate::text::{lemma_ascii_byte, lemma_encode_char, lemma_encode_concat};

verus! {

/// Unescaping what escaping made gives the text back.
pub proof fn lemma_unescape_escape(t: Seq<char>)
    ensures
        unescape(escape(t)) == Ok::<Seq<char>, Error>(t),
    decreases t.len(),
{
    if t.len() == 0 {
        assert(t =~= Seq::<char>::empty());
    } else {
        let c = t[0];
        let rest = t.skip(1);
        lemma_unescape_escape(rest);
        let e = escape(t);
        assert(e == escape_one(c) + escape(rest));
        assert(seq![c] + rest =~= t);
        if escape_one(c).len() == 2 {
            assert(e.len() >= 2);
            assert(e[0] == escape_one(c)[0]);
            assert(e[1] == escape_one(c)[1]);
            assert(e[0] == '\\');
            assert(escape_meaning(e[1]) == Some(c));
            assert(e.skip(2) =~= escape(rest));
            assert(unescape(e) == prepend(seq![c], unescape(e.skip(2))));
        } else {
            assert(escape_one(c) == seq![c]);
            assert(e[0] == c);
            assert(c != '\\');
            assert(e.skip(1) =~= escape(rest));
            assert(unescape(e) == prepend(seq![c], unescape(e.skip(1))));
        }
    }
}

/// Bytes that are neither quote nor backslash do not end a string.
pub proof fn lemma_scan_plain(s: Seq<u8>, pos: int, n: int)
    requires
        0 <= pos,
        0 <= n,
        pos + n <= s.len(),
        forall|i: int| pos <= i < pos + n ==> #[trigger] s[i] != QUOTE && s[i] != BACKSLASH,
    ensures
        closing_quote(s, pos, false) == closing_quote(s, pos + n, false),
    decreases n,
{
    if n > 0 {
        assert(s[pos] != QUOTE && s[pos] != BACKSLASH);
        lemma_scan_plain(s, pos + 1, n - 1);
    }
}

/// The bytes of an escaped text do not end a string.
pub proof fn lemma_scan_escaped(s: Seq<u8>, pos: int, t: Seq<char>)
    requires
        stands_at(s, pos, encode_utf8(escape(t))),
    ensures
        closing_quote(s, pos, false) == closing_quote(
            s,
            pos + encode_utf8(escape(t)).len(),
            false,
        ),
    decreases t.len(),
{
    if t.len() == 0 {
        assert(escape(t) =~= Seq::<char>::empty());
    } else {
        let c = t[0];
        let rest = t.skip(1);
        let head = encode_utf8(escape_one(c));
        let tail = encode_utf8(escape(rest));
        lemma_encode_concat(escape_one(c), escape(rest));
        lemma_stands_concat(s, pos, head, tail);
        lemma_scan_escaped(s, pos + head.len(), rest);
        if escape_one(c).len() == 2 {
            let x = escape_one(c)[1];
            assert(escape_one(c) =~= seq!['\\'] + seq![x]);
            lemma_encode_concat(seq!['\\'], seq![x]);
            lemma_encode_char('\\');
            lemma_encode_char(x);
            assert(head =~= seq![BACKSLASH, x as u8]);
            lemma_stands_index(s, pos, head, 0);
            lemma_stands_index(s, pos, head, 1);
            assert(closing_quote(s, pos, false) == closing_quote(s, pos + 1, true));
            assert(closing_quote(s, pos + 1, true) == closing_quote(s, pos + 2, false));
        } else {
            assert(escape_one(c) == seq![c]);
            lemma_encode_char(c);
            let single = encode_utf8(seq![c]);
            assert(head == single);
            assert(c != '"' && c != '\\') by {
                if c == '"' || c == '\\' {
                    assert(escape_one(c).len() == 2);
                }
            }
            assert forall|i: int| pos <= i < pos + head.len() implies #[trigger] s[i] != QUOTE
                && s[i] != BACKSLASH by {
                lemma_stands_index(s, pos, head, i - pos);
                assert(s[i] == single[i - pos]);
                if (c as u32) < 0x80 {
                    assert(i == pos);
                    assert(single[0] == c as u8);
                    lemma_ascii_byte(c, QUOTE);
                    lemma_ascii_byte(c, BACKSLASH);
                } else {
                    assert(single[i - pos] >= 0x80);
                }
            }
            lemma_scan_plain(s, pos, head.len() as int);
        }
    }
}

/// A string literal is read back as the text that it was made of.
pub proof fn lemma_string_reads_back(s: Seq<u8>, pos: int, t: Seq<char>)
    requires
        stands_at(s, pos, encode_utf8(quoted(t))),
    ensures
        string_at(s, pos) == Ok::<(Seq<char>, int), Error>(
            (t, pos + encode_utf8(quoted(t)).len()),
        ),
{
    let content = encode_utf8(escape(t));
    let open = encode_utf8(seq!['"']);
    lemma_encode_char('"');
    assert(open == seq![QUOTE]);
    lemma_encode_concat(seq!['"'] + escape(t), seq!['"']);
    lemma_encode_concat(seq!['"'], escape(t));
    assert(encode_utf8(quoted(t)) == open + content + open);
    lemma_stands_concat(s, pos, open + content, open);
    lemma_stands_concat(s, pos, open, content);
    let start = pos + 1;
    let close = start + content.len();
    lemma_stands_index(s, pos, open, 0);
    lemma_stands_index(s, close, open, 0);
    assert(s[close] == QUOTE);
    // the content starts with the first byte of a character, or is empty
    assert(!is_continuation_byte(s[start])) by {
        if content.len() > 0 {
            let e = escape(t);
            assert(e.len() > 0) by {
                if e.len() == 0 {
                    assert(content =~= Seq::<u8>::empty());
                }
            }
            assert(e =~= seq![e[0]] + e.drop_first());
            lemma_encode_concat(seq![e[0]], e.drop_first());
            lemma_encode_char(e[0]);
            lemma_stands_index(s, start, content, 0);
        }
    }
    assert(next_char_start(s, start) == start);
    lemma_scan_escaped(s, start, t);
    assert(closing_quote(s, close, false) == Some(close));
    assert(s.subrange(start, close) == content);
    encode_utf8_decode_utf8(escape(t));
    lemma_unescape_escape(t);
}

/// A character that is no counted bracket has no byte of one.
pub proof fn lemma_plain_char(c: char, in_array: bool, in_object: bool)
    requires
        !is_counted(c, in_array, in_object),
    ensures
        plain(encode_utf8(seq![c]), in_array, in_object),
{
    lemma_encode_char(c);
    lemma_ascii_byte(c, OPEN_BRACKET);
    lemma_ascii_byte(c, CLOSE_BRACKET);
    lemma_ascii_byte(c, OPEN_BRACE);
    lemma_ascii_byte(c, CLOSE_BRACE);
    let e = encode_utf8(seq![c]);
    assert forall|i: int| 0 <= i < e.len() implies (in_array ==> #[trigger] e[i] != OPEN_BRACKET
        && e[i] != CLOSE_BRACKET) && (in_object ==> e[i] != OPEN_BRACE && e[i] != CLOSE_BRACE) by {
        if (c as u32) >= 0x80 {
            assert(e[i] >= 0x80);
        }
    }
}

/// A text without counted brackets has no byte of one.
pub proof fn lemma_plain_text(t: Seq<char>, in_array: bool, in_object: bool)
    requires
        bracket_free(t, in_array, in_object),
    ensures
        plain(encode_utf8(t), in_array, in_object),
    decreases t.len(),
{
    if t.len() > 0 {
        assert(t =~= seq![t[0]] + t.drop_first());
        lemma_encode_concat(seq![t[0]], t.drop_first());
        lemma_plain_char(t[0], in_array, in_object);
        assert(bracket_free(t.drop_first(), in_array, in_object)) by {
            assert forall|i: int| 0 <= i < t.drop_first().len() implies !is_counted(
                #[trigger] t.drop_first()[i],
                in_array,
                in_object,
            ) by {
                assert(t.drop_first()[i] == t[i + 1]);
            }
        }
        lemma_plain_text(t.drop_first(), in_array, in_object);
        lemma_plain_concat(
            encode_utf8(seq![t[0]]),
            encode_utf8(t.drop_first()),
            in_array,
            in_object,
        );
    }
}

/// Escaping brings no bracket into a text.
pub proof fn lemma_escape_bracket_free(t: Seq<char>, in_array: bool, in_object: bool)
    requires
        bracket_free(t, in_array, in_object),
    ensures
        bracket_free(escape(t), in_array, in_object),
    decreases t.len(),
{
    if t.len() > 0 {
        assert(bracket_free(t.skip(1), in_array, in_object)) by {
            assert forall|i: int| 0 <= i < t.skip(1).len() implies !is_counted(
                #[trigger] t.skip(1)[i],
                in_array,
                in_object,
            ) by {
                assert(t.skip(1)[i] == t[i + 1]);
            }
        }
        lemma_escape_bracket_free(t.skip(1), in_array, in_object);
        let head = escape_one(t[0]);
        let tail = escape(t.skip(1));
        assert(!is_counted(t[0], in_array, in_object));
        assert forall|i: int| 0 <= i < (head + tail).len() implies !is_counted(
            #[trigger] (head + tail)[i],
            in_array,
            in_object,
        ) by {
            if i < head.len() {
                assert((head + tail)[i] == head[i]);
            } else {
                assert((head + tail)[i] == tail[i - head.len()]);
            }
        }
    }
}

/// A string literal of a text without counted brackets has no byte of one.
pub proof fn lemma_quoted_plain(t: Seq<char>, in_array: bool, in_object: bool)
    requires
        bracket_free(t, in_array, in_object),
    ensures
        plain(encode_utf8(quoted(t)), in_array, in_object),
{
    lemma_escape_bracket_free(t, in_array, in_object);
    let q = quoted(t);
    assert forall|i: int| 0 <= i < q.len() implies !is_counted(
        #[trigger] q[i],
        in_array,
        in_object,
    ) by {
        if 0 < i <= escape(t).len() {
            assert(q[i] == escape(t)[i - 1]);
        }
    }
    lemma_plain_text(q, in_array, in_object);
}

} // verus!
