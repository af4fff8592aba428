//! Trees in containers: every part of a text is read back where it stands.

use vstd::prelude::*;
use vstd::utf8::*;
use crate::error::Error;
use crate::grammar::{
    ends_number, array_at, elements_from, first_unskippable, is_skippable, lemma_literal_at, literal_at,
    matching_close, member_at, members_from, moved, object_at, skip_whitespace, value_at, word_alse,
    word_null, word_rue, CLOSE_BRACE, CLOSE_BRACKET, COLON, COMMA, LETTER_F, LETTER_N, LETTER_T,
    OPEN_BRACE, OPEN_BRACKET, QUOTE,
};
use crate::laws::{bracket_free, bytes_of, nestable};
use crate::laws::brackets::{
    balanced, lemma_balanced_array, lemma_balanced_concat, lemma_balanced_object,
    lemma_balanced_plain, lemma_close_skip, plain,
};
use crate::laws::numbers::{lemma_number_reads_back, lemma_number_text};
use crate::laws::standing::{lemma_stands_concat, lemma_stands_index, stands_at};
use crate::laws::strings::{lemma_quoted_plain, lemma_string_reads_back};
use crate::model::{is_sorted, key_lt, lemma_place, place, put, Json, Members};
use crate::render::{escape, items_text, members_text, quoted, render, separator};
use crate::text::{ascii_text, lemma_encode_ascii, lemma_encode_char, lemma_encode_concat};

verus! {

/// The bytes of the comma-separated texts of the first `n` items.
pub open spec fn items_bytes(items: Seq<Json>, n: nat) -> Seq<u8> {
    encode_utf8(items_text(items, n))
}

/// The bytes of the comma-separated texts of the first `n` members.
pub open spec fn members_bytes(m: Members, n: nat) -> Seq<u8> {
    encode_utf8(members_text(m, n))
}

/// The bytes of the three words.
pub proof fn lemma_words()
    ensures
        encode_utf8("null"@) == word_null(),
        encode_utf8("true"@) == seq![LETTER_T] + word_rue(),
        encode_utf8("false"@) == seq![LETTER_F] + word_alse(),
{
    reveal_strlit("null");
    reveal_strlit("true");
    reveal_strlit("false");
    assert("null"@ =~= ascii_text(word_null()));
    lemma_encode_ascii(word_null());
    assert("true"@ =~= ascii_text(seq![LETTER_T] + word_rue()));
    lemma_encode_ascii(seq![LETTER_T] + word_rue());
    assert("false"@ =~= ascii_text(seq![LETTER_F] + word_alse()));
    lemma_encode_ascii(seq![LETTER_F] + word_alse());
}

/// The bytes of what stands in front of the `n`th part of a container.
pub proof fn lemma_separator(n: nat)
    ensures
        encode_utf8(separator(n)) == if n > 1 {
            seq![COMMA]
        } else {
            Seq::<u8>::empty()
        },
        plain(encode_utf8(separator(n)), true, true),
{
    if n > 1 {
        lemma_encode_char(',');
    }
}

/// The bytes of the first `n + 1` items are those of the first `n`, the
/// separator and the next item.
pub proof fn lemma_items_step(items: Seq<Json>, n: nat)
    requires
        n < items.len(),
    ensures
        items_bytes(items, n + 1) == items_bytes(items, n) + encode_utf8(separator(n + 1))
            + bytes_of(items[n as int]),
{
    lemma_encode_concat(items_text(items, n) + separator(n + 1), render(items[n as int]));
    lemma_encode_concat(items_text(items, n), separator(n + 1));
}

/// The bytes of the first `n + 1` members are those of the first `n`, the
/// separator, the quoted key, a colon and the value.
pub proof fn lemma_members_step(m: Members, n: nat)
    requires
        n < m.len(),
    ensures
        members_bytes(m, n + 1) == members_bytes(m, n) + encode_utf8(separator(n + 1))
            + encode_utf8(quoted(m[n as int].0)) + seq![COLON] + bytes_of(m[n as int].1),
{
    let a = members_text(m, n);
    let b = separator(n + 1);
    let c = quoted(m[n as int].0);
    let d = seq![':'];
    let e = render(m[n as int].1);
    lemma_encode_concat(a + b + c + d, e);
    lemma_encode_concat(a + b + c, d);
    lemma_encode_concat(a + b, c);
    lemma_encode_concat(a, b);
    lemma_encode_char(':');
}

/// The counted brackets of a nestable tree match.
pub proof fn lemma_balanced(j: Json, in_array: bool, in_object: bool)
    requires
        nestable(j, in_array, in_object),
    ensures
        balanced(bytes_of(j), in_array, in_object),
    decreases j, 0nat,
{
    match j {
        Json::Null => {
            lemma_words();
            lemma_balanced_plain(bytes_of(j), in_array, in_object);
        },
        Json::Bool(b) => {
            lemma_words();
            lemma_balanced_plain(bytes_of(j), in_array, in_object);
        },
        Json::Number(n) => {
            lemma_number_text(n);
            lemma_balanced_plain(bytes_of(j), in_array, in_object);
        },
        Json::String(t) => {
            lemma_quoted_plain(t, in_array, in_object);
            lemma_balanced_plain(bytes_of(j), in_array, in_object);
        },
        Json::Array(items) => {
            lemma_items_balanced(items, items.len(), in_object);
            let body = items_bytes(items, items.len());
            lemma_encode_concat(seq!['['] + items_text(items, items.len()), seq![']']);
            lemma_encode_concat(seq!['['], items_text(items, items.len()));
            lemma_encode_char('[');
            lemma_encode_char(']');
            lemma_balanced_array(body, in_object);
        },
        Json::Object(m) => {
            lemma_members_balanced(m, m.len(), in_array);
            let body = members_bytes(m, m.len());
            lemma_encode_concat(seq!['{'] + members_text(m, m.len()), seq!['}']);
            lemma_encode_concat(seq!['{'], members_text(m, m.len()));
            lemma_encode_char('{');
            lemma_encode_char('}');
            lemma_balanced_object(body, in_array);
        },
    }
}

/// The counted brackets of the items of an array match.
pub proof fn lemma_items_balanced(items: Seq<Json>, n: nat, in_object: bool)
    requires
        n <= items.len(),
        forall|i: int| 0 <= i < items.len() ==> nestable(#[trigger] items[i], true, in_object),
    ensures
        balanced(items_bytes(items, n), true, in_object),
    decreases items, n,
{
    if n == 0 {
        lemma_balanced_plain(items_bytes(items, n), true, in_object);
    } else {
        let k = (n - 1) as nat;
        lemma_items_balanced(items, k, in_object);
        lemma_balanced(items[k as int], true, in_object);
        lemma_items_step(items, k);
        lemma_separator(n);
        lemma_balanced_plain(encode_utf8(separator(n)), true, in_object);
        lemma_balanced_concat(
            items_bytes(items, k),
            encode_utf8(separator(n)),
            true,
            in_object,
        );
        lemma_balanced_concat(
            items_bytes(items, k) + encode_utf8(separator(n)),
            bytes_of(items[k as int]),
            true,
            in_object,
        );
    }
}

/// The counted brackets of the members of an object match.
pub proof fn lemma_members_balanced(m: Members, n: nat, in_array: bool)
    requires
        n <= m.len(),
        forall|i: int|
            0 <= i < m.len() ==> bracket_free((#[trigger] m[i]).0, in_array, true) && nestable(
                m[i].1,
                in_array,
                true,
            ),
    ensures
        balanced(members_bytes(m, n), in_array, true),
    decreases m, n,
{
    if n == 0 {
        lemma_balanced_plain(members_bytes(m, n), in_array, true);
    } else {
        let k = (n - 1) as nat;
        lemma_members_balanced(m, k, in_array);
        lemma_balanced(m[k as int].1, in_array, true);
        lemma_members_step(m, k);
        lemma_separator(n);
        lemma_quoted_plain(m[k as int].0, in_array, true);
        let a = members_bytes(m, k);
        let b = encode_utf8(separator(n));
        let c = encode_utf8(quoted(m[k as int].0));
        let d = seq![COLON];
        let e = bytes_of(m[k as int].1);
        lemma_balanced_plain(b, in_array, true);
        lemma_balanced_plain(c, in_array, true);
        lemma_balanced_plain(d, in_array, true);
        lemma_balanced_concat(a, b, in_array, true);
        lemma_balanced_concat(a + b, c, in_array, true);
        lemma_balanced_concat(a + b + c, d, in_array, true);
        lemma_balanced_concat(a + b + c + d, e, in_array, true);
    }
}

/// The cursor stays on a byte that is not skipped, and goes from a comma to
/// such a byte behind it.
pub proof fn lemma_skip_to(s: Seq<u8>, pos: int)
    requires
        0 <= pos < s.len(),
        !is_skippable(s[pos]),
    ensures
        skip_whitespace(s, pos) == pos,
        pos >= 1 && s[pos - 1] == COMMA ==> skip_whitespace(s, pos - 1) == pos,
{
    if pos >= 1 && s[pos - 1] == COMMA {
        assert(first_unskippable(s, pos - 1) == first_unskippable(s, pos));
    }
}

/// The text of a nestable tree holds a byte.
pub proof fn lemma_nonempty(j: Json, in_array: bool, in_object: bool)
    requires
        nestable(j, in_array, in_object),
    ensures
        bytes_of(j).len() >= 1,
{
    match j {
        Json::Number(n) => lemma_number_text(n),
        _ => lemma_first_byte(j),
    }
}

/// The text of a tree that is no number starts with the byte that tells its
/// kind.
pub proof fn lemma_first_byte(j: Json)
    requires
        !(j is Number),
    ensures
        bytes_of(j).len() >= 2,
        bytes_of(j)[0] == match j {
            Json::Null => LETTER_N,
            Json::Bool(b) => if b {
                LETTER_T
            } else {
                LETTER_F
            },
            Json::String(_) => QUOTE,
            Json::Array(_) => OPEN_BRACKET,
            Json::Object(_) => OPEN_BRACE,
            Json::Number(_) => 0u8,
        },
{
    match j {
        Json::Null => lemma_words(),
        Json::Bool(_) => lemma_words(),
        Json::Number(_) => {},
        Json::String(t) => {
            lemma_encode_concat(seq!['"'] + escape(t), seq!['"']);
            lemma_encode_concat(seq!['"'], escape(t));
            lemma_encode_char('"');
        },
        Json::Array(items) => {
            lemma_encode_concat(seq!['['] + items_text(items, items.len()), seq![']']);
            lemma_encode_concat(seq!['['], items_text(items, items.len()));
            lemma_encode_char('[');
            lemma_encode_char(']');
        },
        Json::Object(m) => {
            lemma_encode_concat(seq!['{'] + members_text(m, m.len()), seq!['}']);
            lemma_encode_concat(seq!['{'], members_text(m, m.len()));
            lemma_encode_char('{');
            lemma_encode_char('}');
        },
    }
}

/// Where the texts of all the items stand, those of the first `k` stand, and
/// behind them the separator and the text of the next item.
pub proof fn lemma_items_prefix(s: Seq<u8>, start: int, items: Seq<Json>, k: nat)
    requires
        stands_at(s, start, items_bytes(items, items.len())),
        k <= items.len(),
    ensures
        stands_at(s, start, items_bytes(items, k)),
        k < items.len() ==> stands_at(
            s,
            start + items_bytes(items, k).len(),
            encode_utf8(separator(k + 1)),
        ) && stands_at(
            s,
            start + items_bytes(items, k).len() + encode_utf8(separator(k + 1)).len(),
            bytes_of(items[k as int]),
        ) && items_bytes(items, k + 1).len() == items_bytes(items, k).len() + encode_utf8(
            separator(k + 1),
        ).len() + bytes_of(items[k as int]).len() && items_bytes(items, k + 1).len()
            <= items_bytes(items, items.len()).len(),
    decreases items.len() - k,
{
    if k < items.len() {
        lemma_items_prefix(s, start, items, k + 1);
        lemma_items_step(items, k);
        let a = items_bytes(items, k);
        let b = encode_utf8(separator(k + 1));
        let c = bytes_of(items[k as int]);
        lemma_stands_concat(s, start, a + b, c);
        lemma_stands_concat(s, start, a, b);
    }
}

/// Where the texts of all the members stand, those of the first `k` stand,
/// and behind them the separator, the key, the colon and the value of the
/// next member.
pub proof fn lemma_members_prefix(s: Seq<u8>, start: int, m: Members, k: nat)
    requires
        stands_at(s, start, members_bytes(m, m.len())),
        k <= m.len(),
    ensures
        stands_at(s, start, members_bytes(m, k)),
        k < m.len() ==> ({
            let at_sep = start + members_bytes(m, k).len();
            let at_key = at_sep + encode_utf8(separator(k + 1)).len();
            let at_colon = at_key + encode_utf8(quoted(m[k as int].0)).len();
            &&& stands_at(s, at_sep, encode_utf8(separator(k + 1)))
            &&& stands_at(s, at_key, encode_utf8(quoted(m[k as int].0)))
            &&& stands_at(s, at_colon, seq![COLON])
            &&& stands_at(s, at_colon + 1, bytes_of(m[k as int].1))
            &&& start + members_bytes(m, k + 1).len() == at_colon + 1 + bytes_of(m[k as int].1).len()
            &&& members_bytes(m, k + 1).len() <= members_bytes(m, m.len()).len()
        }),
    decreases m.len() - k,
{
    if k < m.len() {
        lemma_members_prefix(s, start, m, k + 1);
        lemma_members_step(m, k);
        let a = members_bytes(m, k);
        let b = encode_utf8(separator(k + 1));
        let c = encode_utf8(quoted(m[k as int].0));
        let d = seq![COLON];
        let e = bytes_of(m[k as int].1);
        lemma_stands_concat(s, start, a + b + c + d, e);
        lemma_stands_concat(s, start, a + b + c, d);
        lemma_stands_concat(s, start, a + b, c);
        lemma_stands_concat(s, start, a, b);
    }
}

/// A member whose key is above all the keys comes last.
pub proof fn lemma_put_last(m: Members, k: Seq<char>, v: Json)
    requires
        is_sorted(m),
        forall|i: int| 0 <= i < m.len() ==> key_lt((#[trigger] m[i]).0, k),
    ensures
        put(m, k, v) == m.push((k, v)),
{
    lemma_place(m, k);
    let p = place(m, k);
    if p < m.len() {
        assert(key_lt(m[p].0, k));
        assert(!key_lt(m[p].0, k));
    }
    assert(m.insert(p, (k, v)) =~= m.push((k, v)));
}

/// A nestable tree is read back from its text, wherever the text stands, and
/// also from a comma in front of it.
pub proof fn lemma_reads_back(s: Seq<u8>, pos: int, j: Json, in_array: bool, in_object: bool)
    requires
        nestable(j, in_array, in_object),
        stands_at(s, pos, bytes_of(j)),
        j is Number && pos + bytes_of(j).len() < s.len() ==> ends_number(
            s[pos + bytes_of(j).len()],
        ),
    ensures
        value_at(s, pos) == Ok::<(Json, int), Error>((j, pos + bytes_of(j).len())),
        pos >= 1 && s[pos - 1] == COMMA ==> value_at(s, pos - 1) == Ok::<(Json, int), Error>(
            (j, pos + bytes_of(j).len()),
        ),
    decreases j, 0nat,
{
    let x = bytes_of(j);
    if let Json::Number(n) = j {
        lemma_number_reads_back(s, pos, n);
        return ;
    }
    lemma_first_byte(j);
    lemma_stands_index(s, pos, x, 0);
    lemma_skip_to(s, pos);
    match j {
        Json::Null => {
            lemma_words();
            lemma_literal_at(s, pos, word_null());
        },
        Json::Bool(b) => {
            lemma_words();
            if b {
                lemma_stands_concat(s, pos, seq![LETTER_T], word_rue());
                lemma_literal_at(s, pos + 1, word_rue());
            } else {
                lemma_stands_concat(s, pos, seq![LETTER_F], word_alse());
                lemma_literal_at(s, pos + 1, word_alse());
            }
        },
        Json::Number(_) => {},
        Json::String(t) => {
            lemma_string_reads_back(s, pos, t);
        },
        Json::Array(items) => {
            let n = items.len();
            let body = items_bytes(items, n);
            lemma_encode_concat(seq!['['] + items_text(items, n), seq![']']);
            lemma_encode_concat(seq!['['], items_text(items, n));
            lemma_encode_char('[');
            lemma_encode_char(']');
            assert(x == seq![OPEN_BRACKET] + body + seq![CLOSE_BRACKET]);
            lemma_stands_concat(s, pos, seq![OPEN_BRACKET] + body, seq![CLOSE_BRACKET]);
            lemma_stands_concat(s, pos, seq![OPEN_BRACKET], body);
            let start = pos + 1;
            let close = start + body.len();
            lemma_stands_index(s, close, seq![CLOSE_BRACKET], 0);
            lemma_items_balanced(items, n, in_object);
            lemma_close_skip(s, start, 1, body, 0, OPEN_BRACKET, CLOSE_BRACKET);
            assert(body.take(0) =~= Seq::<u8>::empty());
            assert(matching_close(s, start, 1, OPEN_BRACKET, CLOSE_BRACKET) == Some(close));
            lemma_elements_read_back(s, start, items, 0, in_object);
            assert(items.take(0) =~= Seq::<Json>::empty());
            assert(array_at(s, pos) == Ok::<(Json, int), Error>((j, close + 1)));
        },
        Json::Object(m) => {
            let n = m.len();
            let body = members_bytes(m, n);
            lemma_encode_concat(seq!['{'] + members_text(m, n), seq!['}']);
            lemma_encode_concat(seq!['{'], members_text(m, n));
            lemma_encode_char('{');
            lemma_encode_char('}');
            assert(x == seq![OPEN_BRACE] + body + seq![CLOSE_BRACE]);
            lemma_stands_concat(s, pos, seq![OPEN_BRACE] + body, seq![CLOSE_BRACE]);
            lemma_stands_concat(s, pos, seq![OPEN_BRACE], body);
            let start = pos + 1;
            let close = start + body.len();
            lemma_stands_index(s, close, seq![CLOSE_BRACE], 0);
            lemma_members_balanced(m, n, in_array);
            lemma_close_skip(s, start, 1, body, 0, OPEN_BRACE, CLOSE_BRACE);
            assert(body.take(0) =~= Seq::<u8>::empty());
            assert(matching_close(s, start, 1, OPEN_BRACE, CLOSE_BRACE) == Some(close));
            lemma_members_read_back(s, start, m, 0, in_array);
            assert(m.take(0) =~= Members::empty());
            assert(object_at(s, pos) == Ok::<(Json, int), Error>((j, close + 1)));
        },
    }
}

/// The items of an array are read back one after the other, up to the
/// closing bracket.
pub proof fn lemma_elements_read_back(
    s: Seq<u8>,
    start: int,
    items: Seq<Json>,
    k: nat,
    in_object: bool,
)
    requires
        forall|i: int| 0 <= i < items.len() ==> nestable(#[trigger] items[i], true, in_object),
        stands_at(s, start, items_bytes(items, items.len())),
        start + items_bytes(items, items.len()).len() < s.len(),
        ends_number(s[start + items_bytes(items, items.len()).len()]),
        k <= items.len(),
    ensures
        elements_from(
            s,
            start + items_bytes(items, k).len(),
            start + items_bytes(items, items.len()).len(),
            items.take(k as int),
        ) == Ok::<(Seq<Json>, int), Error>(
            (items, start + items_bytes(items, items.len()).len()),
        ),
    decreases items, items.len() - k,
{
    let n = items.len();
    let close = start + items_bytes(items, n).len();
    let cur = start + items_bytes(items, k).len();
    lemma_items_prefix(s, start, items, k);
    if k == n {
        assert(items.take(k as int) =~= items);
    } else {
        let item = items[k as int];
        let sep = encode_utf8(separator(k + 1));
        lemma_separator(k + 1);
        let at = cur + sep.len();
        let next = at + bytes_of(item).len();
        lemma_nonempty(item, true, in_object);
        lemma_items_prefix(s, start, items, k + 1);
        if k + 1 < n {
            lemma_separator(k + 2);
            lemma_stands_index(s, next, encode_utf8(separator(k + 2)), 0);
        }
        lemma_reads_back(s, at, item, true, in_object);
        assert(next == start + items_bytes(items, k + 1).len());
        if k >= 1 {
            lemma_stands_index(s, cur, sep, 0);
            assert(s[at - 1] == COMMA);
        }
        assert(value_at(s, cur) == Ok::<(Json, int), Error>((item, next)));
        assert(moved(s, cur, next));
        lemma_elements_read_back(s, start, items, k + 1, in_object);
        assert(items.take(k as int).push(item) =~= items.take(k as int + 1));
    }
}

/// The members of an object are read back one after the other, up to the
/// closing brace.
pub proof fn lemma_members_read_back(
    s: Seq<u8>,
    start: int,
    m: Members,
    k: nat,
    in_array: bool,
)
    requires
        is_sorted(m),
        forall|i: int|
            0 <= i < m.len() ==> bracket_free((#[trigger] m[i]).0, in_array, true) && nestable(
                m[i].1,
                in_array,
                true,
            ),
        stands_at(s, start, members_bytes(m, m.len())),
        start + members_bytes(m, m.len()).len() < s.len(),
        ends_number(s[start + members_bytes(m, m.len()).len()]),
        k <= m.len(),
    ensures
        members_from(
            s,
            start + members_bytes(m, k).len(),
            start + members_bytes(m, m.len()).len(),
            m.take(k as int),
        ) == Ok::<(Members, int), Error>((m, start + members_bytes(m, m.len()).len())),
    decreases m, m.len() - k,
{
    let n = m.len();
    let close = start + members_bytes(m, n).len();
    let cur = start + members_bytes(m, k).len();
    lemma_members_prefix(s, start, m, k);
    if k == n {
        assert(m.take(k as int) =~= m);
    } else {
        let key = m[k as int].0;
        let value = m[k as int].1;
        let sep = encode_utf8(separator(k + 1));
        lemma_separator(k + 1);
        let at_key = cur + sep.len();
        let quoted_key = encode_utf8(quoted(key));
        let at_colon = at_key + quoted_key.len();
        lemma_encode_concat(seq!['"'] + escape(key), seq!['"']);
        lemma_encode_concat(seq!['"'], escape(key));
        lemma_encode_char('"');
        lemma_stands_index(s, at_key, quoted_key, 0);
        assert(s[at_key] == QUOTE);
        lemma_skip_to(s, at_key);
        if k >= 1 {
            lemma_stands_index(s, cur, sep, 0);
        }
        assert(skip_whitespace(s, cur) == at_key);
        lemma_string_reads_back(s, at_key, key);
        lemma_stands_index(s, at_colon, seq![COLON], 0);
        lemma_skip_to(s, at_colon);
        lemma_literal_at(s, at_colon, seq![COLON]);
        assert(literal_at(s, at_colon, seq![COLON]) == Ok::<int, Error>(at_colon + 1));
        let next = at_colon + 1 + bytes_of(value).len();
        lemma_members_prefix(s, start, m, k + 1);
        if k + 1 < n {
            lemma_separator(k + 2);
            lemma_stands_index(s, next, encode_utf8(separator(k + 2)), 0);
        }
        lemma_reads_back(s, at_colon + 1, value, in_array, true);
        assert(member_at(s, cur) == Ok::<((Seq<char>, Json), int), Error>(((key, value), next)));
        assert(moved(s, cur, next));
        lemma_members_read_back(s, start, m, k + 1, in_array);
        let before = m.take(k as int);
        assert(is_sorted(before));
        assert forall|i: int| 0 <= i < before.len() implies key_lt((#[trigger] before[i]).0, key) by {
            assert(before[i] == m[i]);
        }
        lemma_put_last(before, key, value);
        assert(before.push((key, value)) =~= m.take(k as int + 1));
    }
}

} // verus!
