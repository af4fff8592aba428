//! Brackets that match: what the search for a closing bracket passes over.

use vstd::prelude::*;
use crate::grammar::{
    bracket_step, matching_close, CLOSE_BRACE, CLOSE_BRACKET, OPEN_BRACE, OPEN_BRACKET,
};
use crate::laws::standing::{lemma_stands_index, stands_at};

verus! {

/// What the bytes of `x` add to the count of open containers.
pub open spec fn net(x: Seq<u8>, open: u8, close: u8) -> int
    decreases x.len(),
{
    if x.len() == 0 {
        0
    } else {
        net(x.drop_last(), open, close) + bracket_step(x.last(), open, close)
    }
}

/// The brackets of `x` match: every closing one has its opening one in front
/// of it, and none stays open.
pub open spec fn neutral(x: Seq<u8>, open: u8, close: u8) -> bool {
    &&& net(x, open, close) == 0
    &&& forall|k: int| 0 <= k <= x.len() ==> net(#[trigger] x.take(k), open, close) >= 0
}

/// Neither bracket stands in `x`.
pub open spec fn lacks(x: Seq<u8>, open: u8, close: u8) -> bool {
    forall|i: int| 0 <= i < x.len() ==> #[trigger] x[i] != open && x[i] != close
}

/// No bracket that is counted stands in `x`: no square bracket where the
/// text stands in an array, no brace where it stands in an object.
pub open spec fn plain(x: Seq<u8>, in_array: bool, in_object: bool) -> bool {
    &&& in_array ==> lacks(x, OPEN_BRACKET, CLOSE_BRACKET)
    &&& in_object ==> lacks(x, OPEN_BRACE, CLOSE_BRACE)
}

/// The brackets that are counted match: the square brackets where the text
/// stands in an array, the braces where it stands in an object.
pub open spec fn balanced(x: Seq<u8>, in_array: bool, in_object: bool) -> bool {
    &&& in_array ==> neutral(x, OPEN_BRACKET, CLOSE_BRACKET)
    &&& in_object ==> neutral(x, OPEN_BRACE, CLOSE_BRACE)
}

/// The count of brackets over two texts in a row is the sum of the counts.
pub proof fn lemma_net_concat(a: Seq<u8>, b: Seq<u8>, open: u8, close: u8)
    ensures
        net(a + b, open, close) == net(a, open, close) + net(b, open, close),
    decreases b.len(),
{
    if b.len() == 0 {
        assert(a + b =~= a);
    } else {
        lemma_net_concat(a, b.drop_last(), open, close);
        assert((a + b).drop_last() =~= a + b.drop_last());
        assert((a + b).last() == b.last());
    }
}

/// Two texts whose brackets match make one in a row.
pub proof fn lemma_neutral_concat(a: Seq<u8>, b: Seq<u8>, open: u8, close: u8)
    requires
        neutral(a, open, close),
        neutral(b, open, close),
    ensures
        neutral(a + b, open, close),
{
    lemma_net_concat(a, b, open, close);
    assert forall|k: int| 0 <= k <= (a + b).len() implies net(
        #[trigger] (a + b).take(k),
        open,
        close,
    ) >= 0 by {
        if k <= a.len() {
            assert((a + b).take(k) =~= a.take(k));
        } else {
            assert((a + b).take(k) =~= a + b.take(k - a.len()));
            lemma_net_concat(a, b.take(k - a.len()), open, close);
        }
    }
}

/// Where no bracket stands, the brackets match.
pub proof fn lemma_neutral_lacks(x: Seq<u8>, open: u8, close: u8)
    requires
        lacks(x, open, close),
    ensures
        neutral(x, open, close),
        net(x, open, close) == 0,
    decreases x.len(),
{
    if x.len() > 0 {
        assert(lacks(x.drop_last(), open, close)) by {
            assert forall|i: int| 0 <= i < x.drop_last().len() implies #[trigger] x.drop_last()[i]
                != open && x.drop_last()[i] != close by {
                assert(x.drop_last()[i] == x[i]);
            }
        }
        lemma_neutral_lacks(x.drop_last(), open, close);
        assert(x.last() == x[x.len() - 1]);
        assert forall|k: int| 0 <= k <= x.len() implies net(#[trigger] x.take(k), open, close)
            >= 0 by {
            if k < x.len() {
                assert(x.take(k) =~= x.drop_last().take(k));
            } else {
                assert(x.take(k) =~= x);
            }
        }
    } else {
        assert forall|k: int| 0 <= k <= x.len() implies net(#[trigger] x.take(k), open, close)
            >= 0 by {
            assert(x.take(k) =~= x);
        }
    }
}

/// Matching brackets between a pair of brackets match with the pair.
pub proof fn lemma_neutral_wrap(x: Seq<u8>, open: u8, close: u8)
    requires
        neutral(x, open, close),
        open != close,
    ensures
        neutral(seq![open] + x + seq![close], open, close),
{
    let w = seq![open] + x + seq![close];
    lemma_net_concat(seq![open] + x, seq![close], open, close);
    lemma_net_concat(seq![open], x, open, close);
    assert(net(Seq::<u8>::empty(), open, close) == 0);
    assert(net(seq![open], open, close) == 1) by {
        assert(seq![open].drop_last() =~= Seq::<u8>::empty());
        assert(seq![open].last() == open);
    }
    assert(net(seq![close], open, close) == -1) by {
        assert(seq![close].drop_last() =~= Seq::<u8>::empty());
        assert(seq![close].last() == close);
    }
    assert forall|k: int| 0 <= k <= w.len() implies net(#[trigger] w.take(k), open, close)
        >= 0 by {
        if k == 0 {
            assert(w.take(k) =~= Seq::<u8>::empty());
        } else if k <= x.len() + 1 {
            assert(w.take(k) =~= seq![open] + x.take(k - 1));
            lemma_net_concat(seq![open], x.take(k - 1), open, close);
        } else {
            assert(w.take(k) =~= w);
        }
    }
}

/// The bracket that matches is not among matching brackets: the search
/// passes over them.
pub proof fn lemma_close_skip(s: Seq<u8>, pos: int, depth: int, x: Seq<u8>, k: int, open: u8, close: u8)
    requires
        depth >= 1,
        stands_at(s, pos, x),
        neutral(x, open, close),
        0 <= k <= x.len(),
    ensures
        matching_close(s, pos + k, depth + net(x.take(k), open, close), open, close)
            == matching_close(s, pos + x.len(), depth, open, close),
    decreases x.len() - k,
{
    if k == x.len() {
        assert(x.take(k) =~= x);
    } else {
        lemma_close_skip(s, pos, depth, x, k + 1, open, close);
        lemma_stands_index(s, pos, x, k);
        assert(x.take(k + 1).drop_last() =~= x.take(k));
        assert(x.take(k + 1).last() == x[k]);
        assert(net(x.take(k + 1), open, close) >= 0);
        assert(net(x.take(k), open, close) >= 0);
    }
}

/// Two texts without a counted bracket make one in a row.
pub proof fn lemma_plain_concat(a: Seq<u8>, b: Seq<u8>, in_array: bool, in_object: bool)
    requires
        plain(a, in_array, in_object),
        plain(b, in_array, in_object),
    ensures
        plain(a + b, in_array, in_object),
{
    assert forall|i: int| 0 <= i < (a + b).len() implies (in_array ==> #[trigger] (a + b)[i]
        != OPEN_BRACKET && (a + b)[i] != CLOSE_BRACKET) && (in_object ==> (a + b)[i] != OPEN_BRACE
        && (a + b)[i] != CLOSE_BRACE) by {
        if i < a.len() {
            assert((a + b)[i] == a[i]);
        } else {
            assert((a + b)[i] == b[i - a.len()]);
        }
    }
}

/// Where no bracket is counted, the counted brackets match.
pub proof fn lemma_balanced_plain(x: Seq<u8>, in_array: bool, in_object: bool)
    requires
        plain(x, in_array, in_object),
    ensures
        balanced(x, in_array, in_object),
{
    if in_array {
        lemma_neutral_lacks(x, OPEN_BRACKET, CLOSE_BRACKET);
    }
    if in_object {
        lemma_neutral_lacks(x, OPEN_BRACE, CLOSE_BRACE);
    }
}

/// Two texts whose counted brackets match make one in a row.
pub proof fn lemma_balanced_concat(a: Seq<u8>, b: Seq<u8>, in_array: bool, in_object: bool)
    requires
        balanced(a, in_array, in_object),
        balanced(b, in_array, in_object),
    ensures
        balanced(a + b, in_array, in_object),
{
    if in_array {
        lemma_neutral_concat(a, b, OPEN_BRACKET, CLOSE_BRACKET);
    }
    if in_object {
        lemma_neutral_concat(a, b, OPEN_BRACE, CLOSE_BRACE);
    }
}

/// The content of an array between its brackets: the square brackets match,
/// and the braces do where they matched in the content.
pub proof fn lemma_balanced_array(x: Seq<u8>, in_object: bool)
    requires
        balanced(x, true, in_object),
    ensures
        balanced(seq![OPEN_BRACKET] + x + seq![CLOSE_BRACKET], true, in_object),
{
    lemma_neutral_wrap(x, OPEN_BRACKET, CLOSE_BRACKET);
    if in_object {
        lemma_neutral_lacks(seq![OPEN_BRACKET], OPEN_BRACE, CLOSE_BRACE);
        lemma_neutral_lacks(seq![CLOSE_BRACKET], OPEN_BRACE, CLOSE_BRACE);
        lemma_neutral_concat(seq![OPEN_BRACKET], x, OPEN_BRACE, CLOSE_BRACE);
        lemma_neutral_concat(seq![OPEN_BRACKET] + x, seq![CLOSE_BRACKET], OPEN_BRACE, CLOSE_BRACE);
    }
}

/// The content of an object between its braces: the braces match, and the
/// square brackets do where they matched in the content.
pub proof fn lemma_balanced_object(x: Seq<u8>, in_array: bool)
    requires
        balanced(x, in_array, true),
    ensures
        balanced(seq![OPEN_BRACE] + x + seq![CLOSE_BRACE], in_array, true),
{
    lemma_neutral_wrap(x, OPEN_BRACE, CLOSE_BRACE);
    if in_array {
        lemma_neutral_lacks(seq![OPEN_BRACE], OPEN_BRACKET, CLOSE_BRACKET);
        lemma_neutral_lacks(seq![CLOSE_BRACE], OPEN_BRACKET, CLOSE_BRACKET);
        lemma_neutral_concat(seq![OPEN_BRACE], x, OPEN_BRACKET, CLOSE_BRACKET);
        lemma_neutral_concat(seq![OPEN_BRACE] + x, seq![CLOSE_BRACE], OPEN_BRACKET, CLOSE_BRACKET);
    }
}

/// Where the count of open containers never comes back to nothing, no
/// bracket matches.
pub proof fn lemma_never_closes(s: Seq<u8>, pos: int, depth: int, open: u8, close: u8)
    requires
        0 <= pos <= s.len(),
        forall|k: int|
            pos < k <= s.len() ==> depth + net(#[trigger] s.subrange(pos, k), open, close) != 0,
    ensures
        matching_close(s, pos, depth, open, close) is None,
    decreases s.len() - pos,
{
    if pos < s.len() {
        let first = s.subrange(pos, pos + 1);
        assert(first.drop_last() =~= Seq::<u8>::empty());
        assert(net(first.drop_last(), open, close) == 0);
        assert(first.last() == s[pos]);
        assert(net(first, open, close) == bracket_step(s[pos], open, close));
        let next = depth + bracket_step(s[pos], open, close);
        assert forall|k: int| pos + 1 < k <= s.len() implies next + net(
            #[trigger] s.subrange(pos + 1, k),
            open,
            close,
        ) != 0 by {
            lemma_net_concat(first, s.subrange(pos + 1, k), open, close);
            assert(s.subrange(pos, k) =~= first + s.subrange(pos + 1, k));
        }
        lemma_never_closes(s, pos + 1, next, open, close);
    }
}

} // verus!
