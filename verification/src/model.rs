//! The mathematical model of a JSON tree, and the order in which an object
//! keeps its members.

use vstd::prelude::*;
use vstd::utf8::*;
use crate::number::{is_numeral, Numeral};
use crate::text::{
    bytes_lt, lemma_bytes_lt_irreflexive, lemma_bytes_lt_total, lemma_bytes_lt_transitive,
};

verus! {

/// The content of a [`crate::value::Value`]. An object is the sequence of its
/// members, each a key with its value, in ascending order of the keys.
pub enum Json {
    Null,
    Bool(bool),
    Number(Numeral),
    String(Seq<char>),
    Array(Seq<Json>),
    Object(Seq<(Seq<char>, Json)>),
}

/// The members of an object.
pub type Members = Seq<(Seq<char>, Json)>;

/// The order of keys: that of their UTF-8 bytes.
pub open spec fn key_lt(a: Seq<char>, b: Seq<char>) -> bool {
    bytes_lt(encode_utf8(a), encode_utf8(b))
}

/// The keys ascend strictly, so that no key stands twice.
pub open spec fn is_sorted(m: Members) -> bool {
    forall|i: int, j: int| 0 <= i < j < m.len() ==> key_lt(#[trigger] m[i].0, #[trigger] m[j].0)
}

/// How many of the first `n` keys are below `k`. Among sorted members this is
/// the place where `k` stands or would stand.
pub open spec fn rank(m: Members, k: Seq<char>, n: int) -> int
    decreases n,
{
    if n <= 0 {
        0
    } else {
        rank(m, k, n - 1) + if key_lt(m[n - 1].0, k) {
            1int
        } else {
            0int
        }
    }
}

/// The place of `k` among all the members.
pub open spec fn place(m: Members, k: Seq<char>) -> int {
    rank(m, k, m.len() as int)
}

/// Whether `k` is a key of `m`.
pub open spec fn has_key(m: Members, k: Seq<char>) -> bool {
    place(m, k) < m.len() && m[place(m, k)].0 == k
}

/// The value that stands under `k`.
pub open spec fn lookup(m: Members, k: Seq<char>) -> Option<Json> {
    if has_key(m, k) {
        Some(m[place(m, k)].1)
    } else {
        None
    }
}

/// The members with `v` under `k`: in place of the value that stood there, or
/// as a new member at the place that keeps the keys sorted.
pub open spec fn put(m: Members, k: Seq<char>, v: Json) -> Members {
    if has_key(m, k) {
        m.update(place(m, k), (k, v))
    } else {
        m.insert(place(m, k), (k, v))
    }
}

/// The members without the one under `k`.
pub open spec fn without(m: Members, k: Seq<char>) -> Members {
    if has_key(m, k) {
        m.remove(place(m, k))
    } else {
        m
    }
}

/// What holds of the content of every [`crate::value::Value`]: every number
/// in it lies in the range of its variant or is a fraction in its kept form,
/// and every object in it keeps its keys sorted.
pub open spec fn well_formed(j: Json) -> bool
    decreases j,
{
    match j {
        Json::Number(n) => is_numeral(n),
        Json::Array(items) => forall|i: int| 0 <= i < items.len() ==> well_formed(#[trigger] items[i]),
        Json::Object(m) => is_sorted(m) && forall|i: int|
            0 <= i < m.len() ==> well_formed((#[trigger] m[i]).1),
        _ => true,
    }
}

/// Two keys with the same bytes are the same key.
pub proof fn lemma_key_of_bytes(a: Seq<char>, b: Seq<char>)
    requires
        encode_utf8(a) == encode_utf8(b),
    ensures
        a == b,
{
    encode_utf8_decode_utf8(a);
    encode_utf8_decode_utf8(b);
}

/// The order of keys is a strict total order.
pub proof fn lemma_key_order(a: Seq<char>, b: Seq<char>, c: Seq<char>)
    ensures
        !key_lt(a, a),
        key_lt(a, b) && key_lt(b, c) ==> key_lt(a, c),
        key_lt(a, b) || key_lt(b, a) || a == b,
{
    lemma_bytes_lt_irreflexive(encode_utf8(a));
    if key_lt(a, b) && key_lt(b, c) {
        lemma_bytes_lt_transitive(encode_utf8(a), encode_utf8(b), encode_utf8(c));
    }
    lemma_bytes_lt_total(encode_utf8(a), encode_utf8(b));
    if encode_utf8(a) == encode_utf8(b) {
        lemma_key_of_bytes(a, b);
    }
}

/// Among sorted members the keys below `k` are exactly those in front of its
/// place.
pub proof fn lemma_rank(m: Members, k: Seq<char>, n: int)
    requires
        is_sorted(m),
        0 <= n <= m.len(),
    ensures
        0 <= rank(m, k, n) <= n,
        forall|i: int| 0 <= i < rank(m, k, n) ==> key_lt(#[trigger] m[i].0, k),
        forall|i: int| rank(m, k, n) <= i < n ==> !key_lt(#[trigger] m[i].0, k),
    decreases n,
{
    if n > 0 {
        lemma_rank(m, k, n - 1);
        let r = rank(m, k, n - 1);
        if key_lt(m[n - 1].0, k) {
            if r < n - 1 {
                // a key in front of the last one is not below `k`, yet the last one is
                assert(!key_lt(m[r].0, k));
                assert(key_lt(m[r].0, m[n - 1].0));
                lemma_key_order(m[r].0, m[n - 1].0, k);
            }
        }
    }
}

/// What the place of a key says of the members around it.
pub proof fn lemma_place(m: Members, k: Seq<char>)
    requires
        is_sorted(m),
    ensures
        0 <= place(m, k) <= m.len(),
        forall|i: int| 0 <= i < place(m, k) ==> key_lt(#[trigger] m[i].0, k),
        forall|i: int| place(m, k) <= i < m.len() ==> !key_lt(#[trigger] m[i].0, k),
        forall|i: int| place(m, k) < i < m.len() ==> key_lt(k, #[trigger] m[i].0),
        !has_key(m, k) ==> forall|i: int| 0 <= i < m.len() ==> (#[trigger] m[i]).0 != k,
        has_key(m, k) ==> forall|i: int| 0 <= i < m.len() && (#[trigger] m[i]).0 == k ==> i == place(m, k),
{
    lemma_rank(m, k, m.len() as int);
    let p = place(m, k);
    assert forall|i: int| p < i < m.len() implies key_lt(k, #[trigger] m[i].0) by {
        assert(key_lt(m[p].0, m[i].0));
        assert(!key_lt(m[p].0, k));
        lemma_key_order(m[p].0, k, k);
        lemma_key_order(k, m[p].0, m[i].0);
    }
    assert forall|i: int| 0 <= i < m.len() && (#[trigger] m[i]).0 == k implies i == p && has_key(m, k) by {
        lemma_key_order(k, k, k);
        if i < p {
            assert(key_lt(m[i].0, k));
        } else if i > p {
            assert(key_lt(k, m[i].0));
        }
    }
}

/// A member put among sorted members leaves them sorted, stands under its key,
/// and leaves every other key as it was.
pub proof fn lemma_put(m: Members, k: Seq<char>, v: Json)
    requires
        is_sorted(m),
    ensures
        is_sorted(put(m, k, v)),
        lookup(put(m, k, v), k) == Some(v),
        put(m, k, v).len() == if has_key(m, k) {
            m.len()
        } else {
            m.len() + 1
        },
{
    lemma_place(m, k);
    let p = place(m, k);
    let n = put(m, k, v);
    assert forall|i: int, j: int| 0 <= i < j < n.len() implies key_lt(
        #[trigger] n[i].0,
        #[trigger] n[j].0,
    ) by {
        if has_key(m, k) {
            assert(n[i].0 == m[i].0);
            assert(n[j].0 == m[j].0);
        } else {
            let a = if i < p {
                i
            } else {
                i - 1
            };
            let b = if j < p {
                j
            } else {
                j - 1
            };
            if i == p {
                assert(n[j] == m[b]);
                if b > p {
                    assert(key_lt(k, m[b].0));
                } else {
                    assert(!key_lt(m[b].0, k));
                    lemma_key_order(k, m[b].0, k);
                }
            } else if j == p {
                assert(n[i] == m[a]);
                assert(key_lt(m[a].0, k));
            } else {
                assert(n[i] == m[a]);
                assert(n[j] == m[b]);
            }
        }
    }
    lemma_place_unique(n, k, p);
}

/// Where a sorted sequence holds `k` at `p`, that is its place.
pub proof fn lemma_place_unique(m: Members, k: Seq<char>, p: int)
    requires
        is_sorted(m),
        0 <= p < m.len(),
        m[p].0 == k,
    ensures
        place(m, k) == p,
        has_key(m, k),
{
    lemma_place(m, k);
    let q = place(m, k);
    lemma_key_order(k, k, k);
    if p < q {
        assert(key_lt(m[p].0, k));
    } else if p > q {
        assert(key_lt(k, m[p].0));
    }
}

/// Putting a member leaves what stands under every other key.
pub proof fn lemma_put_other(m: Members, k: Seq<char>, v: Json, other: Seq<char>)
    requires
        is_sorted(m),
        other != k,
    ensures
        lookup(put(m, k, v), other) == lookup(m, other),
{
    lemma_place(m, k);
    lemma_place(m, other);
    lemma_put(m, k, v);
    let n = put(m, k, v);
    let p = place(m, k);
    lemma_place(n, other);
    if has_key(m, other) {
        let q = place(m, other);
        let q2 = if has_key(m, k) || q < p {
            q
        } else {
            q + 1
        };
        assert(n[q2] == m[q]);
        lemma_place_unique(n, other, q2);
    } else {
        if has_key(n, other) {
            let q = place(n, other);
            if has_key(m, k) {
                assert(n[q].0 == m[q].0);
            } else if q < p {
                assert(n[q] == m[q]);
            } else {
                assert(q != p);
                assert(n[q] == m[q - 1]);
            }
            assert(false);
        }
    }
}

/// Members of which one is taken out stay sorted, and nothing stands under
/// its key any more.
pub proof fn lemma_without(m: Members, k: Seq<char>)
    requires
        is_sorted(m),
    ensures
        is_sorted(without(m, k)),
        lookup(without(m, k), k) is None,
{
    lemma_place(m, k);
    let p = place(m, k);
    let n = without(m, k);
    if has_key(m, k) {
        assert forall|i: int, j: int| 0 <= i < j < n.len() implies key_lt(
            #[trigger] n[i].0,
            #[trigger] n[j].0,
        ) by {
            let a = if i < p {
                i
            } else {
                i + 1
            };
            let b = if j < p {
                j
            } else {
                j + 1
            };
            assert(n[i] == m[a]);
            assert(n[j] == m[b]);
        }
        lemma_place(n, k);
        if has_key(n, k) {
            let q = place(n, k);
            let b = if q < p {
                q
            } else {
                q + 1
            };
            assert(n[q] == m[b]);
            assert(b == p);
        }
    }
}

} // verus!
