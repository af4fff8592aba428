//! Objects as their text holds them: of members with one key the last one
//! stays.

use vstd::prelude::*;
use crate::error::Error;
use crate::grammar::{member_at, members_from, moved, Parsed};
use crate::model::{is_sorted, lemma_put, lemma_put_other, lookup, put, Json, Members};

verus! {

/// The members from `pos` on behind `list`, in the order in which the text
/// holds them and as often as it holds them, for as long as the cursor
/// stands in front of `stop`.
pub open spec fn members_listed(s: Seq<u8>, pos: int, stop: int, list: Members) -> Parsed<Members>
    decreases s.len() - pos,
    when 0 <= pos && stop < s.len()
{
    if pos < stop {
        match member_at(s, pos) {
            Ok(((key, value), next)) => if moved(s, pos, next) {
                members_listed(s, next, stop, list.push((key, value)))
            } else {
                Err(Error::UnexpectedEnd(pos as usize))
            },
            Err(e) => Err(e),
        }
    } else {
        Ok((list, pos))
    }
}

/// The members `m` after the first `n` members of `list` were put into
/// them, one after the other.
pub open spec fn put_all(m: Members, list: Members, n: int) -> Members
    decreases n,
{
    if n <= 0 {
        m
    } else {
        put(put_all(m, list, n - 1), list[n - 1].0, list[n - 1].1)
    }
}

/// The value of the last of the first `n` members of `list` that stands
/// under `k`.
pub open spec fn last_under(list: Members, k: Seq<char>, n: int) -> Option<Json>
    decreases n,
{
    if n <= 0 {
        None
    } else if list[n - 1].0 == k {
        Some(list[n - 1].1)
    } else {
        last_under(list, k, n - 1)
    }
}

/// What was put does not depend on the members behind the ones that were
/// put.
pub proof fn lemma_put_all_prefix(m: Members, list: Members, longer: Members, n: int)
    requires
        n <= list.len() <= longer.len(),
        forall|i: int| 0 <= i < list.len() ==> list[i] == longer[i],
    ensures
        put_all(m, list, n) == put_all(m, longer, n),
    decreases n,
{
    if n > 0 {
        lemma_put_all_prefix(m, list, longer, n - 1);
    }
}

/// Members put into sorted members leave them sorted, and under every key
/// stands the value of the last member that was put under it, or what stood
/// there before.
pub proof fn lemma_put_all(m: Members, list: Members, n: int, k: Seq<char>)
    requires
        is_sorted(m),
        n <= list.len(),
    ensures
        is_sorted(put_all(m, list, n)),
        lookup(put_all(m, list, n), k) == match last_under(list, k, n) {
            Some(v) => Some(v),
            None => lookup(m, k),
        },
    decreases n,
{
    if n > 0 {
        lemma_put_all(m, list, n - 1, k);
        let before = put_all(m, list, n - 1);
        lemma_put(before, list[n - 1].0, list[n - 1].1);
        if list[n - 1].0 != k {
            lemma_put_other(before, list[n - 1].0, list[n - 1].1, k);
        }
    }
}

/// The members that are read are the members that the text holds, put one
/// after the other.
pub proof fn lemma_members_follow_text(s: Seq<u8>, pos: int, stop: int, m: Members, list: Members)
    requires
        0 <= pos <= s.len(),
        stop < s.len(),
    ensures
        members_from(s, pos, stop, put_all(m, list, list.len() as int)) == match members_listed(
            s,
            pos,
            stop,
            list,
        ) {
            Ok((all, end)) => Ok::<(Members, int), Error>(
                (put_all(m, all, all.len() as int), end),
            ),
            Err(e) => Err::<(Members, int), Error>(e),
        },
    decreases s.len() - pos,
{
    if pos < stop {
        match member_at(s, pos) {
            Ok(((key, value), next)) => {
                if moved(s, pos, next) {
                    let longer = list.push((key, value));
                    lemma_put_all_prefix(m, list, longer, list.len() as int);
                    assert(longer[longer.len() - 1] == (key, value));
                    lemma_members_follow_text(s, next, stop, m, longer);
                }
            },
            _ => {},
        }
    }
}

} // verus!
