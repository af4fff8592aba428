//! The members of a JSON object: keys with their values, kept in ascending
//! order of the keys, no key twice.

use vstd::prelude::*;
use vstd::string::*;
use crate::model::{
    has_key, is_sorted, key_lt, lemma_key_of_bytes, lemma_key_order, lemma_place, lemma_put,
    lemma_without, lookup, place, put, well_formed, without, Json, Members,
};
use crate::render::{members_text, write_quoted};
use crate::text::{compare_bytes, Order};
use crate::value::Value;

verus! {

/// Compares two keys in the order in which an object keeps them.
pub fn compare_keys(a: &str, b: &str) -> (r: Order)
    ensures
        r is Less <==> key_lt(a@, b@),
        r is Equal <==> a@ == b@,
        r is Greater <==> key_lt(b@, a@),
{
    proof {
        if a.spec_bytes() == b.spec_bytes() {
            lemma_key_of_bytes(a@, b@);
        }
    }
    compare_bytes(a.as_bytes(), b.as_bytes())
}

/// The place of a key is behind the keys below it and at the first that is not.
proof fn lemma_first_not_below(m: Members, k: Seq<char>, i: int)
    requires
        is_sorted(m),
        0 <= i <= m.len(),
        forall|j: int| 0 <= j < i ==> key_lt(#[trigger] m[j].0, k),
        i < m.len() ==> !key_lt(m[i].0, k),
    ensures
        place(m, k) == i,
{
    lemma_place(m, k);
    let p = place(m, k);
    if i < p {
        assert(key_lt(m[i].0, k));
    } else if p < i {
        assert(key_lt(m[p].0, k));
    }
}

/// A key with the value that stands under it.
#[derive(Debug, PartialEq, Eq, Hash)]
struct Member {
    key: String,
    value: Value,
}

/// The members of a JSON object. They are kept, and handed out, in ascending
/// order of the bytes of their keys, whatever the order in which they came.
#[derive(Debug, Eq, Hash)]
pub struct Object {
    members: Vec<Member>,
}

impl View for Object {
    type V = Members;

    closed spec fn view(&self) -> Members
        decreases self,
    {
        Seq::new(
            self.members.len() as nat,
            |i: int|
                if 0 <= i < self.members.len() {
                    (self.members[i].key@, self.members[i].value@)
                } else {
                    (Seq::empty(), Json::Null)
                },
        )
    }
}

impl PartialEq for Object {
    /// Two objects are equal where they hold the same keys with equal values.
    fn eq(&self, other: &Object) -> (r: bool)
        decreases self,
    {
        if self.members.len() != other.members.len() {
            proof {
                assert(self@.len() != other@.len());
            }
            return false;
        }
        let mut i: usize = 0;
        while i < self.members.len()
            invariant
                i <= self.members.len(),
                self.members.len() == other.members.len(),
                forall|k: int| 0 <= k < i ==> (#[trigger] self@[k]) == other@[k],
            decreases self.members.len() - i,
        {
            let keys = compare_keys(self.members[i].key.as_str(), other.members[i].key.as_str());
            let equal = matches!(keys, Order::Equal) && self.members[i].value
                == other.members[i].value;
            proof {
                assert(self@[i as int] == (self.members[i as int].key@, self.members[i as int].value@));
                assert(other@[i as int] == (
                    other.members[i as int].key@,
                    other.members[i as int].value@,
                ));
            }
            if !equal {
                return false;
            }
            i += 1;
        }
        proof {
            assert(self@ =~= other@);
        }
        true
    }
}

impl vstd::std_specs::cmp::PartialEqSpecImpl for Object {
    open spec fn obeys_eq_spec() -> bool {
        true
    }

    open spec fn eq_spec(&self, other: &Object) -> bool {
        self@ == other@
    }
}

impl Object {
    #[verifier::type_invariant]
    spec fn keys_ascend(self) -> bool {
        is_sorted(self@)
    }

    /// An object without members.
    pub fn new() -> (r: Object)
        ensures
            r@ == Members::empty(),
    {
        let r = Object { members: Vec::new() };
        proof {
            assert(r@ =~= Members::empty());
        }
        r
    }

    /// The number of members.
    pub fn len(&self) -> (r: usize)
        ensures
            r == self@.len(),
            is_sorted(self@),
    {
        proof {
            use_type_invariant(self);
        }
        self.members.len()
    }

    /// Whether the object has no member.
    pub fn is_empty(&self) -> (r: bool)
        ensures
            r == (self@.len() == 0),
    {
        self.members.len() == 0
    }

    /// The key of the member at `i`, counted in ascending order of the keys.
    pub fn key(&self, i: usize) -> (r: &String)
        requires
            i < self@.len(),
        ensures
            r@ == self@[i as int].0,
    {
        &self.members[i].key
    }

    /// The value of the member at `i`, counted in ascending order of the keys.
    pub fn value(&self, i: usize) -> (r: &Value)
        requires
            i < self@.len(),
        ensures
            r@ == self@[i as int].1,
    {
        &self.members[i].value
    }

    /// The place where `key` stands among the members, or would stand.
    fn position(&self, key: &str) -> (r: usize)
        ensures
            r == place(self@, key@),
            r <= self@.len(),
            is_sorted(self@),
    {
        proof {
            use_type_invariant(self);
            lemma_place(self@, key@);
        }
        let mut i: usize = 0;
        while i < self.members.len()
            invariant
                i <= self.members.len(),
                self.members.len() == self@.len(),
                is_sorted(self@),
                forall|j: int| 0 <= j < i ==> key_lt(#[trigger] self@[j].0, key@),
            decreases self.members.len() - i,
        {
            match compare_keys(self.members[i].key.as_str(), key) {
                Order::Less => {},
                _ => {
                    proof {
                        lemma_key_order(self@[i as int].0, key@, self@[i as int].0);
                        lemma_first_not_below(self@, key@, i as int);
                    }
                    return i;
                },
            }
            i += 1;
        }
        proof {
            lemma_first_not_below(self@, key@, i as int);
        }
        i
    }

    /// Whether a member stands under `key`.
    pub fn contains_key(&self, key: &str) -> (r: bool)
        ensures
            r == has_key(self@, key@),
    {
        let i = self.position(key);
        i < self.members.len() && matches!(
            compare_keys(self.members[i].key.as_str(), key),
            Order::Equal
        )
    }

    /// The value that stands under `key`.
    pub fn get(&self, key: &str) -> (r: Option<&Value>)
        ensures
            match r {
                Some(v) => lookup(self@, key@) == Some(v@),
                None => lookup(self@, key@) is None,
            },
    {
        let i = self.position(key);
        if i < self.members.len() {
            match compare_keys(self.members[i].key.as_str(), key) {
                Order::Equal => Some(&self.members[i].value),
                _ => None,
            }
        } else {
            None
        }
    }

    /// Takes out the member under `key` and hands back its value.
    pub fn remove(&mut self, key: &str) -> (r: Option<Value>)
        ensures
            final(self)@ == without(old(self)@, key@),
            match r {
                Some(v) => lookup(old(self)@, key@) == Some(v@),
                None => lookup(old(self)@, key@) is None,
            },
    {
        let i = self.position(key);
        let ghost before = self@;
        proof {
            lemma_without(before, key@);
        }
        let found = i < self.members.len() && matches!(
            compare_keys(self.members[i].key.as_str(), key),
            Order::Equal
        );
        if !found {
            return None;
        }
        let mut members: Vec<Member> = Vec::new();
        std::mem::swap(&mut members, &mut self.members);
        let old = members.remove(i);
        proof {
            let after = (Object { members })@;
            assert(after =~= without(before, key@));
        }
        self.members = members;
        Some(old.value)
    }

    /// Appends the texts of the members, with commas between them.
    pub fn write_members(&self, out: &mut String)
        ensures
            final(out)@ == old(out)@ + members_text(self@, self@.len()),
            well_formed(Json::Object(self@)),
        decreases self,
    {
        proof {
            use_type_invariant(self);
        }
        let ghost start = out@;
        let mut i: usize = 0;
        proof {
            assert(start + members_text(self@, 0) =~= start);
        }
        while i < self.members.len()
            invariant
                i <= self.members.len(),
                self.members.len() == self@.len(),
                out@ == start + members_text(self@, i as nat),
                forall|k: int| 0 <= k < i ==> well_formed((#[trigger] self@[k]).1),
            decreases self.members.len() - i,
        {
            if i > 0 {
                out.push(',');
            }
            write_quoted(out, self.members[i].key.as_str());
            out.push(':');
            self.members[i].value.write_to(out);
            proof {
                assert(self@[i as int] == (self.members[i as int].key@, self.members[i as int].value@));
                assert(out@ =~= start + members_text(self@, (i + 1) as nat));
            }
            i += 1;
        }
    }

    /// Puts `value` under `key` and hands back the value that stood there. A
    /// key that the object holds already keeps its place and gets the new
    /// value: of two members with one key the later one stays.
    pub fn insert(&mut self, key: String, value: Value) -> (r: Option<Value>)
        ensures
            final(self)@ == put(old(self)@, key@, value@),
            match r {
                Some(v) => lookup(old(self)@, key@) == Some(v@),
                None => lookup(old(self)@, key@) is None,
            },
    {
        let i = self.position(key.as_str());
        let ghost before = self@;
        proof {
            lemma_put(before, key@, value@);
        }
        let found = i < self.members.len() && matches!(
            compare_keys(self.members[i].key.as_str(), key.as_str()),
            Order::Equal
        );
        let mut members: Vec<Member> = Vec::new();
        std::mem::swap(&mut members, &mut self.members);
        let r = if found {
            let old = members.remove(i);
            Some(old.value)
        } else {
            None
        };
        members.insert(i, Member { key, value });
        proof {
            let after = (Object { members })@;
            assert(after =~= put(before, key@, value@));
        }
        self.members = members;
        r
    }
}

} // verus!
