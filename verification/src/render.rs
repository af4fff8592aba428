//! The serializer: a tree as compact text, without white space, the members
//! of an object in ascending order of their keys.

use vstd::prelude::*;
use vstd::string::*;
use crate::model::{well_formed, Json, Members};
use crate::number::numeral_text;
use crate::value::Value;

verus! {

/// What stands for a character inside a string literal: a backslash and a
/// letter or sign for the backslash, the quote, the slash and five control
/// characters, the character itself for any other.
pub open spec fn escape_one(c: char) -> Seq<char> {
    if c == '\\' {
        seq!['\\', '\\']
    } else if c == '"' {
        seq!['\\', '"']
    } else if c == '/' {
        seq!['\\', '/']
    } else if c == '\u{8}' {
        seq!['\\', 'b']
    } else if c == '\u{c}' {
        seq!['\\', 'f']
    } else if c == '\u{a}' {
        seq!['\\', 'n']
    } else if c == '\u{d}' {
        seq!['\\', 'r']
    } else if c == '\u{9}' {
        seq!['\\', 't']
    } else {
        seq![c]
    }
}

/// The content of the string literal that stands for `t`.
pub open spec fn escape(t: Seq<char>) -> Seq<char>
    decreases t.len(),
{
    if t.len() == 0 {
        Seq::empty()
    } else {
        escape_one(t[0]) + escape(t.skip(1))
    }
}

/// A string literal: the escaped text between quotes.
pub open spec fn quoted(t: Seq<char>) -> Seq<char> {
    seq!['"'] + escape(t) + seq!['"']
}

/// The text of a tree.
pub open spec fn render(j: Json) -> Seq<char>
    decreases j, 0nat,
{
    match j {
        Json::Null => "null"@,
        Json::Bool(b) => if b {
            "true"@
        } else {
            "false"@
        },
        Json::Number(n) => numeral_text(n),
        Json::String(t) => quoted(t),
        Json::Array(items) => seq!['['] + items_text(items, items.len()) + seq![']'],
        Json::Object(members) => seq!['{'] + members_text(members, members.len()) + seq!['}'],
    }
}

/// The texts of the first `n` items, with commas between them.
pub open spec fn items_text(items: Seq<Json>, n: nat) -> Seq<char>
    decreases items, n,
{
    if 0 < n <= items.len() {
        items_text(items, (n - 1) as nat) + separator(n) + render(items[n - 1])
    } else {
        Seq::empty()
    }
}

/// The texts of the first `n` members, each a quoted key, a colon and the
/// value, with commas between them.
pub open spec fn members_text(members: Members, n: nat) -> Seq<char>
    decreases members, n,
{
    if 0 < n <= members.len() {
        members_text(members, (n - 1) as nat) + separator(n) + quoted(members[n - 1].0) + seq![':']
            + render(members[n - 1].1)
    } else {
        Seq::empty()
    }
}

/// What stands in front of the `n`th part of a container: a comma, but
/// nothing in front of the first.
pub open spec fn separator(n: nat) -> Seq<char> {
    if n > 1 {
        seq![',']
    } else {
        Seq::empty()
    }
}

/// The escaped form of two texts in a row is that of the one and then that
/// of the other.
pub proof fn lemma_escape_concat(a: Seq<char>, b: Seq<char>)
    ensures
        escape(a + b) == escape(a) + escape(b),
    decreases a.len(),
{
    if a.len() == 0 {
        assert(a + b =~= b);
        assert(escape(a) + escape(b) =~= escape(b));
    } else {
        lemma_escape_concat(a.skip(1), b);
        assert((a + b).skip(1) =~= a.skip(1) + b);
        assert(escape_one(a[0]) + (escape(a.skip(1)) + escape(b)) =~= (escape_one(a[0]) + escape(
            a.skip(1),
        )) + escape(b));
    }
}

/// Appends what stands for `c` inside a string literal.
fn escape_char_into(out: &mut String, c: char)
    ensures
        final(out)@ == old(out)@ + escape_one(c),
{
    if c == '\\' {
        out.push('\\');
        out.push('\\');
    } else if c == '"' {
        out.push('\\');
        out.push('"');
    } else if c == '/' {
        out.push('\\');
        out.push('/');
    } else if c == '\u{8}' {
        out.push('\\');
        out.push('b');
    } else if c == '\u{c}' {
        out.push('\\');
        out.push('f');
    } else if c == '\u{a}' {
        out.push('\\');
        out.push('n');
    } else if c == '\u{d}' {
        out.push('\\');
        out.push('r');
    } else if c == '\u{9}' {
        out.push('\\');
        out.push('t');
    } else {
        out.push(c);
    }
    proof {
        assert(final(out)@ =~= old(out)@ + escape_one(c));
    }
}

/// Appends the string literal that stands for `s`.
pub fn write_quoted(out: &mut String, s: &str)
    ensures
        final(out)@ == old(out)@ + quoted(s@),
{
    out.push('"');
    let ghost start = out@;
    proof {
        assert(s@.take(0) =~= Seq::<char>::empty());
        assert(start + escape(s@.take(0)) =~= start);
    }
    for c in it: s.chars()
        invariant
            it.seq() == s@,
            out@ == start + escape(s@.take(it.index() as int)),
    {
        let ghost i = it.index() as int;
        let ghost before = out@;
        escape_char_into(out, c);
        proof {
            lemma_escape_concat(s@.take(i), seq![c]);
            assert(s@.take(i + 1) =~= s@.take(i) + seq![c]);
            assert(seq![c].skip(1) =~= Seq::<char>::empty());
            assert(escape(seq![c].skip(1)) =~= Seq::<char>::empty());
            assert(escape(seq![c]) =~= escape_one(c));
            assert(out@ =~= start + escape(s@.take(i + 1)));
        }
    }
    proof {
        assert(s@.take(s@.len() as int) =~= s@);
    }
    out.push('"');
    proof {
        assert(out@ =~= old(out)@ + quoted(s@));
    }
}

impl Value {
    /// Appends the text of the tree.
    pub fn write_to(&self, out: &mut String)
        ensures
            final(out)@ == old(out)@ + render(self@),
            well_formed(self@),
        decreases self,
    {
        match self {
            Value::Null => out.append("null"),
            Value::Bool(b) => if *b {
                out.append("true")
            } else {
                out.append("false")
            },
            Value::Number(n) => n.write_to(out),
            Value::String(s) => write_quoted(out, s.as_str()),
            Value::Array(items) => {
                out.push('[');
                let ghost start = out@;
                let ghost models = self@->Array_0;
                let mut i: usize = 0;
                proof {
                    assert(start + items_text(models, 0) =~= start);
                }
                while i < items.len()
                    invariant
                        i <= items.len(),
                        models == self@->Array_0,
                        *self == Value::Array(*items),
                        models.len() == items.len(),
                        out@ == start + items_text(models, i as nat),
                        forall|k: int| 0 <= k < i ==> well_formed(#[trigger] models[k]),
                    decreases items.len() - i,
                {
                    let ghost before = out@;
                    if i > 0 {
                        out.push(',');
                    }
                    items[i].write_to(out);
                    proof {
                        assert(models[i as int] == items[i as int]@);
                        assert(out@ =~= start + items_text(models, (i + 1) as nat));
                    }
                    i += 1;
                }
                out.push(']');
                proof {
                    assert(out@ =~= old(out)@ + render(self@));
                }
            },
            Value::Object(members) => {
                out.push('{');
                members.write_members(out);
                out.push('}');
                proof {
                    assert(out@ =~= old(out)@ + render(self@));
                }
            },
        }
    }

    /// The text of the tree: compact, without white space, the members of
    /// every object in ascending order of their keys.
    pub fn to_string(&self) -> (r: String)
        ensures
            r@ == render(self@),
            well_formed(self@),
    {
        let mut out = String::new();
        self.write_to(&mut out);
        proof {
            assert(out@ =~= render(self@));
        }
        out
    }
}

} // verus!
