//! Bytes that stand in a text at a position.

use vstd::prelude::*;

verus! {

/// The bytes `x` stand in `s` at `pos`.
pub open spec fn stands_at(s: Seq<u8>, pos: int, x: Seq<u8>) -> bool {
    0 <= pos && pos + x.len() <= s.len() && s.subrange(pos, pos + x.len()) == x
}

/// Two runs of bytes stand in a row where their concatenation stands.
pub proof fn lemma_stands_concat(s: Seq<u8>, pos: int, a: Seq<u8>, b: Seq<u8>)
    ensures
        stands_at(s, pos, a + b) <==> stands_at(s, pos, a) && stands_at(s, pos + a.len(), b),
{
    if 0 <= pos && pos + a.len() + b.len() <= s.len() {
        let whole = s.subrange(pos, pos + a.len() + b.len());
        let left = s.subrange(pos, pos + a.len());
        let right = s.subrange(pos + a.len(), pos + a.len() + b.len());
        assert(whole =~= left + right);
        if whole == a + b {
            assert(left =~= (a + b).subrange(0, a.len() as int));
            assert((a + b).subrange(0, a.len() as int) =~= a);
            assert(right =~= (a + b).subrange(a.len() as int, (a + b).len() as int));
            assert((a + b).subrange(a.len() as int, (a + b).len() as int) =~= b);
        }
    }
}

/// A byte of what stands in `s` is a byte of `s`.
pub proof fn lemma_stands_index(s: Seq<u8>, pos: int, x: Seq<u8>, i: int)
    requires
        stands_at(s, pos, x),
        0 <= i < x.len(),
    ensures
        s[pos + i] == x[i],
{
    assert(s.subrange(pos, pos + x.len())[i] == s[pos + i]);
}

} // verus!
