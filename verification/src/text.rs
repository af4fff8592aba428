//! Text as bytes and as characters: what the parser and the serializer need
//! of UTF-8.

use vstd::prelude::*;
use vstd::string::*;
use vstd::utf8::*;

verus! {

/// `std::string::String::push`, taken on trust from the standard library:
/// it appends the given character to the end of the string and changes
/// nothing else of it.
pub assume_specification[ std::string::String::push ](s: &mut std::string::String, c: char)
    ensures
        final(s)@ == old(s)@.push(c),
;

/// The characters that a run of ASCII bytes stands for, one for one.
pub open spec fn ascii_text(bytes: Seq<u8>) -> Seq<char> {
    Seq::new(bytes.len(), |i: int| bytes[i] as char)
}

/// No byte of the run has its high bit set.
pub open spec fn is_ascii_bytes(bytes: Seq<u8>) -> bool {
    forall|i: int| 0 <= i < bytes.len() ==> #[trigger] bytes[i] < 0x80
}

/// True where a character may begin: at the end of the text, or at a byte
/// that does not continue a character.
pub open spec fn starts_char(bytes: Seq<u8>, pos: int) -> bool {
    0 <= pos <= bytes.len() && (pos < bytes.len() ==> !is_continuation_byte(bytes[pos]))
}

/// The text of a `&str` is the decoding of its bytes.
pub proof fn lemma_str_decodes(s: &str)
    ensures
        valid_utf8(s.spec_bytes()),
        s@ == decode_utf8(s.spec_bytes()),
{
    encode_utf8_valid_utf8(s@);
    encode_utf8_decode_utf8(s@);
}

/// In valid UTF-8 the places where a character may begin are the character
/// boundaries.
pub proof fn lemma_starts_char_is_boundary(bytes: Seq<u8>, pos: int)
    requires
        valid_utf8(bytes),
        starts_char(bytes, pos),
    ensures
        is_char_boundary(bytes, pos),
{
    if pos < bytes.len() {
        is_char_boundary_iff_not_is_continuation_byte(bytes, pos);
    } else {
        is_char_boundary_start_end_of_seq(bytes);
    }
}

/// The part of `s` between two places where a character begins.
pub fn slice_str<'a>(s: &'a str, from: usize, to: usize) -> (r: &'a str)
    requires
        from <= to,
        starts_char(s.spec_bytes(), from as int),
        starts_char(s.spec_bytes(), to as int),
    ensures
        r.spec_bytes() == s.spec_bytes().subrange(from as int, to as int),
        valid_utf8(s.spec_bytes().subrange(from as int, to as int)),
        r@ == decode_utf8(s.spec_bytes().subrange(from as int, to as int)),
{
    let ghost bytes = s.spec_bytes();
    proof {
        lemma_str_decodes(s);
        lemma_starts_char_is_boundary(bytes, to as int);
    }
    let (head, _) = s.split_at(to);
    proof {
        lemma_str_decodes(head);
        assert(starts_char(head.spec_bytes(), from as int));
        lemma_starts_char_is_boundary(head.spec_bytes(), from as int);
    }
    let (_, tail) = head.split_at(from);
    proof {
        lemma_str_decodes(tail);
        assert(tail.spec_bytes() =~= bytes.subrange(from as int, to as int));
    }
    tail
}

/// The bytes of two texts in a row are those of the one and then those of
/// the other.
pub proof fn lemma_encode_concat(a: Seq<char>, b: Seq<char>)
    ensures
        encode_utf8(a + b) == encode_utf8(a) + encode_utf8(b),
    decreases a.len(),
{
    if a.len() == 0 {
        assert(a + b =~= b);
        assert(encode_utf8(a) + encode_utf8(b) =~= encode_utf8(b));
    } else {
        lemma_encode_concat(a.drop_first(), b);
        assert((a + b).drop_first() =~= a.drop_first() + b);
        assert(encode_scalar(a[0] as u32) + (encode_utf8(a.drop_first()) + encode_utf8(b))
            =~= (encode_scalar(a[0] as u32) + encode_utf8(a.drop_first())) + encode_utf8(b));
    }
}

/// The bytes of one character: an ASCII character is its own single byte;
/// any other character is two to four bytes with the high bit set, of which
/// the first does not continue a character.
pub proof fn lemma_encode_char(c: char)
    ensures
        (c as u32) < 0x80 ==> encode_utf8(seq![c]) == seq![c as u8],
        (c as u32) >= 0x80 ==> forall|i: int|
            0 <= i < encode_utf8(seq![c]).len() ==> #[trigger] encode_utf8(seq![c])[i] >= 0x80,
        encode_utf8(seq![c]).len() >= 1,
        !is_continuation_byte(encode_utf8(seq![c])[0]),
{
    let e = encode_utf8(seq![c]);
    let v = c as u32;
    assert(seq![c].drop_first() =~= Seq::<char>::empty());
    assert(encode_utf8(seq![c].drop_first()) =~= Seq::<u8>::empty());
    assert(e =~= encode_scalar(v));
    encode_utf8_first_scalar(seq![c]);
    if v < 0x80 {
        let b = e[0];
        assert(b == (v & 0x7F) as u8);
        assert((v & 0x7F) as u8 == v as u8) by (bit_vector)
            requires
                v < 0x80,
        ;
        assert(e =~= seq![c as u8]);
    } else {
        assert(!has_width_1_encoding(v));
        assert(!is_leading_byte_width_1(e[0]));
    }
}

/// An ASCII character and its byte stand for each other.
pub proof fn lemma_ascii_byte(c: char, b: u8)
    requires
        b < 0x80,
    ensures
        (c as u32) < 0x80 ==> ((c as u8 == b) <==> (c == b as char)),
        (c as u32) >= 0x80 ==> c != b as char,
{
}

/// The bytes of an ASCII text are its characters.
pub proof fn lemma_encode_ascii(bytes: Seq<u8>)
    requires
        is_ascii_bytes(bytes),
    ensures
        encode_utf8(ascii_text(bytes)) == bytes,
{
    let chars = ascii_text(bytes);
    assert(is_ascii_chars(chars)) by {
        assert forall|i: int| 0 <= i < chars.len() implies '\0' <= #[trigger] chars[i] <= '\u{7f}' by {
            assert(bytes[i] < 0x80);
        }
    }
    is_ascii_chars_encode_utf8(chars);
    assert(encode_utf8(chars) =~= bytes) by {
        assert forall|i: int| 0 <= i < bytes.len() implies encode_utf8(chars)[i] == bytes[i] by {
            assert(bytes[i] < 0x80);
            assert(chars[i] as u8 == bytes[i]);
        }
    }
}

/// Lexicographic order on bytes: at the first place where two texts differ
/// the smaller byte decides, and a proper prefix comes first.
pub open spec fn bytes_lt(a: Seq<u8>, b: Seq<u8>) -> bool
    decreases a.len(),
{
    if b.len() == 0 {
        false
    } else if a.len() == 0 {
        true
    } else if a[0] != b[0] {
        a[0] < b[0]
    } else {
        bytes_lt(a.drop_first(), b.drop_first())
    }
}

/// No text is below itself.
pub proof fn lemma_bytes_lt_irreflexive(a: Seq<u8>)
    ensures
        !bytes_lt(a, a),
    decreases a.len(),
{
    if a.len() > 0 {
        lemma_bytes_lt_irreflexive(a.drop_first());
    }
}

/// What is below a text is below all that the text is below.
pub proof fn lemma_bytes_lt_transitive(a: Seq<u8>, b: Seq<u8>, c: Seq<u8>)
    requires
        bytes_lt(a, b),
        bytes_lt(b, c),
    ensures
        bytes_lt(a, c),
    decreases a.len(),
{
    if a.len() > 0 && a[0] == b[0] && b[0] == c[0] {
        lemma_bytes_lt_transitive(a.drop_first(), b.drop_first(), c.drop_first());
    }
}

/// Of two texts one is below the other, or they are the same.
pub proof fn lemma_bytes_lt_total(a: Seq<u8>, b: Seq<u8>)
    ensures
        bytes_lt(a, b) || bytes_lt(b, a) || a == b,
    decreases a.len(),
{
    if a.len() > 0 && b.len() > 0 && a[0] == b[0] {
        lemma_bytes_lt_total(a.drop_first(), b.drop_first());
        if a.drop_first() == b.drop_first() {
            assert(a =~= seq![a[0]] + a.drop_first());
            assert(b =~= seq![b[0]] + b.drop_first());
        }
    } else if a.len() == 0 && b.len() == 0 {
        assert(a =~= b);
    }
}

/// How one thing stands to another in an order.
pub enum Order {
    Less,
    Equal,
    Greater,
}

/// Compares two texts byte by byte.
pub fn compare_bytes(a: &[u8], b: &[u8]) -> (r: Order)
    ensures
        r is Less <==> bytes_lt(a@, b@),
        r is Equal <==> a@ == b@,
        r is Greater <==> bytes_lt(b@, a@),
{
    let mut i: usize = 0;
    proof {
        assert(a@.skip(0) =~= a@);
        assert(b@.skip(0) =~= b@);
        lemma_bytes_lt_irreflexive(a@);
    }
    while i < a.len() && i < b.len()
        invariant
            i <= a.len(),
            i <= b.len(),
            a@.take(i as int) == b@.take(i as int),
            bytes_lt(a@, b@) == bytes_lt(a@.skip(i as int), b@.skip(i as int)),
            bytes_lt(b@, a@) == bytes_lt(b@.skip(i as int), a@.skip(i as int)),
        decreases a.len() - i,
    {
        proof {
            assert(a@.skip(i as int).drop_first() =~= a@.skip(i + 1));
            assert(b@.skip(i as int).drop_first() =~= b@.skip(i + 1));
            assert(a@.skip(i as int)[0] == a@[i as int]);
            assert(b@.skip(i as int)[0] == b@[i as int]);
        }
        if a[i] < b[i] {
            proof {
                assert(a@.take(i + 1)[i as int] != b@.take(i + 1)[i as int]);
            }
            return Order::Less;
        }
        if a[i] > b[i] {
            proof {
                assert(a@.take(i + 1)[i as int] != b@.take(i + 1)[i as int]);
            }
            return Order::Greater;
        }
        proof {
            assert(a@.take(i + 1) =~= a@.take(i as int).push(a@[i as int]));
            assert(b@.take(i + 1) =~= b@.take(i as int).push(b@[i as int]));
        }
        i += 1;
    }
    proof {
        lemma_bytes_lt_irreflexive(a@);
        if i == a.len() {
            assert(a@.take(i as int) =~= a@);
        }
        if i == b.len() {
            assert(b@.take(i as int) =~= b@);
        }
    }
    if i < b.len() {
        proof {
            assert(a@.len() != b@.len());
        }
        Order::Less
    } else if i < a.len() {
        proof {
            assert(a@.len() != b@.len());
        }
        Order::Greater
    } else {
        Order::Equal
    }
}

} // verus!
