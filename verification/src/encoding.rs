//! The bridge between the two views of a string slice: its characters (`s@`)
//! and its UTF-8 bytes (`s.spec_bytes()`). Scanning is done on bytes, contracts
//! are stated on characters; the lemmas here carry facts from one to the other.

use vstd::prelude::*;
use vstd::string::StringSliceAdditionalSpecFns;
use vstd::utf8::*;

verus! {

/// The character whose code point is the ASCII byte `b`.
pub open spec fn ascii_char(b: u8) -> char {
    b as char
}

/// Encoding distributes over concatenation.
pub proof fn lemma_encode_concat(a: Seq<char>, b: Seq<char>)
    ensures
        encode_utf8(a + b) == encode_utf8(a) + encode_utf8(b),
    decreases a.len(),
{
    if a.len() == 0 {
        assert(a + b =~= b);
        assert(encode_utf8(a) + encode_utf8(b) =~= encode_utf8(b));
    } else {
        lemma_encode_concat(a.drop_first(), b);
        assert((a + b).drop_first() =~= a.drop_first() + b);
        assert(encode_utf8(a + b) =~= encode_utf8(a) + encode_utf8(b));
    }
}

/// Two strings with the same encoding are the same string.
pub proof fn lemma_encode_injective(a: Seq<char>, b: Seq<char>)
    requires
        encode_utf8(a) == encode_utf8(b),
    ensures
        a == b,
{
    encode_utf8_decode_utf8(a);
    encode_utf8_decode_utf8(b);
}

/// An ASCII character is encoded as the single byte of its code point.
pub proof fn lemma_encode_ascii(b: u8)
    requires
        b < 0x80,
    ensures
        encode_utf8(seq![ascii_char(b)]) == seq![b],
{
    let c = ascii_char(b);
    let u = c as u32;
    assert(u == b as u32);
    assert(leading_byte_width_1(u) == b) by (bit_vector)
        requires
            u == b as u32,
            b < 0x80,
    ;
    assert(has_width_1_encoding(u));
    assert(seq![c].drop_first() =~= Seq::<char>::empty());
    assert(encode_utf8(Seq::<char>::empty()) =~= Seq::<u8>::empty());
    assert(encode_scalar(u) =~= seq![b]);
    assert(encode_utf8(seq![c]) =~= seq![b]);
}

/// An ASCII character of a string shows as its byte in the encoding.
pub proof fn lemma_ascii_char_in_encoding(s: Seq<char>, i: int, b: u8)
    requires
        0 <= i < s.len(),
        b < 0x80,
        s[i] == ascii_char(b),
    ensures
        encode_utf8(s.take(i)).len() < encode_utf8(s).len(),
        encode_utf8(s)[encode_utf8(s.take(i)).len() as int] == b,
{
    let head = s.take(i);
    let mid = seq![s[i]];
    let tail = s.skip(i + 1);
    assert(s =~= head + mid + tail);
    lemma_encode_concat(head + mid, tail);
    lemma_encode_concat(head, mid);
    lemma_encode_ascii(b);
}

/// A string whose encoding lacks an ASCII byte lacks that character.
pub proof fn lemma_byte_absent(s: Seq<char>, b: u8)
    requires
        b < 0x80,
        forall|j: int| 0 <= j < encode_utf8(s).len() ==> encode_utf8(s)[j] != b,
    ensures
        !s.contains(ascii_char(b)),
{
    if s.contains(ascii_char(b)) {
        let i = choose|i: int| 0 <= i < s.len() && s[i] == ascii_char(b);
        lemma_ascii_char_in_encoding(s, i, b);
    }
}

/// An ASCII byte of a valid encoding starts a character and the next
/// character starts right after it.
pub proof fn lemma_boundary_around_ascii(bytes: Seq<u8>, k: int)
    requires
        valid_utf8(bytes),
        0 <= k < bytes.len(),
        bytes[k] < 0x80,
    ensures
        is_char_boundary(bytes, k),
        is_char_boundary(bytes, k + 1),
{
    is_char_boundary_iff_not_is_continuation_byte(bytes, k);
    valid_utf8_split(bytes, k);
    let tail = bytes.subrange(k, bytes.len() as int);
    let rest = pop_first_scalar(tail);
    assert(rest =~= bytes.subrange(k + 1, bytes.len() as int));
    assert(valid_utf8(rest));
    if k + 1 < bytes.len() {
        assert(valid_first_scalar(rest));
        assert(rest[0] == bytes[k + 1]);
        is_char_boundary_iff_not_is_continuation_byte(bytes, k + 1);
    } else {
        is_char_boundary_start_end_of_seq(bytes);
    }
}

/// The characters of a string on either side of a character boundary of its
/// encoding.
pub proof fn lemma_split_chars(s: Seq<char>, k: int) -> (parts: (Seq<char>, Seq<char>))
    requires
        is_char_boundary(encode_utf8(s), k),
    ensures
        0 <= k <= encode_utf8(s).len(),
        parts.0 + parts.1 == s,
        encode_utf8(parts.0) == encode_utf8(s).subrange(0, k),
        encode_utf8(parts.1) == encode_utf8(s).subrange(k, encode_utf8(s).len() as int),
{
    let bytes = encode_utf8(s);
    encode_utf8_valid_utf8(s);
    valid_utf8_split(bytes, k);
    decode_utf8_split(bytes, k);
    let left = bytes.subrange(0, k);
    let right = bytes.subrange(k, bytes.len() as int);
    decode_utf8_encode_utf8(left);
    decode_utf8_encode_utf8(right);
    encode_utf8_decode_utf8(s);
    (decode_utf8(left), decode_utf8(right))
}

/// Splits `s` at the byte offset `mid`, which falls on a character boundary.
pub(crate) fn split_at_boundary<'a>(s: &'a str, mid: usize) -> (parts: (&'a str, &'a str))
    requires
        is_char_boundary(s.spec_bytes(), mid as int),
    ensures
        parts.0@ + parts.1@ == s@,
        parts.0.spec_bytes() == s.spec_bytes().subrange(0, mid as int),
        parts.1.spec_bytes() == s.spec_bytes().subrange(mid as int, s.spec_bytes().len() as int),
{
    let parts = s.split_at(mid);
    proof {
        encode_utf8_valid_utf8(s@);
        assert(parts.0.spec_bytes() + parts.1.spec_bytes() =~= s.spec_bytes());
        lemma_encode_concat(parts.0@, parts.1@);
        lemma_encode_injective(parts.0@ + parts.1@, s@);
    }
    parts
}

/// The byte offset of the first `b` in the encoding of `s`, or the length of
/// the encoding where `b` does not occur.
pub(crate) fn find_byte(s: &str, b: u8) -> (k: usize)
    ensures
        k <= s.spec_bytes().len(),
        forall|j: int| 0 <= j < k ==> s.spec_bytes()[j] != b,
        k < s.spec_bytes().len() ==> s.spec_bytes()[k as int] == b,
{
    let bytes = s.as_bytes();
    let mut k: usize = 0;
    while k < bytes.len() && bytes[k] != b
        invariant
            k <= bytes@.len(),
            bytes@ == s.spec_bytes(),
            forall|j: int| 0 <= j < k ==> bytes@[j] != b,
        decreases bytes@.len() - k,
    {
        k += 1;
    }
    k
}

/// What `String::from_utf8_lossy` makes of bytes that are not UTF-8: the
/// characters of their valid parts, with U+FFFD in place of each invalid
/// sequence.
pub uninterp spec fn repaired_text(bytes: Seq<u8>) -> Seq<char>;

/// The text that a lenient decoder reads from `bytes`: the characters that
/// they encode where they are UTF-8, and the repaired text where they are not.
pub open spec fn lossy_text(bytes: Seq<u8>) -> Seq<char> {
    if valid_utf8(bytes) {
        decode_utf8(bytes)
    } else {
        repaired_text(bytes)
    }
}

/// `String::from_utf8_lossy` of std, whose result is owned here. Nothing is
/// proved of it. The contract claims that bytes which are UTF-8 are read as
/// the characters they encode, and that of other bytes the result is a
/// function of the bytes alone, which is named `repaired_text`.
#[verifier::external_body]
pub(crate) fn decode_lossy(bytes: &[u8]) -> (text: String)
    ensures
        text@ == if valid_utf8(bytes@) {
            decode_utf8(bytes@)
        } else {
            repaired_text(bytes@)
        },
{
    String::from_utf8_lossy(bytes).into_owned()
}

} // verus!
