//! Operations on string slices, stated over their characters: cutting a slice
//! after a character, stripping a trailing character, substring search and the
//! test for a blank line.

use crate::encoding::{
    ascii_char, find_byte, lemma_boundary_around_ascii, lemma_byte_absent, lemma_encode_ascii,
    lemma_encode_concat, lemma_encode_injective, lemma_split_chars, split_at_boundary,
};
use vstd::prelude::*;
use vstd::string::StringSliceAdditionalSpecFns;
use vstd::utf8::*;

verus! {

/// The length of the shortest prefix of `s` that ends with `c`, or the length
/// of `s` where `c` does not occur in it.
pub open spec fn prefix_through(s: Seq<char>, c: char) -> int
    decreases s.len(),
{
    if s.len() == 0 {
        0
    } else if s[0] == c {
        1
    } else {
        1 + prefix_through(s.drop_first(), c)
    }
}

/// `prefix_through` stays within the string, and is positive on a non-empty one.
pub proof fn lemma_prefix_through_bounds(s: Seq<char>, c: char)
    ensures
        0 <= prefix_through(s, c) <= s.len(),
        s.len() > 0 ==> prefix_through(s, c) >= 1,
    decreases s.len(),
{
    if s.len() > 0 && s[0] != c {
        lemma_prefix_through_bounds(s.drop_first(), c);
    }
}

/// A prefix without `c` is passed over.
pub proof fn lemma_prefix_through_skips(a: Seq<char>, b: Seq<char>, c: char)
    requires
        !a.contains(c),
    ensures
        prefix_through(a + b, c) == a.len() + prefix_through(b, c),
    decreases a.len(),
{
    if a.len() == 0 {
        assert(a + b =~= b);
    } else {
        assert(a.contains(a[0]));
        assert((a + b).drop_first() =~= a.drop_first() + b);
        assert forall|x: char| a.drop_first().contains(x) implies a.contains(x) by {
            let i = choose|i: int| 0 <= i < a.drop_first().len() && a.drop_first()[i] == x;
            assert(a[i + 1] == x);
        }
        lemma_prefix_through_skips(a.drop_first(), b, c);
    }
}

/// Before the end of that prefix `c` does not occur, and a prefix that is not
/// all of `s` ends with `c`.
pub proof fn lemma_prefix_through_ends(s: Seq<char>, c: char)
    ensures
        forall|i: int| 0 <= i < prefix_through(s, c) - 1 ==> s[i] != c,
        prefix_through(s, c) < s.len() ==> s[prefix_through(s, c) - 1] == c,
    decreases s.len(),
{
    if s.len() > 0 && s[0] != c {
        let rest = s.drop_first();
        lemma_prefix_through_ends(rest, c);
        lemma_prefix_through_bounds(rest, c);
        assert forall|i: int| 0 <= i < prefix_through(s, c) - 1 implies s[i] != c by {
            if i > 0 {
                assert(s[i] == rest[i - 1]);
            }
        }
    }
}

/// Cuts `s` just after the first occurrence of the ASCII character `c`; where
/// `c` does not occur, the first part is all of `s`.
pub(crate) fn split_after<'a>(s: &'a str, c: char) -> (parts: (&'a str, &'a str))
    requires
        (c as u32) < 0x80,
    ensures
        parts.0@ == s@.take(prefix_through(s@, c)),
        parts.1@ == s@.skip(prefix_through(s@, c)),
{
    let b: u8 = c as u8;
    let k = find_byte(s, b);
    let n = s.as_bytes().len();
    proof {
        encode_utf8_valid_utf8(s@);
        char_u32_cast(c, c as u32);
        assert(ascii_char(b) == c);
    }
    if k < n {
        proof {
            lemma_boundary_around_ascii(s.spec_bytes(), k as int);
        }
        let parts = split_at_boundary(s, k + 1);
        proof {
            let head = parts.0@;
            encode_utf8_valid_utf8(head);
            lemma_boundary_around_ascii(encode_utf8(head), k as int);
            let (h, t) = lemma_split_chars(head, k as int);
            assert(encode_utf8(t) =~= seq![b]);
            lemma_encode_ascii(b);
            lemma_encode_injective(t, seq![c]);
            assert forall|j: int| 0 <= j < encode_utf8(h).len() implies encode_utf8(h)[j] != b by {
                assert(encode_utf8(h)[j] == s.spec_bytes()[j]);
            }
            lemma_byte_absent(h, b);
            assert(s@ =~= h + (seq![c] + parts.1@));
            lemma_prefix_through_skips(h, seq![c] + parts.1@, c);
            assert(parts.0@ =~= s@.take(prefix_through(s@, c)));
            assert(parts.1@ =~= s@.skip(prefix_through(s@, c)));
        }
        parts
    } else {
        proof {
            is_char_boundary_start_end_of_seq(s.spec_bytes());
        }
        let parts = split_at_boundary(s, k);
        proof {
            lemma_byte_absent(s@, b);
            lemma_prefix_through_skips(s@, Seq::empty(), c);
            assert(s@ + Seq::<char>::empty() =~= s@);
            assert(encode_utf8(Seq::<char>::empty()) =~= Seq::<u8>::empty());
            assert(parts.1.spec_bytes() =~= Seq::<u8>::empty());
            lemma_encode_injective(parts.1@, Seq::empty());
            assert(parts.0@ =~= s@.take(prefix_through(s@, c)));
            assert(parts.1@ =~= s@.skip(prefix_through(s@, c)));
        }
        parts
    }
}

/// The slice without its last character, where that is the ASCII character
/// `c`; `None` where the slice is empty or ends otherwise.
pub(crate) fn strip_suffix<'a>(s: &'a str, c: char) -> (stripped: Option<&'a str>)
    requires
        (c as u32) < 0x80,
    ensures
        match stripped {
            Some(t) => s@.len() > 0 && s@.last() == c && t@ == s@.drop_last(),
            None => s@.len() == 0 || s@.last() != c,
        },
{
    let b: u8 = c as u8;
    let bytes = s.as_bytes();
    let n = bytes.len();
    proof {
        encode_utf8_valid_utf8(s@);
        char_u32_cast(c, c as u32);
        assert(ascii_char(b) == c);
        lemma_encode_ascii(b);
    }
    if n > 0 && bytes[n - 1] == b {
        proof {
            lemma_boundary_around_ascii(s.spec_bytes(), n - 1);
        }
        let parts = split_at_boundary(s, n - 1);
        proof {
            assert(parts.1.spec_bytes() =~= seq![b]);
            lemma_encode_injective(parts.1@, seq![c]);
            assert(parts.0@ =~= s@.drop_last());
        }
        Some(parts.0)
    } else {
        proof {
            if s@.len() > 0 && s@.last() == c {
                let init = s@.drop_last();
                assert(s@ =~= init + seq![c]);
                lemma_encode_concat(init, seq![c]);
                assert(s.spec_bytes()[n - 1] == b);
            }
        }
        None
    }
}

/// The part of `whole` that stands before its suffix `rest`.
pub(crate) fn prefix_before<'a>(whole: &'a str, rest: &str) -> (head: &'a str)
    requires
        rest@.len() <= whole@.len(),
        whole@.skip(whole@.len() - rest@.len()) == rest@,
    ensures
        head@ == whole@.take(whole@.len() - rest@.len()),
{
    let total = whole.as_bytes().len();
    let tail = rest.as_bytes().len();
    let ghost front = whole@.take(whole@.len() - rest@.len());
    proof {
        assert(whole@ =~= front + rest@);
        lemma_encode_concat(front, rest@);
        encode_utf8_valid_utf8(whole@);
        encode_utf8_valid_utf8(front);
        let m = encode_utf8(front).len() as int;
        assert(encode_utf8(whole@).subrange(0, m) =~= encode_utf8(front));
        lemma_valid_prefix_boundary(encode_utf8(whole@), m);
    }
    let parts = split_at_boundary(whole, total - tail);
    proof {
        assert(parts.0.spec_bytes() =~= encode_utf8(front));
        lemma_encode_injective(parts.0@, front);
    }
    parts.0
}

/// Whether `needle` stands in `hay` at offset `i`.
pub open spec fn occurs_at<T>(needle: Seq<T>, hay: Seq<T>, i: int) -> bool {
    0 <= i && i + needle.len() <= hay.len() && hay.subrange(i, i + needle.len()) == needle
}

/// Whether `needle` occurs in `hay` as a run of consecutive characters. The
/// empty string occurs in every string.
pub open spec fn is_substring(needle: Seq<char>, hay: Seq<char>) -> bool {
    exists|i: int| occurs_at(needle, hay, i)
}

/// Where a prefix of a valid encoding is itself valid, it ends on a character
/// boundary.
proof fn lemma_valid_prefix_boundary(v: Seq<u8>, m: int)
    requires
        valid_utf8(v),
        0 <= m <= v.len(),
        valid_utf8(v.subrange(0, m)),
    ensures
        is_char_boundary(v, m),
    decreases v.len(),
{
    if m != 0 {
        let p = v.subrange(0, m);
        assert(valid_first_scalar(p));
        assert(p[0] == v[0]);
        let first = length_of_first_scalar(v);
        assert(first == length_of_first_scalar(p));
        assert(pop_first_scalar(p) =~= pop_first_scalar(v).subrange(0, m - first));
        lemma_valid_prefix_boundary(pop_first_scalar(v), m - first);
    }
}

/// An occurrence among the characters shows among the bytes.
proof fn lemma_occurrence_in_bytes(needle: Seq<char>, hay: Seq<char>, i: int)
    requires
        occurs_at(needle, hay, i),
    ensures
        occurs_at(encode_utf8(needle), encode_utf8(hay), encode_utf8(hay.take(i)).len() as int),
{
    let before = hay.take(i);
    let after = hay.skip(i + needle.len());
    assert(hay =~= before + needle + after);
    lemma_encode_concat(before + needle, after);
    lemma_encode_concat(before, needle);
    let k = encode_utf8(before).len() as int;
    assert(encode_utf8(hay).subrange(k, k + encode_utf8(needle).len()) =~= encode_utf8(needle));
}

/// An occurrence among the bytes is an occurrence among the characters.
proof fn lemma_occurrence_in_chars(needle: Seq<char>, hay: Seq<char>, k: int)
    requires
        occurs_at(encode_utf8(needle), encode_utf8(hay), k),
    ensures
        is_substring(needle, hay),
{
    let nb = encode_utf8(needle);
    let hb = encode_utf8(hay);
    let m = nb.len() as int;
    encode_utf8_valid_utf8(needle);
    encode_utf8_valid_utf8(hay);
    if needle.len() == 0 {
        assert(hay.subrange(0, 0) =~= needle);
        assert(occurs_at(needle, hay, 0));
    } else {
        encode_utf8_first_scalar(needle);
        assert(hb.subrange(k, k + m)[0] == hb[k]);
        is_char_boundary_iff_not_is_continuation_byte(hb, k);
        valid_utf8_split(hb, k);
        let v = hb.subrange(k, hb.len() as int);
        assert(v.subrange(0, m) =~= nb);
        lemma_valid_prefix_boundary(v, m);
        let (before, rest) = lemma_split_chars(hay, k);
        let (mid, after) = lemma_split_chars(rest, m);
        lemma_encode_injective(mid, needle);
        let i = before.len() as int;
        assert(hay.subrange(i, i + needle.len()) =~= needle);
        assert(occurs_at(needle, hay, i));
    }
}

/// Whether `needle` stands in `hay` at byte offset `i`.
fn matches_at(hay: &[u8], needle: &[u8], i: usize) -> (same: bool)
    requires
        i + needle@.len() <= hay@.len(),
    ensures
        same == occurs_at(needle@, hay@, i as int),
{
    let end: usize = hay.len();
    let mut j: usize = 0;
    while j < needle.len()
        invariant
            j <= needle@.len(),
            i + needle@.len() <= hay@.len(),
            hay@.len() == end,
            forall|t: int| 0 <= t < j ==> hay@[i + t] == needle@[t],
        decreases needle@.len() - j,
    {
        if hay[i + j] != needle[j] {
            proof {
                assert(hay@.subrange(i as int, i + needle@.len())[j as int] == hay@[i + j]);
            }
            return false;
        }
        j += 1;
    }
    proof {
        assert(hay@.subrange(i as int, i + needle@.len()) =~= needle@);
    }
    true
}

/// Whether `needle` occurs in `hay`.
pub fn contains(hay: &str, needle: &str) -> (found: bool)
    ensures
        found == is_substring(needle@, hay@),
{
    let h = hay.as_bytes();
    let n = needle.as_bytes();
    if n.len() > h.len() {
        proof {
            if is_substring(needle@, hay@) {
                let i = choose|i: int| occurs_at(needle@, hay@, i);
                lemma_occurrence_in_bytes(needle@, hay@, i);
            }
        }
        return false;
    }
    if n.len() == 0 {
        proof {
            assert(h@.subrange(0, 0) =~= n@);
            lemma_occurrence_in_chars(needle@, hay@, 0);
        }
        return true;
    }
    let last: usize = h.len() - n.len();
    let mut i: usize = 0;
    while i <= last
        invariant
            h@ == hay.spec_bytes(),
            n@ == needle.spec_bytes(),
            n@.len() > 0,
            last == h@.len() - n@.len(),
            last < usize::MAX,
            i <= last + 1,
            forall|k: int| 0 <= k < i ==> !occurs_at(n@, h@, k),
        decreases last + 1 - i,
    {
        if matches_at(h, n, i) {
            proof {
                lemma_occurrence_in_chars(needle@, hay@, i as int);
            }
            return true;
        }
        i += 1;
    }
    proof {
        if is_substring(needle@, hay@) {
            let j = choose|j: int| occurs_at(needle@, hay@, j);
            lemma_occurrence_in_bytes(needle@, hay@, j);
        }
    }
    false
}

/// Whether `c` is white space: the characters that `str::trim` removes, which
/// are those with the Unicode property `White_Space`.
pub open spec fn is_whitespace(c: char) -> bool {
    let u = c as u32;
    ||| 0x09 <= u <= 0x0d
    ||| u == 0x20
    ||| u == 0x85
    ||| u == 0xa0
    ||| u == 0x1680
    ||| 0x2000 <= u <= 0x200a
    ||| u == 0x2028
    ||| u == 0x2029
    ||| u == 0x202f
    ||| u == 0x205f
    ||| u == 0x3000
}

/// Whether a line is blank: nothing is left of it once white space is trimmed
/// from both ends, which is to say that it holds white space only.
pub open spec fn is_blank(line: Seq<char>) -> bool {
    forall|i: int| 0 <= i < line.len() ==> is_whitespace(#[trigger] line[i])
}

/// Whether `c` is white space.
pub fn char_is_whitespace(c: char) -> (white: bool)
    ensures
        white == is_whitespace(c),
{
    let u: u32 = c as u32;
    (0x09 <= u && u <= 0x0d) || u == 0x20 || u == 0x85 || u == 0xa0 || u == 0x1680 || (0x2000 <= u
        && u <= 0x200a) || u == 0x2028 || u == 0x2029 || u == 0x202f || u == 0x205f || u == 0x3000
}

/// Whether `line` is blank.
pub fn line_is_blank(line: &str) -> (blank: bool)
    ensures
        blank == is_blank(line@),
{
    let mut blank = true;
    for c in it: line.chars()
        invariant
            it.seq() == line@,
            blank == (forall|i: int| 0 <= i < it.index() ==> is_whitespace(#[trigger] line@[i])),
    {
        if !char_is_whitespace(c) {
            blank = false;
        }
    }
    blank
}

} // verus!
