//! Lines of a text. A line ends with `"\n"`; the last line of a text may lack
//! that terminator. Read without its ending, a line loses the `"\n"` and a
//! `"\r"` that stands right before it.

use crate::text::{
    lemma_prefix_through_bounds, lemma_prefix_through_ends, lemma_prefix_through_skips,
    prefix_through, split_after, strip_suffix,
};
use vstd::prelude::*;

verus! {

/// The length of the first line of `s`, its terminator included.
pub open spec fn first_line_len(s: Seq<char>) -> int {
    prefix_through(s, '\n')
}

/// The lines of `s`, each with its terminator: their concatenation is `s`.
pub open spec fn raw_lines(s: Seq<char>) -> Seq<Seq<char>>
    decreases s.len(),
    via raw_lines_decreases
{
    if s.len() == 0 {
        Seq::empty()
    } else {
        seq![s.take(first_line_len(s))] + raw_lines(s.skip(first_line_len(s)))
    }
}

#[via_fn]
proof fn raw_lines_decreases(s: Seq<char>) {
    lemma_prefix_through_bounds(s, '\n');
}

/// A line without its ending: without the final `"\n"`, and without a `"\r"`
/// right before that.
pub open spec fn without_ending(line: Seq<char>) -> Seq<char> {
    if line.len() > 0 && line.last() == '\n' {
        let cut = line.drop_last();
        if cut.len() > 0 && cut.last() == '\r' {
            cut.drop_last()
        } else {
            cut
        }
    } else {
        line
    }
}

/// The lines of `s` without their endings.
pub open spec fn lines(s: Seq<char>) -> Seq<Seq<char>> {
    raw_lines(s).map_values(|line: Seq<char>| without_ending(line))
}

/// The characters of each slice.
pub open spec fn texts(slices: Seq<&str>) -> Seq<Seq<char>> {
    slices.map_values(|s: &str| s@)
}

/// A non-empty text is its first line followed by the lines of the rest.
pub proof fn lemma_raw_lines_unfold(s: Seq<char>)
    requires
        s.len() > 0,
    ensures
        1 <= first_line_len(s) <= s.len(),
        raw_lines(s) == seq![s.take(first_line_len(s))] + raw_lines(s.skip(first_line_len(s))),
        raw_lines(s).len() > 0,
        raw_lines(s)[0] == s.take(first_line_len(s)),
        raw_lines(s).skip(1) == raw_lines(s.skip(first_line_len(s))),
        lines(s) == seq![without_ending(s.take(first_line_len(s)))] + lines(
            s.skip(first_line_len(s)),
        ),
{
    lemma_prefix_through_bounds(s, '\n');
    let first = s.take(first_line_len(s));
    let rest = raw_lines(s.skip(first_line_len(s)));
    assert(raw_lines(s).skip(1) =~= rest);
    assert(lines(s) =~= seq![without_ending(first)] + lines(s.skip(first_line_len(s))));
}

/// Cuts the first line, terminator included, off `text`.
pub fn split_first_line<'a>(text: &'a str) -> (parts: (&'a str, &'a str))
    ensures
        parts.0@ == text@.take(first_line_len(text@)),
        parts.1@ == text@.skip(first_line_len(text@)),
{
    split_after(text, '\n')
}

/// The line without its ending.
pub fn trim_ending<'a>(line: &'a str) -> (trimmed: &'a str)
    ensures
        trimmed@ == without_ending(line@),
{
    match strip_suffix(line, '\n') {
        None => line,
        Some(cut) => match strip_suffix(cut, '\r') {
            None => cut,
            Some(bare) => bare,
        },
    }
}

/// The lines of `text`, without their endings, in order.
pub fn split_lines<'a>(text: &'a str) -> (found: Vec<&'a str>)
    ensures
        texts(found@) == lines(text@),
{
    let mut found: Vec<&'a str> = Vec::new();
    let mut rest: &'a str = text;
    assert(texts(found@) + lines(rest@) =~= lines(text@));
    while !rest.is_empty()
        invariant
            texts(found@) + lines(rest@) == lines(text@),
        decreases rest@.len(),
    {
        proof {
            lemma_raw_lines_unfold(rest@);
        }
        let ghost before = texts(found@);
        let (line, tail) = split_first_line(rest);
        found.push(trim_ending(line));
        rest = tail;
        assert(texts(found@) =~= before.push(without_ending(line@)));
        assert(texts(found@) + lines(rest@) =~= lines(text@));
    }
    assert(lines(rest@) =~= Seq::<Seq<char>>::empty());
    assert(texts(found@) =~= lines(text@));
    found
}

/// The text up to the end of its `n`-th line, terminator included; all of the
/// text where it has fewer than `n` lines.
pub open spec fn first_lines(s: Seq<char>, n: nat) -> Seq<char> {
    let all = raw_lines(s);
    all.take(if n <= all.len() { n as int } else { all.len() as int }).flatten()
}

/// A line with its terminator, or a last line without one: it is not empty,
/// and holds no `"\n"` before its last character.
pub open spec fn is_line(line: Seq<char>) -> bool {
    line.len() > 0 && !line.drop_last().contains('\n')
}

/// A sequence of lines as a text splits into: every one but the last ends
/// with `"\n"`.
pub open spec fn well_split(all: Seq<Seq<char>>) -> bool {
    forall|i: int|
        0 <= i < all.len() ==> is_line(#[trigger] all[i]) && (i + 1 < all.len() ==> all[i].last()
            == '\n')
}

/// The lines of a text, put together again, are the text.
pub proof fn lemma_raw_lines_flatten(s: Seq<char>)
    ensures
        raw_lines(s).flatten() == s,
    decreases s.len(),
{
    if s.len() > 0 {
        lemma_raw_lines_unfold(s);
        let k = first_line_len(s);
        lemma_raw_lines_flatten(s.skip(k));
        assert(raw_lines(s).drop_first() =~= raw_lines(s.skip(k)));
        assert(s.take(k) + s.skip(k) =~= s);
    }
}

/// The lines of a text are well split.
pub proof fn lemma_raw_lines_well_split(s: Seq<char>)
    ensures
        well_split(raw_lines(s)),
    decreases s.len(),
{
    if s.len() > 0 {
        lemma_raw_lines_unfold(s);
        lemma_prefix_through_ends(s, '\n');
        let k = first_line_len(s);
        let first = s.take(k);
        let rest = raw_lines(s.skip(k));
        lemma_raw_lines_well_split(s.skip(k));
        let all = raw_lines(s);
        assert forall|i: int| 0 <= i < all.len() implies is_line(#[trigger] all[i]) && (i + 1
            < all.len() ==> all[i].last() == '\n') by {
            if i == 0 {
                assert(all[0] == first);
                if first.drop_last().contains('\n') {
                    let j = choose|j: int|
                        0 <= j < first.drop_last().len() && first.drop_last()[j] == '\n';
                    assert(s[j] == '\n');
                }
                if 1 < all.len() {
                    assert(rest.len() > 0);
                    assert(s.skip(k).len() > 0);
                }
            } else {
                assert(all[i] == rest[i - 1]);
            }
        }
    }
}

/// Well-split lines, put together, split into themselves again.
pub proof fn lemma_raw_lines_of_flatten(all: Seq<Seq<char>>)
    requires
        well_split(all),
    ensures
        raw_lines(all.flatten()) == all,
    decreases all.len(),
{
    if all.len() > 0 {
        let first = all[0];
        let rest = all.drop_first();
        let tail = rest.flatten();
        let s = first + tail;
        assert(all.flatten() == s);
        assert forall|i: int| 0 <= i < rest.len() implies is_line(#[trigger] rest[i]) && (i + 1
            < rest.len() ==> rest[i].last() == '\n') by {
            assert(rest[i] == all[i + 1]);
        }
        lemma_raw_lines_of_flatten(rest);
        assert(is_line(first));
        let body = first.drop_last();
        let end = seq![first.last()];
        assert(first =~= body + end);
        assert(s =~= body + (end + tail));
        lemma_prefix_through_skips(body, end + tail, '\n');
        if rest.len() > 0 {
            assert(first.last() == '\n');
            assert(prefix_through(end + tail, '\n') == 1);
        } else {
            assert(tail =~= Seq::<char>::empty());
            assert(end + tail =~= end);
            assert(end.drop_first() =~= Seq::<char>::empty());
            assert(prefix_through(end, '\n') == 1);
        }
        assert(first_line_len(s) == first.len());
        lemma_raw_lines_unfold(s);
        assert(s.take(first_line_len(s)) =~= first);
        assert(s.skip(first_line_len(s)) =~= tail);
        assert(raw_lines(s) =~= all);
    } else {
        assert(all.flatten() =~= Seq::<char>::empty());
        assert(all =~= Seq::<Seq<char>>::empty());
    }
}

/// A text with no more than `n` lines is kept whole by `first_lines`.
pub proof fn lemma_first_lines_whole(s: Seq<char>, n: nat)
    requires
        raw_lines(s).len() <= n,
    ensures
        first_lines(s, n) == s,
{
    lemma_raw_lines_flatten(s);
    assert(raw_lines(s).take(raw_lines(s).len() as int) =~= raw_lines(s));
}

/// Of a text with `n` lines or more, `first_lines` keeps the first `n` lines
/// and nothing else.
pub proof fn lemma_first_lines_exact(s: Seq<char>, n: nat)
    requires
        n <= raw_lines(s).len(),
    ensures
        raw_lines(first_lines(s, n)) == raw_lines(s).take(n as int),
        raw_lines(first_lines(s, n)).len() == n,
{
    lemma_raw_lines_well_split(s);
    let all = raw_lines(s);
    let kept = all.take(n as int);
    assert forall|i: int| 0 <= i < kept.len() implies is_line(#[trigger] kept[i]) && (i + 1
        < kept.len() ==> kept[i].last() == '\n') by {
        assert(kept[i] == all[i]);
    }
    lemma_raw_lines_of_flatten(kept);
}

} // verus!
