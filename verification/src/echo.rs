//! The words of a command line, written out in a row.

use vstd::prelude::*;
use vstd::string::StringExecFns;

verus! {

/// The characters of each string.
pub open spec fn strings(words: Seq<String>) -> Seq<Seq<char>> {
    words.map_values(|word: String| word@)
}

/// The words in a row, with one space between each two.
pub open spec fn joined(words: Seq<Seq<char>>) -> Seq<char>
    decreases words.len(),
{
    if words.len() == 0 {
        Seq::empty()
    } else if words.len() == 1 {
        words[0]
    } else {
        joined(words.drop_last()) + seq![' '] + words.last()
    }
}

/// What is written for the words `text`: the words with a space between each
/// two, and `"\n"` behind them unless `omit_newline` is set.
pub open spec fn echoed(text: Seq<Seq<char>>, omit_newline: bool) -> Seq<char> {
    joined(text) + if omit_newline {
        Seq::empty()
    } else {
        seq!['\n']
    }
}

/// The line that echoes the words `text`.
pub fn run(text: &Vec<String>, omit_newline: bool) -> (out: String)
    ensures
        out@ == echoed(strings(text@), omit_newline),
{
    let ghost words = strings(text@);
    let mut out = String::new();
    let mut i: usize = 0;
    proof {
        assert(words.take(0) =~= Seq::<Seq<char>>::empty());
    }
    while i < text.len()
        invariant
            i <= text.len(),
            words == strings(text@),
            out@ == joined(words.take(i as int)),
        decreases text.len() - i,
    {
        proof {
            reveal_strlit(" ");
            let next = words.take(i + 1);
            assert(next.drop_last() =~= words.take(i as int));
            assert(next.last() == text@[i as int]@);
        }
        if i > 0 {
            out.append(" ");
        }
        out.append(text[i].as_str());
        assert(out@ =~= joined(words.take(i + 1)));
        i += 1;
    }
    proof {
        reveal_strlit("\n");
        assert(words.take(i as int) =~= words);
    }
    if !omit_newline {
        out.append("\n");
    }
    assert(out@ =~= echoed(words, omit_newline));
    out
}

} // verus!
