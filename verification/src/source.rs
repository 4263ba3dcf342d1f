//! What a run is given and what it leaves: the named sources as their caller
//! found them, and the text for the two output streams with the exit status.

use crate::encoding::{lemma_encode_ascii, lemma_encode_injective};
use vstd::prelude::*;
use vstd::string::StringSliceAdditionalSpecFns;

verus! {

/// A named input as the caller found it: the bytes read from it, or the cause
/// for which it could not be opened.
#[derive(Debug)]
pub struct Source {
    pub name: String,
    pub content: Result<Vec<u8>, String>,
}

/// Where a name points: the name `"-"` at the standard input, any other name
/// at the file of that path.
#[derive(Debug, Clone, Copy, PartialEq, Eq, Structural)]
pub enum SourceKind {
    StandardInput,
    NamedFile,
}

/// The text written to the two output streams, and whether any source failed.
#[derive(Debug)]
pub struct Outcome {
    pub stdout: String,
    pub stderr: String,
    pub failed: bool,
}

/// The kind of source that `name` denotes.
pub open spec fn kind_of(name: Seq<char>) -> SourceKind {
    if name == seq!['-'] {
        SourceKind::StandardInput
    } else {
        SourceKind::NamedFile
    }
}

/// The kind of source that `name` denotes.
pub fn source_kind(name: &str) -> (kind: SourceKind)
    ensures
        kind == kind_of(name@),
{
    let bytes = name.as_bytes();
    proof {
        lemma_encode_ascii(0x2d);
        assert(crate::encoding::ascii_char(0x2d) == '-');
    }
    if bytes.len() == 1 && bytes[0] == 0x2d {
        proof {
            assert(name.spec_bytes() =~= seq![0x2du8]);
            lemma_encode_injective(name@, seq!['-']);
        }
        SourceKind::StandardInput
    } else {
        SourceKind::NamedFile
    }
}

/// Whether one of the sources could not be opened.
pub open spec fn any_failed(sources: Seq<Source>) -> bool {
    exists|i: int| 0 <= i < sources.len() && (#[trigger] sources[i]).content is Err
}

/// One of the first `i + 1` sources failed if one of the first `i` did or
/// the `i`-th did.
pub proof fn lemma_any_failed_next(sources: Seq<Source>, i: int)
    requires
        0 <= i < sources.len(),
    ensures
        any_failed(sources.take(i + 1)) == (any_failed(sources.take(i)) || sources[i].content is Err),
{
    let done = sources.take(i);
    let next = sources.take(i + 1);
    if any_failed(done) {
        let k = choose|k: int| 0 <= k < done.len() && (#[trigger] done[k]).content is Err;
        assert(next[k].content is Err);
    }
    if sources[i].content is Err {
        assert(next[i].content is Err);
    }
    if any_failed(next) {
        let k = choose|k: int| 0 <= k < next.len() && (#[trigger] next[k]).content is Err;
        if k < i {
            assert(done[k].content is Err);
        }
    }
}

impl Outcome {
    /// The exit status of the run: 0 where every source was read, 1 where one
    /// or more failed.
    pub fn exit_status(&self) -> (code: i32)
        ensures
            code == if self.failed {
                1i32
            } else {
                0i32
            },
    {
        if self.failed {
            1
        } else {
            0
        }
    }
}

} // verus!
