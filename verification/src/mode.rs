//! The display modes and what each shows of a text: the model that the tools
//! are proved against.

use crate::decimal::{decimal, right_justified};
use crate::encoding::lossy_text;
use crate::lines::{first_lines, lines};
use crate::text::is_blank;
use vstd::prelude::*;
use vstd::utf8::encode_utf8;

verus! {

/// How a source is shown. One mode is in force for a whole run.
#[derive(Debug, Clone, Copy, PartialEq, Eq, Structural)]
pub enum DisplayMode {
    /// Every line as it is.
    Plain,
    /// Every line behind its number.
    NumberAllLines,
    /// Every line that is not blank behind its number, blank lines as they are.
    NumberNonBlankLines,
    /// The first lines only, as many as given.
    LimitLines(u64),
    /// The first bytes only, as many as given, read as text.
    LimitBytes(u64),
}

/// What a run reads next from a source.
#[derive(Debug, Clone, Copy, PartialEq, Eq, Structural)]
pub enum Demand {
    /// One more line, up to and with its terminator.
    Line,
    /// No more than so many bytes.
    Bytes(u64),
    /// Nothing: the source has given all that is shown of it.
    Nothing,
}

impl DisplayMode {
    /// What is read next from a source of which `lines_read` lines and
    /// `bytes_read` bytes have been read. Under a line limit, lines are read
    /// until the limit is met; under a byte limit, never more bytes than the
    /// limit leaves; else line by line, for as long as the source lasts.
    pub open spec fn spec_demand(&self, lines_read: u64, bytes_read: u64) -> Demand {
        match *self {
            DisplayMode::LimitLines(n) => if lines_read < n {
                Demand::Line
            } else {
                Demand::Nothing
            },
            DisplayMode::LimitBytes(n) => if bytes_read < n {
                Demand::Bytes((n - bytes_read) as u64)
            } else {
                Demand::Nothing
            },
            _ => Demand::Line,
        }
    }

    /// What is read next from a source of which `lines_read` lines and
    /// `bytes_read` bytes have been read.
    #[verifier::when_used_as_spec(spec_demand)]
    pub fn demand(&self, lines_read: u64, bytes_read: u64) -> (next: Demand)
        ensures
            next == self.spec_demand(lines_read, bytes_read),
    {
        match *self {
            DisplayMode::LimitLines(n) => if lines_read < n {
                Demand::Line
            } else {
                Demand::Nothing
            },
            DisplayMode::LimitBytes(n) => if bytes_read < n {
                Demand::Bytes(n - bytes_read)
            } else {
                Demand::Nothing
            },
            _ => Demand::Line,
        }
    }
}

/// The width of the column that holds the line numbers.
pub const NUMBER_WIDTH: usize = 6;

/// A line as it is shown without a number.
pub open spec fn plain_line(line: Seq<char>) -> Seq<char> {
    line + seq!['\n']
}

/// A line as it is shown behind the number `n`: the number flush right in
/// its column, a tab, the line.
pub open spec fn numbered_line(n: nat, line: Seq<char>) -> Seq<char> {
    right_justified(decimal(n), NUMBER_WIDTH as nat) + seq!['\t'] + line + seq!['\n']
}

/// The test for a line that is not blank.
pub open spec fn not_blank() -> spec_fn(Seq<char>) -> bool {
    |line: Seq<char>| !is_blank(line)
}

/// How many of the lines before the `i`-th are not blank.
pub open spec fn nonblank_before(all: Seq<Seq<char>>, i: int) -> nat {
    all.take(i).filter(not_blank()).len()
}

/// The number that a mode shows in front of the `i`-th of the lines `all`,
/// counting lines from 0 and numbers from 1. Where all lines are numbered,
/// the `i`-th line has the number `i + 1`. Where blank lines are not, a blank
/// line has none, and a line that is not blank has the number that follows
/// the count of such lines before it. The other modes show no numbers.
pub open spec fn number_of(mode: DisplayMode, all: Seq<Seq<char>>, i: int) -> Option<nat> {
    match mode {
        DisplayMode::NumberAllLines => Some((i + 1) as nat),
        DisplayMode::NumberNonBlankLines => if is_blank(all[i]) {
            None
        } else {
            Some(nonblank_before(all, i) + 1)
        },
        _ => None,
    }
}

/// The `i`-th of the lines `all` as a mode shows it: behind its number where
/// it has one, else as it is.
pub open spec fn shown_line(mode: DisplayMode, all: Seq<Seq<char>>, i: int) -> Seq<char> {
    match number_of(mode, all, i) {
        Some(n) => numbered_line(n, all[i]),
        None => plain_line(all[i]),
    }
}

/// The lines `all` as a mode shows them, one after the other.
pub open spec fn shown_lines(mode: DisplayMode, all: Seq<Seq<char>>) -> Seq<Seq<char>> {
    Seq::new(all.len(), |i: int| shown_line(mode, all, i))
}

/// As many of `bytes` as the limit `n` admits.
pub open spec fn limited(bytes: Seq<u8>, n: nat) -> Seq<u8> {
    bytes.take(
        if n <= bytes.len() {
            n as int
        } else {
            bytes.len() as int
        },
    )
}

/// What a mode shows of a text.
pub open spec fn shown_text(mode: DisplayMode, text: Seq<char>) -> Seq<char> {
    match mode {
        DisplayMode::LimitLines(n) => first_lines(text, n as nat),
        DisplayMode::LimitBytes(n) => lossy_text(limited(encode_utf8(text), n as nat)),
        _ => shown_lines(mode, lines(text)).flatten(),
    }
}

/// What a mode shows of a source with the content `data`. The bytes are read
/// as text leniently; a byte limit is applied to the bytes before that.
pub open spec fn shown(mode: DisplayMode, data: Seq<u8>) -> Seq<char> {
    match mode {
        DisplayMode::LimitBytes(n) => lossy_text(limited(data, n as nat)),
        _ => shown_text(mode, lossy_text(data)),
    }
}

} // verus!
