//! What holds of the display modes for every text: which numbers are
//! shown, that the lines of a text are kept, what the limits let through.

use crate::decimal::{
    decimal, decimal_value, is_digit, lemma_decimal_digits, lemma_decimal_value, right_justified,
};
use crate::encoding::lossy_text;
use crate::lines::{
    first_line_len, first_lines, is_line, lemma_first_lines_exact, lemma_first_lines_whole,
    lemma_raw_lines_of_flatten, lemma_raw_lines_unfold, lemma_raw_lines_well_split, lines,
    raw_lines, without_ending,
};
use crate::mode::{
    limited, nonblank_before, not_blank, number_of, numbered_line, plain_line, shown, shown_line,
    shown_lines, shown_text, DisplayMode, NUMBER_WIDTH,
};
use crate::text::{is_blank, lemma_prefix_through_ends};
use vstd::prelude::*;
use vstd::seq_lib::lemma_flatten_concat;
use vstd::utf8::{decode_utf8, decode_utf8_encode_utf8, encode_utf8, valid_utf8};

verus! {

/// Whether a mode shows a text line by line, each line whole.
pub open spec fn shows_whole_lines(mode: DisplayMode) -> bool {
    mode is Plain || mode is NumberAllLines || mode is NumberNonBlankLines
}

/// The numbers that a mode shows in front of the first `upto` of the lines
/// `all`, in the order of the lines.
pub open spec fn numbers_shown(mode: DisplayMode, all: Seq<Seq<char>>, upto: int) -> Seq<nat>
    decreases upto,
{
    if upto <= 0 {
        Seq::empty()
    } else {
        match number_of(mode, all, upto - 1) {
            Some(n) => numbers_shown(mode, all, upto - 1).push(n),
            None => numbers_shown(mode, all, upto - 1),
        }
    }
}

/// How many of the first `upto` of the lines `all` a mode numbers.
pub open spec fn numbered_count(mode: DisplayMode, all: Seq<Seq<char>>, upto: int) -> nat {
    match mode {
        DisplayMode::NumberAllLines => upto as nat,
        DisplayMode::NumberNonBlankLines => nonblank_before(all, upto),
        _ => 0,
    }
}

/// The numbers from 1 to `count`.
pub open spec fn counting(count: nat) -> Seq<nat> {
    Seq::new(count, |k: int| (k + 1) as nat)
}

/// The numbers that a mode shows are 1, 2, 3 and so on, without a gap, as
/// many as it numbers lines. Where all lines are numbered, the `n`-th line
/// has the number `n`.
pub proof fn lemma_numbers_count_up(mode: DisplayMode, all: Seq<Seq<char>>, upto: int)
    requires
        0 <= upto <= all.len(),
    ensures
        numbers_shown(mode, all, upto) == counting(numbered_count(mode, all, upto)),
        mode is NumberAllLines ==> numbered_count(mode, all, upto) == upto,
    decreases upto,
{
    if upto == 0 {
        assert(all.take(0) =~= Seq::<Seq<char>>::empty());
        all.take(0).lemma_filter_len(not_blank());
        assert(numbers_shown(mode, all, upto) =~= counting(numbered_count(mode, all, upto)));
    } else {
        lemma_numbers_count_up(mode, all, upto - 1);
        all.lemma_take_succ_push(upto - 1);
        all.take(upto - 1).lemma_filter_len_push(not_blank(), all[upto - 1]);
        assert(numbers_shown(mode, all, upto) =~= counting(numbered_count(mode, all, upto)));
    }
}

/// A line of a text holds no `"\n"`.
pub proof fn lemma_lines_hold_no_newline(text: Seq<char>, i: int)
    requires
        0 <= i < lines(text).len(),
    ensures
        !lines(text)[i].contains('\n'),
{
    lemma_raw_lines_well_split(text);
    let raw = raw_lines(text)[i];
    let line = lines(text)[i];
    assert(line == without_ending(raw));
    assert(is_line(raw));
    if line.contains('\n') {
        let j = choose|j: int| 0 <= j < line.len() && line[j] == '\n';
        if raw.last() == '\n' {
            assert(raw.drop_last()[j] == '\n');
        } else {
            if j < raw.len() - 1 {
                assert(raw.drop_last()[j] == '\n');
            }
        }
    }
}

/// A line as it is shown, with or without a number, is one line.
proof fn lemma_shown_line_is_line(mode: DisplayMode, all: Seq<Seq<char>>, i: int)
    requires
        0 <= i < all.len(),
        !all[i].contains('\n'),
    ensures
        is_line(shown_line(mode, all, i)),
        shown_line(mode, all, i).last() == '\n',
        without_ending(plain_line(all[i])) == if all[i].len() > 0 && all[i].last() == '\r' {
            all[i].drop_last()
        } else {
            all[i]
        },
{
    let line = all[i];
    let shown = shown_line(mode, all, i);
    assert(plain_line(line).drop_last() =~= line);
    match number_of(mode, all, i) {
        Some(n) => {
            lemma_decimal_digits(n);
            let field = right_justified(decimal(n), NUMBER_WIDTH as nat);
            let body = field + seq!['\t'] + line;
            assert(shown.drop_last() =~= body);
            if body.contains('\n') {
                let j = choose|j: int| 0 <= j < body.len() && body[j] == '\n';
                let pad = field.len() - decimal(n).len();
                if j < pad {
                } else if j < field.len() {
                    assert(is_digit(decimal(n)[j - pad]));
                } else if j > field.len() {
                    assert(line[j - field.len() - 1] == '\n');
                }
            }
        },
        None => {
            if line.contains('\n') {
            }
        },
    }
}

/// What a mode that shows whole lines makes of a text splits into the lines
/// as that mode shows them: one line shown for each line of the text.
pub proof fn lemma_shown_lines_split(mode: DisplayMode, text: Seq<char>)
    requires
        shows_whole_lines(mode),
    ensures
        raw_lines(shown_text(mode, text)) == shown_lines(mode, lines(text)),
        raw_lines(shown_text(mode, text)).len() == lines(text).len(),
{
    let all = lines(text);
    let target = shown_lines(mode, all);
    assert forall|i: int| 0 <= i < target.len() implies is_line(#[trigger] target[i]) && (i + 1
        < target.len() ==> target[i].last() == '\n') by {
        lemma_lines_hold_no_newline(text, i);
        lemma_shown_line_is_line(mode, all, i);
    }
    lemma_raw_lines_of_flatten(target);
}

/// Where all lines are numbered, the text shown has a line for each line of
/// the text, and the `n`-th of them, counting from 1, is the `n`-th line of
/// the text behind the number `n`, whose digits read as `n`.
pub proof fn lemma_every_line_numbered(text: Seq<char>, n: nat)
    requires
        1 <= n <= lines(text).len(),
    ensures
        raw_lines(shown_text(DisplayMode::NumberAllLines, text)).len() == lines(text).len(),
        raw_lines(shown_text(DisplayMode::NumberAllLines, text))[n - 1] == numbered_line(
            n,
            lines(text)[n - 1],
        ),
        numbers_shown(DisplayMode::NumberAllLines, lines(text), lines(text).len() as int)
            == counting(lines(text).len()),
        decimal_value(decimal(n)) == n,
{
    lemma_decimal_value(n);
    lemma_shown_lines_split(DisplayMode::NumberAllLines, text);
    lemma_numbers_count_up(DisplayMode::NumberAllLines, lines(text), lines(text).len() as int);
}

/// Where blank lines are not numbered, the text shown has a line for each
/// line of the text. A blank line is shown as it is. A line that is not blank
/// is shown behind the number that follows the count of such lines before
/// it, so that the numbers shown are 1, 2, 3 and so on without a gap.
pub proof fn lemma_nonblank_lines_numbered(text: Seq<char>, i: int)
    requires
        0 <= i < lines(text).len(),
    ensures
        raw_lines(shown_text(DisplayMode::NumberNonBlankLines, text)).len() == lines(text).len(),
        is_blank(lines(text)[i]) ==> raw_lines(
            shown_text(DisplayMode::NumberNonBlankLines, text),
        )[i] == plain_line(lines(text)[i]),
        !is_blank(lines(text)[i]) ==> raw_lines(
            shown_text(DisplayMode::NumberNonBlankLines, text),
        )[i] == numbered_line(nonblank_before(lines(text), i) + 1, lines(text)[i]),
        numbers_shown(DisplayMode::NumberNonBlankLines, lines(text), lines(text).len() as int)
            == counting(nonblank_before(lines(text), lines(text).len() as int)),
{
    lemma_shown_lines_split(DisplayMode::NumberNonBlankLines, text);
    lemma_numbers_count_up(
        DisplayMode::NumberNonBlankLines,
        lines(text),
        lines(text).len() as int,
    );
}

/// Whether a line ends in a carriage return.
pub open spec fn ends_in_return(line: Seq<char>) -> bool {
    line.len() > 0 && line.last() == '\r'
}

/// Plain mode keeps the lines of a text: what it shows has the same lines, in
/// the same order. Left out are the texts with a line that, read without its
/// ending, still ends in a carriage return.
pub proof fn lemma_plain_keeps_lines(text: Seq<char>)
    requires
        forall|i: int| 0 <= i < lines(text).len() ==> !ends_in_return(#[trigger] lines(text)[i]),
    ensures
        lines(shown_text(DisplayMode::Plain, text)) == lines(text),
{
    let all = lines(text);
    let shown = shown_text(DisplayMode::Plain, text);
    lemma_shown_lines_split(DisplayMode::Plain, text);
    assert forall|i: int| 0 <= i < all.len() implies #[trigger] lines(shown)[i] == all[i] by {
        lemma_lines_hold_no_newline(text, i);
        lemma_shown_line_is_line(DisplayMode::Plain, all, i);
        assert(raw_lines(shown)[i] == plain_line(all[i]));
    }
    assert(lines(shown) =~= all);
}

/// Whether a text is in the form that plain mode writes: it is empty or ends
/// with `"\n"`, and no `"\n"` in it stands behind a carriage return.
pub open spec fn ends_lines_plainly(text: Seq<char>) -> bool {
    &&& text.len() > 0 ==> text.last() == '\n'
    &&& forall|i: int| 0 <= i < text.len() - 1 ==> !(text[i] == '\r' && #[trigger] text[i + 1] == '\n')
}

/// Plain mode shows a text that ends its lines plainly as it is, character
/// for character.
pub proof fn lemma_plain_is_identity(text: Seq<char>)
    requires
        ends_lines_plainly(text),
    ensures
        shown_text(DisplayMode::Plain, text) == text,
    decreases text.len(),
{
    let mode = DisplayMode::Plain;
    if text.len() == 0 {
        assert(lines(text) =~= Seq::<Seq<char>>::empty());
        assert(shown_lines(mode, lines(text)) =~= Seq::<Seq<char>>::empty());
    } else {
        lemma_raw_lines_unfold(text);
        lemma_prefix_through_ends(text, '\n');
        let k = first_line_len(text);
        let first = text.take(k);
        let rest = text.skip(k);
        assert(first.last() == '\n');
        assert forall|i: int| 0 <= i < rest.len() - 1 implies !(rest[i] == '\r' && #[trigger] rest[i
            + 1] == '\n') by {
            assert(rest[i + 1] == text[k + i + 1]);
        }
        assert(ends_lines_plainly(rest));
        lemma_plain_is_identity(rest);
        let cut = first.drop_last();
        if cut.len() > 0 && cut.last() == '\r' {
            assert(text[k - 2 + 1] == '\n');
            assert(text[k - 2] == '\r');
        }
        assert(plain_line(without_ending(first)) =~= first);
        let shown = shown_lines(mode, lines(text));
        assert(shown =~= seq![first] + shown_lines(mode, lines(rest)));
        lemma_flatten_concat(seq![first], shown_lines(mode, lines(rest)));
        seq![first].lemma_flatten_singleton();
        assert(first + rest =~= text);
    }
}

/// A line limit keeps a text whole that has no more lines than the limit, and
/// keeps the first lines of a longer text, as many as the limit, and nothing
/// else. What it keeps it keeps again, so that nothing is lost where no more
/// of the text is read.
pub proof fn lemma_limit_lines(text: Seq<char>, n: u64)
    ensures
        raw_lines(text).len() <= n ==> shown_text(DisplayMode::LimitLines(n), text) == text,
        raw_lines(text).len() >= n ==> raw_lines(shown_text(DisplayMode::LimitLines(n), text))
            == raw_lines(text).take(n as int),
        raw_lines(text).len() >= n ==> raw_lines(shown_text(DisplayMode::LimitLines(n), text)).len()
            == n,
        shown_text(DisplayMode::LimitLines(n), shown_text(DisplayMode::LimitLines(n), text))
            == shown_text(DisplayMode::LimitLines(n), text),
{
    let kept = shown_text(DisplayMode::LimitLines(n), text);
    if raw_lines(text).len() <= n {
        lemma_first_lines_whole(text, n as nat);
    }
    if raw_lines(text).len() >= n {
        lemma_first_lines_exact(text, n as nat);
        lemma_first_lines_whole(kept, n as nat);
    }
}

/// A byte limit lets no more bytes of a source be read as text than the
/// limit: what is shown is the text of the first bytes of the source, as many
/// as the limit or all of them, so that nothing is lost where no more of the
/// source is read. Where these bytes are UTF-8, the text shown is no more
/// bytes long than the limit either.
pub proof fn lemma_limit_bytes(data: Seq<u8>, n: u64)
    ensures
        limited(data, n as nat).len() <= n,
        limited(data, n as nat).is_prefix_of(data),
        data.len() <= n ==> limited(data, n as nat) == data,
        shown(DisplayMode::LimitBytes(n), data) == lossy_text(limited(data, n as nat)),
        shown(DisplayMode::LimitBytes(n), limited(data, n as nat)) == shown(
            DisplayMode::LimitBytes(n),
            data,
        ),
        valid_utf8(limited(data, n as nat)) ==> encode_utf8(shown(DisplayMode::LimitBytes(n), data))
            == limited(data, n as nat),
{
    let kept = limited(data, n as nat);
    assert(limited(kept, n as nat) =~= kept);
    if data.len() <= n {
        assert(kept =~= data);
    }
    if valid_utf8(kept) {
        decode_utf8_encode_utf8(kept);
    }
}

/// Where a limit demands nothing more of a source, nothing more is needed:
/// what is shown of the part read is what is shown of the whole. Under a line
/// limit the part read is the first `lines_read` lines of the text; under a
/// byte limit it is the first `bytes_read` bytes of the source.
pub proof fn lemma_nothing_demanded_nothing_lost(
    mode: DisplayMode,
    lines_read: u64,
    bytes_read: u64,
    text: Seq<char>,
    data: Seq<u8>,
)
    requires
        mode.demand(lines_read, bytes_read) is Nothing,
        bytes_read <= data.len(),
    ensures
        mode is LimitLines ==> shown_text(mode, first_lines(text, lines_read as nat))
            == shown_text(mode, text),
        mode is LimitBytes ==> shown(mode, data.take(bytes_read as int)) == shown(mode, data),
{
    match mode {
        DisplayMode::LimitLines(n) => {
            let all = raw_lines(text);
            let read: nat = if lines_read <= all.len() {
                lines_read as nat
            } else {
                all.len()
            };
            let part = first_lines(text, lines_read as nat);
            assert(part == first_lines(text, read));
            lemma_first_lines_exact(text, read);
            let kept: int = if n <= all.len() {
                n as int
            } else {
                all.len() as int
            };
            assert(all.take(read as int).take(kept) =~= all.take(kept));
        },
        DisplayMode::LimitBytes(n) => {
            assert(limited(data.take(bytes_read as int), n as nat) =~= limited(data, n as nat));
        },
        _ => {},
    }
}

/// Plain mode writes out a source as it is, byte for byte, where the source
/// is UTF-8 text that ends its lines plainly.
pub proof fn lemma_plain_copies_source(data: Seq<u8>)
    requires
        valid_utf8(data),
        ends_lines_plainly(decode_utf8(data)),
    ensures
        encode_utf8(shown(DisplayMode::Plain, data)) == data,
{
    lemma_plain_is_identity(decode_utf8(data));
    decode_utf8_encode_utf8(data);
}

} // verus!
