//! Concatenation of sources to the standard output, with or without line
//! numbers.

use crate::decimal::{decimal_string, right_justify};
use crate::encoding::decode_lossy;
use crate::laws::{
    counting, ends_in_return, ends_lines_plainly, lemma_numbers_count_up, lemma_plain_is_identity,
    lemma_plain_keeps_lines, lemma_shown_lines_split, numbered_count, numbers_shown,
};
use crate::lines::{lines, raw_lines, split_lines, texts};
use crate::mode::{
    nonblank_before, not_blank, numbered_line, shown, shown_line, shown_lines, shown_text,
    DisplayMode, NUMBER_WIDTH,
};
use crate::source::{any_failed, lemma_any_failed_next, Outcome, Source};
use crate::text::line_is_blank;
use vstd::prelude::*;
use vstd::string::StringExecFns;

verus! {

/// What to concatenate and how to number it.
#[derive(Debug)]
pub struct Config {
    pub files: Vec<String>,
    pub number_lines: bool,
    pub number_nonblank_lines: bool,
}

impl Config {
    /// The mode that the flags select. Numbering every line goes before
    /// numbering the lines that are not blank.
    pub open spec fn spec_mode(&self) -> DisplayMode {
        if self.number_lines {
            DisplayMode::NumberAllLines
        } else if self.number_nonblank_lines {
            DisplayMode::NumberNonBlankLines
        } else {
            DisplayMode::Plain
        }
    }

    /// The mode that the flags select.
    #[verifier::when_used_as_spec(spec_mode)]
    pub fn mode(&self) -> (mode: DisplayMode)
        ensures
            mode == self.spec_mode(),
    {
        if self.number_lines {
            DisplayMode::NumberAllLines
        } else if self.number_nonblank_lines {
            DisplayMode::NumberNonBlankLines
        } else {
            DisplayMode::Plain
        }
    }
}

/// The line behind the number `count`, ready for output.
pub fn print_numbered_line(count: usize, line: &str) -> (out: String)
    ensures
        out@ == numbered_line(count as nat, line@),
{
    let digits = decimal_string(count as u64);
    let mut out = right_justify(digits.as_str(), NUMBER_WIDTH);
    proof {
        reveal_strlit("\t");
        reveal_strlit("\n");
    }
    out.append("\t");
    out.append(line);
    out.append("\n");
    assert(out@ =~= numbered_line(count as nat, line@));
    out
}

/// What the configured mode shows of `text`: its lines in order, each ended
/// by `"\n"`, numbered as the mode asks. There is one line of output for each
/// line of the text. Where lines are numbered, the numbers start at 1 and
/// leave no gap; where blank lines are not numbered, they are shown as they
/// are. Without numbers the lines of the output are the lines of the text,
/// unless one of these ends in a carriage return.
pub fn print_buffer(config: &Config, text: &str) -> (out: String)
    ensures
        out@ == shown_text(config.mode(), text@),
        raw_lines(out@).len() == lines(text@).len(),
        forall|i: int|
            0 <= i < lines(text@).len() ==> #[trigger] raw_lines(out@)[i] == shown_line(
                config.mode(),
                lines(text@),
                i,
            ),
        numbers_shown(config.mode(), lines(text@), lines(text@).len() as int) == counting(
            numbered_count(config.mode(), lines(text@), lines(text@).len() as int),
        ),
        config.mode() is Plain && (forall|i: int|
            0 <= i < lines(text@).len() ==> !ends_in_return(#[trigger] lines(text@)[i]))
            ==> lines(out@) == lines(text@),
        config.mode() is Plain && ends_lines_plainly(text@) ==> out@ == text@,
{
    let mode = config.mode();
    let all = split_lines(text);
    let ghost model = lines(text@);
    let ghost target = shown_lines(mode, model);
    let mut out = String::new();
    let mut count: usize = 0;
    let mut i: usize = 0;
    proof {
        assert(target.take(0).flatten() =~= Seq::<char>::empty());
        assert(model.take(0) =~= Seq::<Seq<char>>::empty());
        assert(model.take(0).filter(not_blank()).len() == 0) by {
            model.take(0).lemma_filter_len(not_blank());
        }
    }
    while i < all.len()
        invariant
            i <= all.len(),
            texts(all@) == model,
            target == shown_lines(mode, model),
            mode == config.mode(),
            out@ == target.take(i as int).flatten(),
            count <= i,
            mode is NumberAllLines ==> count == i,
            mode is NumberNonBlankLines ==> count == nonblank_before(model, i as int),
        decreases all.len() - i,
    {
        let line: &str = all[i];
        let ghost before = out@;
        proof {
            assert(texts(all@)[i as int] == line@);
            assert(target[i as int] == shown_line(mode, model, i as int));
            model.lemma_take_succ_push(i as int);
            model.take(i as int).lemma_filter_len_push(not_blank(), model[i as int]);
            target.lemma_take_succ_push(i as int);
            target.take(i as int).lemma_flatten_push(target[i as int]);
        }
        let numbered = match mode {
            DisplayMode::NumberAllLines => true,
            DisplayMode::NumberNonBlankLines => !line_is_blank(line),
            _ => false,
        };
        if numbered {
            count += 1;
            let shown = print_numbered_line(count, line);
            out.append(shown.as_str());
        } else {
            proof {
                reveal_strlit("\n");
            }
            out.append(line);
            out.append("\n");
        }
        assert(out@ =~= before + target[i as int]);
        i += 1;
    }
    proof {
        assert(target.take(i as int) =~= target);
        lemma_shown_lines_split(mode, text@);
        lemma_numbers_count_up(mode, model, model.len() as int);
        if mode is Plain {
            if forall|i: int| 0 <= i < model.len() ==> !ends_in_return(#[trigger] model[i]) {
                lemma_plain_keeps_lines(text@);
            }
            if ends_lines_plainly(text@) {
                lemma_plain_is_identity(text@);
            }
        }
    }
    out
}

/// What `run` writes to the standard output for one source: what the mode
/// shows of it, and nothing for a source that could not be opened.
pub open spec fn stdout_part(config: Config, source: Source) -> Seq<char> {
    match source.content {
        Ok(data) => shown(config.mode(), data@),
        Err(_) => Seq::empty(),
    }
}

/// What `run` writes to the standard error for one source: for a source that
/// could not be opened a line with its name and the cause, else nothing.
pub open spec fn stderr_part(source: Source) -> Seq<char> {
    match source.content {
        Ok(_) => Seq::empty(),
        Err(cause) => "Failed to open "@ + source.name@ + ": "@ + cause@ + "\n"@,
    }
}

/// The standard output of a run, source by source.
pub open spec fn stdout_parts(config: Config, sources: Seq<Source>) -> Seq<Seq<char>> {
    Seq::new(sources.len(), |i: int| stdout_part(config, sources[i]))
}

/// The standard error of a run, source by source.
pub open spec fn stderr_parts(sources: Seq<Source>) -> Seq<Seq<char>> {
    Seq::new(sources.len(), |i: int| stderr_part(sources[i]))
}

/// Goes through the sources in order. Each one that was opened is shown on
/// the standard output in the configured mode. Each one that was not is
/// reported on the standard error, and the run goes on with the next; it then
/// ends as failed.
pub fn run(config: &Config, sources: &Vec<Source>) -> (outcome: Outcome)
    ensures
        outcome.stdout@ == stdout_parts(*config, sources@).flatten(),
        outcome.stderr@ == stderr_parts(sources@).flatten(),
        outcome.failed == any_failed(sources@),
{
    let mut stdout = String::new();
    let mut stderr = String::new();
    let mut failed = false;
    let ghost outs = stdout_parts(*config, sources@);
    let ghost errs = stderr_parts(sources@);
    proof {
        assert(outs.take(0).flatten() =~= Seq::<char>::empty());
        assert(errs.take(0).flatten() =~= Seq::<char>::empty());
    }
    let mut i: usize = 0;
    while i < sources.len()
        invariant
            i <= sources.len(),
            outs == stdout_parts(*config, sources@),
            errs == stderr_parts(sources@),
            stdout@ == outs.take(i as int).flatten(),
            stderr@ == errs.take(i as int).flatten(),
            failed == any_failed(sources@.take(i as int)),
        decreases sources.len() - i,
    {
        let source = &sources[i];
        let ghost out_before = stdout@;
        let ghost err_before = stderr@;
        proof {
            outs.lemma_take_succ_push(i as int);
            outs.take(i as int).lemma_flatten_push(outs[i as int]);
            errs.lemma_take_succ_push(i as int);
            errs.take(i as int).lemma_flatten_push(errs[i as int]);
        }
        match &source.content {
            Ok(data) => {
                let text = decode_lossy(data.as_slice());
                let shown = print_buffer(config, text.as_str());
                stdout.append(shown.as_str());
            },
            Err(cause) => {
                stderr.append("Failed to open ");
                stderr.append(source.name.as_str());
                stderr.append(": ");
                stderr.append(cause.as_str());
                stderr.append("\n");
                failed = true;
            },
        }
        proof {
            assert(stdout@ =~= out_before + outs[i as int]);
            assert(stderr@ =~= err_before + errs[i as int]);
            lemma_any_failed_next(sources@, i as int);
        }
        i += 1;
    }
    proof {
        assert(outs.take(i as int) =~= outs);
        assert(errs.take(i as int) =~= errs);
        assert(sources@.take(i as int) =~= sources@);
    }
    Outcome { stdout, stderr, failed }
}

} // verus!
