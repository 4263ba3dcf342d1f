//! The head of each source: its first lines or its first bytes, behind a
//! header where several sources are shown.

use crate::encoding::{decode_lossy, lossy_text};
use crate::laws::lemma_limit_bytes;
use crate::lines::{
    first_lines, lemma_first_lines_exact, lemma_first_lines_whole, lemma_raw_lines_unfold,
    raw_lines, split_first_line,
};
use crate::mode::{limited, shown, DisplayMode};
use crate::source::{any_failed, lemma_any_failed_next, Outcome, Source};
use crate::text::prefix_before;
use vstd::prelude::*;
use vstd::slice::slice_subrange;
use vstd::string::StringExecFns;
use vstd::utf8::{encode_utf8, valid_utf8};

verus! {

/// The sources to show and how much of each.
#[derive(Debug)]
pub struct Cli {
    pub file: Vec<String>,
    pub lines: u64,
    pub bytes: Option<u64>,
    pub quiet: bool,
    pub verbose: bool,
}

impl Cli {
    /// The mode that the limits select. A limit in bytes goes before the
    /// limit in lines.
    pub open spec fn spec_mode(&self) -> DisplayMode {
        match self.bytes {
            Some(n) => DisplayMode::LimitBytes(n),
            None => DisplayMode::LimitLines(self.lines),
        }
    }

    /// The mode that the limits select.
    #[verifier::when_used_as_spec(spec_mode)]
    pub fn mode(&self) -> (mode: DisplayMode)
        ensures
            mode == self.spec_mode(),
    {
        match self.bytes {
            Some(n) => DisplayMode::LimitBytes(n),
            None => DisplayMode::LimitLines(self.lines),
        }
    }

    /// Whether a run over `count` sources shows headers. Over several
    /// sources it does unless `quiet` is set; over a single one only where
    /// `verbose` is set.
    pub open spec fn spec_shows_headers(&self, count: usize) -> bool {
        if count <= 1 {
            self.verbose
        } else {
            !self.quiet
        }
    }

    /// Whether a run over `count` sources shows headers.
    #[verifier::when_used_as_spec(spec_shows_headers)]
    pub fn shows_headers(&self, count: usize) -> (headers: bool)
        ensures
            headers == self.spec_shows_headers(count),
    {
        if count <= 1 {
            self.verbose
        } else {
            !self.quiet
        }
    }
}

/// The first `num_lines` lines of `text`, terminators included; all of `text`
/// where it has no more lines than that.
pub fn read_lines<'a>(num_lines: u64, text: &'a str) -> (head: &'a str)
    ensures
        head@ == first_lines(text@, num_lines as nat),
        raw_lines(text@).len() <= num_lines ==> head@ == text@,
        raw_lines(text@).len() >= num_lines ==> raw_lines(head@) == raw_lines(text@).take(
            num_lines as int,
        ),
{
    let mut rest: &'a str = text;
    let mut taken: u64 = 0;
    let ghost all = raw_lines(text@);
    proof {
        assert(all.skip(0) =~= all);
        assert(all.take(0).flatten() + rest@ =~= text@);
    }
    while taken < num_lines && !rest.is_empty()
        invariant
            all == raw_lines(text@),
            taken <= num_lines,
            taken <= all.len(),
            raw_lines(rest@) == all.skip(taken as int),
            all.take(taken as int).flatten() + rest@ == text@,
        decreases rest@.len(),
    {
        proof {
            lemma_raw_lines_unfold(rest@);
        }
        let (line, tail) = split_first_line(rest);
        proof {
            let t = taken as int;
            assert(all.skip(t)[0] == all[t]);
            assert(all.skip(t + 1) =~= all.skip(t).skip(1));
            assert(all.take(t + 1) =~= all.take(t).push(line@));
            all.take(t).lemma_flatten_push(line@);
            assert(line@ + tail@ =~= rest@);
            assert(all.take(t + 1).flatten() + tail@ =~= text@);
        }
        rest = tail;
        taken += 1;
    }
    proof {
        let t = taken as int;
        if rest@.len() == 0 {
            assert(all.skip(t).len() == 0);
        }
        let front = all.take(t).flatten();
        assert(front =~= first_lines(text@, num_lines as nat));
        assert(text@.skip(text@.len() - rest@.len()) =~= rest@);
        assert(text@.take(text@.len() - rest@.len()) =~= front);
        if all.len() <= num_lines {
            lemma_first_lines_whole(text@, num_lines as nat);
        }
        if all.len() >= num_lines {
            lemma_first_lines_exact(text@, num_lines as nat);
        }
    }
    prefix_before(text, rest)
}

/// The first `num_bytes` bytes of `data`, or all of it where it is shorter,
/// read as text. No byte behind these has a part in the text; where they are
/// UTF-8, the text is these bytes and so no longer than the limit.
pub fn read_bytes(num_bytes: u64, data: &[u8]) -> (text: String)
    ensures
        text@ == lossy_text(limited(data@, num_bytes as nat)),
        limited(data@, num_bytes as nat).len() <= num_bytes,
        valid_utf8(limited(data@, num_bytes as nat)) ==> encode_utf8(text@) == limited(
            data@,
            num_bytes as nat,
        ),
{
    proof {
        lemma_limit_bytes(data@, num_bytes);
    }
    let len = data.len();
    if num_bytes < len as u64 {
        decode_lossy(slice_subrange(data, 0, num_bytes as usize))
    } else {
        assert(data@.take(data@.len() as int) =~= data@);
        decode_lossy(data)
    }
}

/// The head of one source with the content `data`: its first bytes where the
/// configuration limits bytes, its first lines where it does not.
pub fn head_program(config: &Cli, data: &[u8]) -> (out: String)
    ensures
        out@ == shown(config.mode(), data@),
{
    if let Some(num_bytes) = config.bytes {
        read_bytes(num_bytes, data)
    } else {
        let text = decode_lossy(data);
        read_lines(config.lines, text.as_str()).to_owned()
    }
}

/// What a run writes to the standard output for the content of one source:
/// its head, and nothing for a source that could not be opened.
pub open spec fn stdout_part(config: Cli, source: Source) -> Seq<char> {
    match source.content {
        Ok(data) => shown(config.mode(), data@),
        Err(_) => Seq::empty(),
    }
}

/// What a run writes to the standard error for one source: for a source that
/// could not be opened a line with its name and the cause, else nothing.
pub open spec fn stderr_part(source: Source) -> Seq<char> {
    match source.content {
        Ok(_) => Seq::empty(),
        Err(cause) => source.name@ + ": "@ + cause@ + "\n"@,
    }
}

/// The head of one source, or the report that it could not be opened.
pub fn run_file(config: &Cli, source: &Source) -> (outcome: Outcome)
    ensures
        outcome.stdout@ == stdout_part(*config, *source),
        outcome.stderr@ == stderr_part(*source),
        outcome.failed == (source.content is Err),
{
    match &source.content {
        Ok(data) => Outcome {
            stdout: head_program(config, data.as_slice()),
            stderr: String::new(),
            failed: false,
        },
        Err(cause) => {
            let mut stderr = String::new();
            stderr.append(source.name.as_str());
            stderr.append(": ");
            stderr.append(cause.as_str());
            stderr.append("\n");
            assert(stderr@ =~= stderr_part(*source));
            Outcome { stdout: String::new(), stderr, failed: true }
        },
    }
}

/// The header that names a source.
pub open spec fn header(name: Seq<char>) -> Seq<char> {
    "==> "@ + name + " <==\n"@
}

/// What a run over `count` sources writes to the standard output for the
/// `i`-th of them: with headers on, the header, then the head of the source,
/// then an empty line unless the source is the last; with headers off, the
/// head of the source alone.
pub open spec fn section(config: Cli, count: usize, i: int, source: Source) -> Seq<char> {
    if config.shows_headers(count) {
        header(source.name@) + stdout_part(config, source) + if i + 1 < count {
            "\n"@
        } else {
            Seq::empty()
        }
    } else {
        stdout_part(config, source)
    }
}

/// The standard output of a run, source by source.
pub open spec fn sections(config: Cli, sources: Seq<Source>) -> Seq<Seq<char>> {
    Seq::new(sources.len(), |i: int| section(config, sources.len() as usize, i, sources[i]))
}

/// The standard error of a run, source by source.
pub open spec fn stderr_parts(sources: Seq<Source>) -> Seq<Seq<char>> {
    Seq::new(sources.len(), |i: int| stderr_part(sources[i]))
}

/// Goes through the sources in order and shows the head of each. With
/// headers on, every source stands behind its header, also one that could not
/// be opened, and an empty line parts it from the next. A source that could
/// not be opened is reported on the standard error, and the run goes on with
/// the next; it then ends as failed.
pub fn run(config: &Cli, sources: &Vec<Source>) -> (outcome: Outcome)
    ensures
        outcome.stdout@ == sections(*config, sources@).flatten(),
        outcome.stderr@ == stderr_parts(sources@).flatten(),
        outcome.failed == any_failed(sources@),
{
    let count = sources.len();
    let headers = config.shows_headers(count);
    let mut stdout = String::new();
    let mut stderr = String::new();
    let mut failed = false;
    let ghost outs = sections(*config, sources@);
    let ghost errs = stderr_parts(sources@);
    proof {
        assert(outs.take(0).flatten() =~= Seq::<char>::empty());
        assert(errs.take(0).flatten() =~= Seq::<char>::empty());
    }
    let mut i: usize = 0;
    while i < count
        invariant
            i <= count,
            count == sources.len(),
            headers == config.shows_headers(count),
            outs == sections(*config, sources@),
            errs == stderr_parts(sources@),
            stdout@ == outs.take(i as int).flatten(),
            stderr@ == errs.take(i as int).flatten(),
            failed == any_failed(sources@.take(i as int)),
        decreases count - i,
    {
        let source = &sources[i];
        let ghost out_before = stdout@;
        let ghost err_before = stderr@;
        proof {
            outs.lemma_take_succ_push(i as int);
            outs.take(i as int).lemma_flatten_push(outs[i as int]);
            errs.lemma_take_succ_push(i as int);
            errs.take(i as int).lemma_flatten_push(errs[i as int]);
        }
        if headers {
            stdout.append("==> ");
            stdout.append(source.name.as_str());
            stdout.append(" <==\n");
        }
        let part = run_file(config, source);
        stdout.append(part.stdout.as_str());
        stderr.append(part.stderr.as_str());
        if part.failed {
            failed = true;
        }
        if headers && i + 1 < count {
            stdout.append("\n");
        }
        proof {
            assert(stdout@ =~= out_before + outs[i as int]);
            assert(stderr@ =~= err_before + errs[i as int]);
            lemma_any_failed_next(sources@, i as int);
        }
        i += 1;
    }
    proof {
        assert(outs.take(i as int) =~= outs);
        assert(errs.take(i as int) =~= errs);
        assert(sources@.take(i as int) =~= sources@);
    }
    Outcome { stdout, stderr, failed }
}

} // verus!
