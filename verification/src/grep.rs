//! Search for the lines of a text that contain a query: a plain substring,
//! with or without regard to case.

use crate::encoding::decode_lossy;
use crate::lines::{lines, split_lines, texts};
use crate::source::{Outcome, Source};
use crate::text::{contains, is_substring};
use vstd::prelude::*;
use vstd::string::StringExecFns;

verus! {

/// What to search for, where, and how.
#[derive(Debug)]
pub struct Config {
    pub query: String,
    pub file_name: String,
    pub ignore_case: bool,
}

/// The lowercase form of a text as Unicode defines it, character by
/// character and without regard to any locale.
pub uninterp spec fn lowercase(s: Seq<char>) -> Seq<char>;

/// `str::to_lowercase` of std. Nothing is proved of it: the text it returns
/// is named `lowercase`, a function of the characters alone.
#[verifier::external_body]
fn to_lowercase(s: &str) -> (lower: String)
    ensures
        lower@ == lowercase(s@),
{
    s.to_lowercase()
}

/// The test that a line contains the query; without regard to case, both
/// are put in lowercase first.
pub open spec fn line_matches(query: Seq<char>, ignore_case: bool) -> spec_fn(Seq<char>) -> bool {
    |line: Seq<char>|
        if ignore_case {
            is_substring(lowercase(query), lowercase(line))
        } else {
            is_substring(query, line)
        }
}

/// The lines of `content` that contain `query`, in their order, each as
/// often as it stands there.
pub open spec fn matching_lines(query: Seq<char>, content: Seq<char>, ignore_case: bool) -> Seq<
    Seq<char>,
> {
    lines(content).filter(line_matches(query, ignore_case))
}

impl Config {
    /// The configuration that the command line `args` asks for: the query is
    /// its second word and the file name its third, the first being the
    /// program's name. `ignore_case` is passed in by the caller. A command
    /// line of fewer than three words is refused.
    pub fn build(args: &[String], ignore_case: bool) -> (built: Result<Config, &'static str>)
        ensures
            args@.len() < 3 <==> built is Err,
            built matches Err(message) ==> message@ == "Not enough arguments"@,
            built matches Ok(config) ==> config.query@ == args@[1]@ && config.file_name@
                == args@[2]@ && config.ignore_case == ignore_case,
    {
        if args.len() < 3 {
            Err("Not enough arguments")
        } else {
            let query = args[1].clone();
            let file_name = args[2].clone();
            Ok(Config { query, file_name, ignore_case })
        }
    }
}

/// The lines of `content` that contain `query` in the same case.
pub fn search<'a>(query: &str, content: &'a str) -> (found: Vec<&'a str>)
    ensures
        texts(found@) == matching_lines(query@, content@, false),
{
    let all = split_lines(content);
    let ghost model = lines(content@);
    let ghost test = line_matches(query@, false);
    let mut found: Vec<&'a str> = Vec::new();
    let mut i: usize = 0;
    proof {
        assert(model.take(0) =~= Seq::<Seq<char>>::empty());
        assert(model.take(0).filter(test) =~= Seq::<Seq<char>>::empty()) by {
            model.take(0).lemma_filter_len(test);
        }
        assert(texts(found@) =~= Seq::<Seq<char>>::empty());
    }
    while i < all.len()
        invariant
            i <= all.len(),
            texts(all@) == model,
            test == line_matches(query@, false),
            texts(found@) == model.take(i as int).filter(test),
        decreases all.len() - i,
    {
        let line: &'a str = all[i];
        let ghost before = texts(found@);
        proof {
            assert(texts(all@)[i as int] == line@);
            model.lemma_take_succ_push(i as int);
            model.take(i as int).lemma_filter_push(line@, test);
        }
        if contains(line, query) {
            found.push(line);
            assert(texts(found@) =~= before.push(line@));
        }
        i += 1;
    }
    assert(model.take(i as int) =~= model);
    found
}

/// The lines of `content` that contain `query` once both are in lowercase.
pub fn search_case_insensitive<'a>(query: &str, content: &'a str) -> (found: Vec<&'a str>)
    ensures
        texts(found@) == matching_lines(query@, content@, true),
{
    let all = split_lines(content);
    let lowered = to_lowercase(query);
    let ghost model = lines(content@);
    let ghost test = line_matches(query@, true);
    let mut found: Vec<&'a str> = Vec::new();
    let mut i: usize = 0;
    proof {
        assert(model.take(0) =~= Seq::<Seq<char>>::empty());
        assert(model.take(0).filter(test) =~= Seq::<Seq<char>>::empty()) by {
            model.take(0).lemma_filter_len(test);
        }
        assert(texts(found@) =~= Seq::<Seq<char>>::empty());
    }
    while i < all.len()
        invariant
            i <= all.len(),
            texts(all@) == model,
            test == line_matches(query@, true),
            lowered@ == lowercase(query@),
            texts(found@) == model.take(i as int).filter(test),
        decreases all.len() - i,
    {
        let line: &'a str = all[i];
        let ghost before = texts(found@);
        proof {
            assert(texts(all@)[i as int] == line@);
            model.lemma_take_succ_push(i as int);
            model.take(i as int).lemma_filter_push(line@, test);
        }
        let lowered_line = to_lowercase(line);
        if contains(lowered_line.as_str(), lowered.as_str()) {
            found.push(line);
            assert(texts(found@) =~= before.push(line@));
        }
        i += 1;
    }
    assert(model.take(i as int) =~= model);
    found
}

/// The lines of `content` that contain `query`, with or without regard to
/// case, in their order.
pub fn search_with<'a>(query: &str, content: &'a str, ignore_case: bool) -> (found: Vec<&'a str>)
    ensures
        texts(found@) == matching_lines(query@, content@, ignore_case),
{
    if ignore_case {
        search_case_insensitive(query, content)
    } else {
        search(query, content)
    }
}

/// The lines as they are written out: each ended by `"\n"`, one after the
/// other.
pub open spec fn listed(found: Seq<Seq<char>>) -> Seq<char> {
    found.map_values(|line: Seq<char>| line + seq!['\n']).flatten()
}

/// What `run` writes to the standard output: the lines of the source that
/// contain the query, and nothing for a source that could not be opened.
pub open spec fn stdout_of(config: Config, source: Source) -> Seq<char> {
    match source.content {
        Ok(data) => listed(
            matching_lines(config.query@, crate::encoding::lossy_text(data@), config.ignore_case),
        ),
        Err(_) => Seq::empty(),
    }
}

/// What `run` writes to the standard error: for a source that could not be
/// opened a line with its name and the cause, else nothing.
pub open spec fn stderr_of(source: Source) -> Seq<char> {
    match source.content {
        Ok(_) => Seq::empty(),
        Err(cause) => "Application Error: "@ + source.name@ + ": "@ + cause@ + "\n"@,
    }
}

/// Searches the source for the configured query and lists the lines that
/// contain it. A source that could not be opened is reported on the standard
/// error, and the run ends as failed.
pub fn run(config: &Config, source: &Source) -> (outcome: Outcome)
    ensures
        outcome.stdout@ == stdout_of(*config, *source),
        outcome.stderr@ == stderr_of(*source),
        outcome.failed == (source.content is Err),
{
    match &source.content {
        Ok(data) => {
            let content = decode_lossy(data.as_slice());
            let found = search_with(config.query.as_str(), content.as_str(), config.ignore_case);
            let ghost model = texts(found@);
            let ghost target = model.map_values(|line: Seq<char>| line + seq!['\n']);
            let mut stdout = String::new();
            let mut i: usize = 0;
            proof {
                assert(target.take(0).flatten() =~= Seq::<char>::empty());
            }
            while i < found.len()
                invariant
                    i <= found.len(),
                    model == texts(found@),
                    target == model.map_values(|line: Seq<char>| line + seq!['\n']),
                    stdout@ == target.take(i as int).flatten(),
                decreases found.len() - i,
            {
                let ghost before = stdout@;
                proof {
                    reveal_strlit("\n");
                    target.lemma_take_succ_push(i as int);
                    target.take(i as int).lemma_flatten_push(target[i as int]);
                    assert(texts(found@)[i as int] == found@[i as int]@);
                }
                stdout.append(found[i]);
                stdout.append("\n");
                assert(stdout@ =~= before + target[i as int]);
                i += 1;
            }
            assert(target.take(i as int) =~= target);
            Outcome { stdout, stderr: String::new(), failed: false }
        },
        Err(cause) => {
            let mut stderr = String::new();
            stderr.append("Application Error: ");
            stderr.append(source.name.as_str());
            stderr.append(": ");
            stderr.append(cause.as_str());
            stderr.append("\n");
            assert(stderr@ =~= stderr_of(*source));
            Outcome { stdout: String::new(), stderr, failed: true }
        },
    }
}

} // verus!
