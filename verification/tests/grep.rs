use textutils::grep::{run, search, search_case_insensitive, search_with, Config};
use textutils::source::Source;

const CONTENT: &str = "\
Rust:
I like to walk.
I like to eat food.
I like cheese
Trust me!
        ";

#[test]
fn case_sensitive() {
    let query = "foo";
    assert_eq!(vec!["I like to eat food."], search(query, CONTENT));
}

#[test]
fn case_insensitive() {
    let query = "RuSt";
    assert_eq!(
        vec!["Rust:", "Trust me!"],
        search_case_insensitive(query, CONTENT)
    );
}

#[test]
fn matching_respects_case_unless_told_otherwise() {
    let content = "I like food.\nFOO BAR";
    assert_eq!(search("foo", content), vec!["I like food."]);
    assert_eq!(
        search_case_insensitive("foo", content),
        vec!["I like food.", "FOO BAR"]
    );
}

#[test]
fn search_with_takes_the_case_rule_as_an_argument() {
    let content = "I like food.\nFOO BAR";
    assert_eq!(search_with("foo", content, false), vec!["I like food."]);
    assert_eq!(
        search_with("foo", content, true),
        vec!["I like food.", "FOO BAR"]
    );
    assert_eq!(search_with("FOO", content, false), vec!["FOO BAR"]);
    assert!(search_with("bar", content, false).is_empty());
}

#[test]
fn search_keeps_order_and_duplicates() {
    let content = "ab\nxx\nab\nabab\n";
    assert_eq!(search("ab", content), vec!["ab", "ab", "abab"]);
}

#[test]
fn search_with_empty_query_finds_every_line() {
    assert_eq!(search("", "one\n\ntwo"), vec!["one", "", "two"]);
}

#[test]
fn search_finds_nothing_in_empty_content() {
    assert!(search("a", "").is_empty());
    assert!(search("", "").is_empty());
}

#[test]
fn search_strips_carriage_return_line_endings() {
    assert_eq!(search("b", "ab\r\ncd\r\nb"), vec!["ab", "b"]);
}

#[test]
fn search_handles_text_beyond_ascii() {
    let content = "na\u{ef}ve caf\u{e9}\n\u{65e5}\u{672c}\u{8a9e}\nplain";
    assert_eq!(search("\u{e9}", content), vec!["na\u{ef}ve caf\u{e9}"]);
    assert_eq!(search("\u{672c}", content), vec!["\u{65e5}\u{672c}\u{8a9e}"]);
    assert!(search("\u{e8}", content).is_empty());
}

#[test]
fn search_case_insensitive_lowers_both_sides() {
    let content = "STRASSE\n\u{c9}COLE\necole";
    assert_eq!(
        search_case_insensitive("\u{e9}col", content),
        vec!["\u{c9}COLE"]
    );
    assert!(search("\u{e9}col", content).is_empty());
}

#[test]
fn build_takes_query_and_file_name() {
    let args = vec![
        "grep".to_string(),
        "needle".to_string(),
        "hay.txt".to_string(),
        "extra".to_string(),
    ];
    let config = Config::build(&args, true).unwrap();
    assert_eq!(config.query, "needle");
    assert_eq!(config.file_name, "hay.txt");
    assert!(config.ignore_case);
    let config = Config::build(&args[..3], false).unwrap();
    assert!(!config.ignore_case);
}

#[test]
fn build_refuses_short_command_lines() {
    let args = vec!["grep".to_string(), "needle".to_string()];
    assert_eq!(Config::build(&args, false).err(), Some("Not enough arguments"));
    assert_eq!(Config::build(&[], false).err(), Some("Not enough arguments"));
}

#[test]
fn run_lists_matches_one_per_line() {
    let config = Config {
        query: "like".to_string(),
        file_name: "poem.txt".to_string(),
        ignore_case: false,
    };
    let source = Source {
        name: "poem.txt".to_string(),
        content: Ok(CONTENT.as_bytes().to_vec()),
    };
    let outcome = run(&config, &source);
    assert_eq!(
        outcome.stdout,
        "I like to walk.\nI like to eat food.\nI like cheese\n"
    );
    assert_eq!(outcome.stderr, "");
    assert!(!outcome.failed);
    assert_eq!(outcome.exit_status(), 0);
}

#[test]
fn run_ignores_case_when_configured() {
    let config = Config {
        query: "rust".to_string(),
        file_name: "poem.txt".to_string(),
        ignore_case: true,
    };
    let source = Source {
        name: "poem.txt".to_string(),
        content: Ok(CONTENT.as_bytes().to_vec()),
    };
    assert_eq!(run(&config, &source).stdout, "Rust:\nTrust me!\n");
}

#[test]
fn run_reports_a_source_that_could_not_be_opened() {
    let config = Config {
        query: "x".to_string(),
        file_name: "gone.txt".to_string(),
        ignore_case: false,
    };
    let source = Source {
        name: "gone.txt".to_string(),
        content: Err("No such file or directory (os error 2)".to_string()),
    };
    let outcome = run(&config, &source);
    assert_eq!(outcome.stdout, "");
    assert_eq!(
        outcome.stderr,
        "Application Error: gone.txt: No such file or directory (os error 2)\n"
    );
    assert!(outcome.failed);
    assert_eq!(outcome.exit_status(), 1);
}

#[test]
fn run_replaces_bytes_that_are_not_text() {
    let config = Config {
        query: "b".to_string(),
        file_name: "raw".to_string(),
        ignore_case: false,
    };
    let source = Source {
        name: "raw".to_string(),
        content: Ok(vec![b'a', b'\n', 0xff, b'b', b'\n']),
    };
    assert_eq!(run(&config, &source).stdout, "\u{fffd}b\n");
}
