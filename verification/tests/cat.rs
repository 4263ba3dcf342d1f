use textutils::cat::{print_buffer, print_numbered_line, run, Config};
use textutils::mode::DisplayMode;
use textutils::source::Source;

fn config(number_lines: bool, number_nonblank_lines: bool) -> Config {
    Config {
        files: vec!["-".to_string()],
        number_lines,
        number_nonblank_lines,
    }
}

fn opened(name: &str, content: &[u8]) -> Source {
    Source {
        name: name.to_string(),
        content: Ok(content.to_vec()),
    }
}

fn unopened(name: &str, cause: &str) -> Source {
    Source {
        name: name.to_string(),
        content: Err(cause.to_string()),
    }
}

#[test]
fn flags_select_the_mode() {
    assert_eq!(config(false, false).mode(), DisplayMode::Plain);
    assert_eq!(config(true, false).mode(), DisplayMode::NumberAllLines);
    assert_eq!(config(false, true).mode(), DisplayMode::NumberNonBlankLines);
    assert_eq!(config(true, true).mode(), DisplayMode::NumberAllLines);
}

#[test]
fn plain_copies_text_that_ends_its_lines_plainly() {
    for text in ["", "\n", "a\n", "a\nb\n", "\n\n\n", "  x \t\n\ny\n", "a\rb\n", "\u{e9}\n"] {
        assert_eq!(print_buffer(&config(false, false), text), text);
    }
}

#[test]
fn plain_ends_the_last_line() {
    assert_eq!(print_buffer(&config(false, false), "a\nb"), "a\nb\n");
    assert_eq!(print_buffer(&config(false, false), "a"), "a\n");
}

#[test]
fn plain_turns_line_endings_into_newlines() {
    assert_eq!(print_buffer(&config(false, false), "a\r\nb\r\n"), "a\nb\n");
    assert_eq!(print_buffer(&config(false, false), "a\r\r\n"), "a\r\n");
}

#[test]
fn plain_keeps_the_lines_of_any_text() {
    let texts = [
        "one\ntwo\n\nthree",
        "a\r\nb\n\r\nc",
        "\n\n",
        "tab\there\n  \n",
        "caf\u{e9}\n\u{65e5}\u{672c}\n",
    ];
    for text in texts {
        let shown = print_buffer(&config(false, false), text);
        let before: Vec<&str> = text.lines().collect();
        let after: Vec<&str> = shown.lines().collect();
        assert_eq!(before, after);
    }
}

#[test]
fn a_line_that_ends_in_a_carriage_return_loses_it_when_read_again() {
    let shown = print_buffer(&config(false, false), "a\r\r\n");
    assert_eq!(shown, "a\r\n");
    let before: Vec<&str> = "a\r\r\n".lines().collect();
    let after: Vec<&str> = shown.lines().collect();
    assert_eq!(before, vec!["a\r"]);
    assert_eq!(after, vec!["a"]);
}

#[test]
fn numbers_every_line() {
    assert_eq!(
        print_buffer(&config(true, false), "a\n\nb\n"),
        "     1\ta\n     2\t\n     3\tb\n"
    );
}

#[test]
fn the_nth_number_is_n() {
    let mut text = String::new();
    for i in 0..1234 {
        text.push_str(&format!("line {}\n", i * 7));
    }
    let shown = print_buffer(&config(true, false), &text);
    let mut n = 0;
    for (line, given) in shown.lines().zip(text.lines()) {
        n += 1;
        let (field, rest) = line.split_once('\t').unwrap();
        assert_eq!(field.trim_start().parse::<usize>().unwrap(), n);
        assert_eq!(field, format!("{:>6}", n));
        assert_eq!(rest, given);
    }
    assert_eq!(n, 1234);
    assert_eq!(shown.lines().count(), 1234);
}

#[test]
fn numbers_stand_flush_right_in_six_columns() {
    assert_eq!(print_numbered_line(1, "x"), "     1\tx\n");
    assert_eq!(print_numbered_line(10, "x"), "    10\tx\n");
    assert_eq!(print_numbered_line(999999, "x"), "999999\tx\n");
    assert_eq!(print_numbered_line(1000000, ""), "1000000\t\n");
    assert_eq!(print_numbered_line(0, "x"), "     0\tx\n");
}

#[test]
fn numbers_lines_that_are_not_blank() {
    assert_eq!(
        print_buffer(&config(false, true), "a\n\nb\n\n\nc"),
        "     1\ta\n\n     2\tb\n\n\n     3\tc\n"
    );
}

#[test]
fn a_line_of_white_space_is_blank() {
    assert_eq!(
        print_buffer(&config(false, true), " \t \nx\n\u{a0}\u{2003}\n\u{3000}\ny\n"),
        " \t \n     1\tx\n\u{a0}\u{2003}\n\u{3000}\n     2\ty\n"
    );
}

#[test]
fn numbering_of_lines_that_are_not_blank_has_no_gaps() {
    let mut text = String::new();
    for i in 0..300 {
        if i % 3 == 0 {
            text.push_str("\n");
        } else if i % 7 == 0 {
            text.push_str("   \n");
        } else {
            text.push_str(&format!("word {}\n", i));
        }
    }
    let shown = print_buffer(&config(false, true), &text);
    let mut expected = 0;
    for (line, given) in shown.lines().zip(text.lines()) {
        if given.trim().is_empty() {
            assert_eq!(line, given);
        } else {
            expected += 1;
            assert_eq!(line, format!("{:>6}\t{}", expected, given));
        }
    }
    assert!(expected > 100);
    assert_eq!(shown.lines().count(), text.lines().count());
}

#[test]
fn numbering_all_lines_goes_before_numbering_some() {
    assert_eq!(
        print_buffer(&config(true, true), "a\n\n"),
        "     1\ta\n     2\t\n"
    );
}

#[test]
fn nothing_is_shown_of_an_empty_text() {
    assert_eq!(print_buffer(&config(false, false), ""), "");
    assert_eq!(print_buffer(&config(true, false), ""), "");
    assert_eq!(print_buffer(&config(false, true), ""), "");
}

#[test]
fn run_concatenates_the_sources() {
    let sources = vec![opened("a.txt", b"one\ntwo\n"), opened("b.txt", b"three")];
    let outcome = run(&config(false, false), &sources);
    assert_eq!(outcome.stdout, "one\ntwo\nthree\n");
    assert_eq!(outcome.stderr, "");
    assert!(!outcome.failed);
    assert_eq!(outcome.exit_status(), 0);
}

#[test]
fn run_numbers_each_source_from_one() {
    let sources = vec![opened("a.txt", b"one\ntwo\n"), opened("b.txt", b"three\n")];
    let outcome = run(&config(true, false), &sources);
    assert_eq!(outcome.stdout, "     1\tone\n     2\ttwo\n     1\tthree\n");
}

#[test]
fn run_goes_on_after_a_source_that_could_not_be_opened() {
    let sources = vec![
        unopened("gone.txt", "No such file or directory (os error 2)"),
        opened("b.txt", b"still here\n"),
        unopened("secret", "Permission denied (os error 13)"),
    ];
    let outcome = run(&config(false, false), &sources);
    assert_eq!(outcome.stdout, "still here\n");
    assert_eq!(
        outcome.stderr,
        "Failed to open gone.txt: No such file or directory (os error 2)\n\
         Failed to open secret: Permission denied (os error 13)\n"
    );
    assert!(outcome.failed);
    assert_eq!(outcome.exit_status(), 1);
}

#[test]
fn cat_over_no_sources_writes_nothing() {
    let outcome = run(&config(true, false), &Vec::new());
    assert_eq!(outcome.stdout, "");
    assert_eq!(outcome.stderr, "");
    assert!(!outcome.failed);
}

#[test]
fn run_replaces_what_is_not_text() {
    let sources = vec![opened("raw", &[b'a', 0xff, b'\n', 0xc3, b'\n'])];
    let outcome = run(&config(true, false), &sources);
    assert_eq!(outcome.stdout, "     1\ta\u{fffd}\n     2\t\u{fffd}\n");
    assert!(!outcome.failed);
}
