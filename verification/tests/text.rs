use textutils::decimal::{decimal_string, right_justify};
use textutils::lines::{split_first_line, split_lines, trim_ending};
use textutils::source::{source_kind, SourceKind};
use textutils::text::{char_is_whitespace, contains, line_is_blank};

const SAMPLES: [&str; 14] = [
    "",
    "\n",
    "a",
    "a\n",
    "a\nb",
    "a\r\nb\r\n",
    "a\r\r\n",
    "\r",
    "\r\n",
    "\n\r\n\n",
    "one\ntwo\n\nthree\n",
    "caf\u{e9}\n\u{65e5}\u{672c}\u{8a9e}\r\n\u{1f600}",
    "a\rb\nc\r",
    "trailing\r",
];

#[test]
fn split_lines_agrees_with_the_standard_library() {
    for text in SAMPLES {
        let expected: Vec<&str> = text.lines().collect();
        assert_eq!(split_lines(text), expected);
    }
}

#[test]
fn split_lines_of_named_cases() {
    assert!(split_lines("").is_empty());
    assert_eq!(split_lines("\n"), vec![""]);
    assert_eq!(split_lines("a\n\nb"), vec!["a", "", "b"]);
    assert_eq!(split_lines("a\r\nb\r"), vec!["a", "b\r"]);
}

#[test]
fn the_first_line_comes_off_with_its_terminator() {
    assert_eq!(split_first_line("a\nb\n"), ("a\n", "b\n"));
    assert_eq!(split_first_line("ab"), ("ab", ""));
    assert_eq!(split_first_line("\nab"), ("\n", "ab"));
    assert_eq!(split_first_line(""), ("", ""));
    assert_eq!(split_first_line("\u{e9}\r\n\u{e9}"), ("\u{e9}\r\n", "\u{e9}"));
}

#[test]
fn the_first_line_agrees_with_the_standard_library() {
    for text in SAMPLES {
        let (head, tail) = split_first_line(text);
        let expected = text.split_inclusive('\n').next().unwrap_or("");
        assert_eq!(head, expected);
        assert_eq!(format!("{}{}", head, tail), text);
    }
}

#[test]
fn endings_are_trimmed_as_the_standard_library_does() {
    for text in SAMPLES {
        for raw in text.split_inclusive('\n') {
            let expected = raw.lines().next().unwrap_or("");
            assert_eq!(trim_ending(raw), expected);
        }
    }
}

#[test]
fn endings_are_trimmed_as_lines_are_read() {
    assert_eq!(trim_ending("a\n"), "a");
    assert_eq!(trim_ending("a\r\n"), "a");
    assert_eq!(trim_ending("a\r\r\n"), "a\r");
    assert_eq!(trim_ending("a\r"), "a\r");
    assert_eq!(trim_ending("a"), "a");
    assert_eq!(trim_ending("\n"), "");
    assert_eq!(trim_ending(""), "");
}

#[test]
fn contains_agrees_with_the_standard_library() {
    let hays = [
        "",
        "a",
        "aaa",
        "abcabd",
        "I like food.",
        "caf\u{e9} au lait",
        "\u{65e5}\u{672c}\u{8a9e}",
        "\u{e9}\u{e8}\u{ea}",
        "mississippi",
    ];
    let needles = [
        "", "a", "aa", "aaaa", "abd", "abc", "bca", "food", "Food", "\u{e9}", "\u{e8}",
        "\u{672c}", "\u{a9}", "ssip", "ssipx", "i", "pi", "lait ",
    ];
    for hay in hays {
        for needle in needles {
            assert_eq!(contains(hay, needle), hay.contains(needle));
        }
        assert!(contains(hay, hay));
    }
}

#[test]
fn contains_finds_whole_characters_only() {
    // U+00E9 is C3 A9 and U+00A9 is C2 A9: they share a byte and no character.
    assert!(!contains("\u{e9}", "\u{a9}"));
    // U+0129 is C4 A9; U+4129 is E4 84 A9.
    assert!(!contains("\u{4129}", "\u{129}"));
}

#[test]
fn white_space_is_what_the_standard_library_trims() {
    let mut c = '\0';
    loop {
        assert_eq!(char_is_whitespace(c), c.is_whitespace());
        if c == char::MAX {
            break;
        }
        c = std::char::from_u32(c as u32 + 1)
            .or(std::char::from_u32(0xe000))
            .unwrap();
    }
}

#[test]
fn blank_lines_are_those_that_trim_to_nothing() {
    let lines = [
        "", " ", "\t", " \t ", "\u{a0}", "\u{2003}\u{3000}", "a", " a ", "\u{200b}", ".", "\r",
        "\u{85}", "\u{1680} \u{2028}\u{2029}\u{202f}\u{205f}", "\u{feff}",
    ];
    for line in lines {
        assert_eq!(line_is_blank(line), line.trim().is_empty());
    }
    assert!(line_is_blank(""));
    assert!(line_is_blank("  \t"));
    assert!(!line_is_blank("  x"));
}

#[test]
fn numbers_are_written_in_decimal() {
    assert_eq!(decimal_string(0), "0");
    assert_eq!(decimal_string(7), "7");
    assert_eq!(decimal_string(10), "10");
    assert_eq!(decimal_string(1234567890), "1234567890");
    assert_eq!(decimal_string(u64::MAX), "18446744073709551615");
    for n in 0..2500u64 {
        assert_eq!(decimal_string(n), n.to_string());
        assert_eq!(decimal_string(n * 7919 + 99991), (n * 7919 + 99991).to_string());
    }
}

#[test]
fn text_is_set_flush_right() {
    assert_eq!(right_justify("1", 6), "     1");
    assert_eq!(right_justify("123456", 6), "123456");
    assert_eq!(right_justify("1234567", 6), "1234567");
    assert_eq!(right_justify("", 3), "   ");
    assert_eq!(right_justify("x", 0), "x");
    assert_eq!(right_justify("\u{e9}\u{e9}", 4), "  \u{e9}\u{e9}");
    for width in 0..9usize {
        for text in ["", "7", "42", "12345678"] {
            assert_eq!(right_justify(text, width), format!("{:>1$}", text, width));
        }
    }
}

#[test]
fn a_dash_names_the_standard_input() {
    assert_eq!(source_kind("-"), SourceKind::StandardInput);
    assert_eq!(source_kind("a.txt"), SourceKind::NamedFile);
    assert_eq!(source_kind("--"), SourceKind::NamedFile);
    assert_eq!(source_kind(""), SourceKind::NamedFile);
    assert_eq!(source_kind("./-"), SourceKind::NamedFile);
    assert_eq!(source_kind("\u{2212}"), SourceKind::NamedFile);
}
