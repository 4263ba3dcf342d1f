use textutils::echo::run;

fn words(list: &[&str]) -> Vec<String> {
    list.iter().map(|word| word.to_string()).collect()
}

#[test]
fn runs() {
    assert_eq!(run(&words(&["hello"]), false), "hello\n");
}

#[test]
fn hello1() {
    let input = vec!["Hello there"];
    assert_eq!(run(&words(&input), false), "Hello there\n");
}

#[test]
fn hello2() {
    let input = vec!["Hello", "There"];
    assert_eq!(run(&words(&input), false), "Hello There\n");
}

#[test]
fn hello1n() {
    let input = vec!["Hello there"];
    assert_eq!(run(&words(&input), true), "Hello there");
}

#[test]
fn hello2n() {
    let input = vec!["Hello", "there"];
    assert_eq!(run(&words(&input), true), "Hello there");
}

#[test]
fn echo_keeps_inner_spacing_of_a_word() {
    assert_eq!(run(&words(&["a  b", "", "c"]), false), "a  b  c\n");
}

#[test]
fn echo_of_no_words_is_an_empty_line() {
    assert_eq!(run(&words(&[]), false), "\n");
    assert_eq!(run(&words(&[]), true), "");
}

#[test]
fn echo_joins_as_the_standard_library_does() {
    let list = words(&["one", "two", "", "thr ee", "\u{e9}t\u{e9}"]);
    for count in 0..=list.len() {
        let part = list[..count].to_vec();
        assert_eq!(run(&part, true), part.join(" "));
        assert_eq!(run(&part, false), format!("{}\n", part.join(" ")));
    }
}
