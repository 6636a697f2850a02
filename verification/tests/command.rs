use photo_selector_core::command::{parse_command, Command};

#[test]
fn single_letter_commands() {
    assert_eq!(parse_command("n\n"), Command::Next);
    assert_eq!(parse_command("  p  "), Command::Prev);
    assert_eq!(parse_command("q"), Command::Quit);
}

#[test]
fn select_and_reject_count_from_one() {
    assert_eq!(parse_command("s 1\n"), Command::Select(0));
    assert_eq!(parse_command("r\t3"), Command::Reject(2));
    assert_eq!(parse_command("s +12"), Command::Select(11));
    assert_eq!(parse_command("s 0"), Command::Select(0));
}

#[test]
fn bad_numbers_are_invalid_index() {
    assert_eq!(parse_command("s x"), Command::InvalidIndex);
    assert_eq!(parse_command("r -1"), Command::InvalidIndex);
    assert_eq!(parse_command("s +"), Command::InvalidIndex);
    assert_eq!(parse_command("s 99999999999999999999999"), Command::InvalidIndex);
    assert_eq!(parse_command("s 1a"), Command::InvalidIndex);
}

#[test]
fn largest_number_parses() {
    let line = format!("s {}", usize::MAX);
    assert_eq!(parse_command(&line), Command::Select(usize::MAX - 1));
}

#[test]
fn anything_else_is_unknown() {
    assert_eq!(parse_command(""), Command::Unknown);
    assert_eq!(parse_command("next"), Command::Unknown);
    assert_eq!(parse_command("n n"), Command::Unknown);
    assert_eq!(parse_command("s"), Command::Unknown);
    assert_eq!(parse_command("s 1 2"), Command::Unknown);
    assert_eq!(parse_command("x 1"), Command::Unknown);
}

#[test]
fn unicode_spaces_separate_words() {
    assert_eq!(parse_command("s\u{3000}2"), Command::Select(1));
    assert_eq!(parse_command("\u{a0}q\u{2029}"), Command::Quit);
}
