use waffle_solver::text::{alphanumeric, capital, lower, split_lines, string_of};

fn chars(text: &str) -> Vec<char> {
    text.chars().collect()
}

#[test]
fn lines_end_at_line_feeds() {
    assert_eq!(split_lines("ab\ncd\n"), vec![chars("ab"), chars("cd")]);
    assert_eq!(split_lines("ab\ncd"), vec![chars("ab"), chars("cd")]);
}

#[test]
fn empty_lines_are_lines() {
    assert_eq!(split_lines("ab\n\ncd\n"), vec![chars("ab"), chars(""), chars("cd")]);
    assert_eq!(split_lines("\n"), vec![chars("")]);
    assert_eq!(split_lines("\n\n"), vec![chars(""), chars("")]);
}

#[test]
fn an_empty_text_has_no_line() {
    assert_eq!(split_lines(""), Vec::<Vec<char>>::new());
}

#[test]
fn carriage_returns_before_line_feeds_are_dropped() {
    assert_eq!(split_lines("ab\r\ncd\r\n"), vec![chars("ab"), chars("cd")]);
    assert_eq!(split_lines("\r\n"), vec![chars("")]);
}

#[test]
fn other_carriage_returns_are_kept() {
    assert_eq!(split_lines("a\rb\n"), vec![chars("a\rb")]);
    assert_eq!(split_lines("ab\r"), vec![chars("ab\r")]);
    assert_eq!(split_lines("ab\r\r\n"), vec![chars("ab\r")]);
}

#[test]
fn split_lines_agrees_with_the_standard_library() {
    for text in ["", "a", "a\n", "a\nb", "a\r\nb\r\n", "\n\na", "a\r", "a\n\r\nb", "é\nü"] {
        let expected: Vec<Vec<char>> = text.lines().map(|l| l.chars().collect()).collect();
        assert_eq!(split_lines(text), expected);
    }
}

#[test]
fn capitals_are_the_letters_from_a_to_z() {
    assert!(capital('A'));
    assert!(capital('M'));
    assert!(capital('Z'));
    assert!(!capital('a'));
    assert!(!capital('@'));
    assert!(!capital('['));
    assert!(!capital('É'));
}

#[test]
fn letters_and_digits_are_alphanumeric() {
    for c in ['a', 'z', 'A', 'Z', '0', '9', 'm', 'Q', '5'] {
        assert!(alphanumeric(c));
    }
    for c in [' ', '-', '/', ':', '@', '[', '`', '{', 'é', '\n'] {
        assert!(!alphanumeric(c));
    }
}

#[test]
fn lower_turns_capitals_into_small_letters() {
    assert_eq!(lower('A'), 'a');
    assert_eq!(lower('Q'), 'q');
    assert_eq!(lower('Z'), 'z');
    assert_eq!(lower('a'), 'a');
    assert_eq!(lower('7'), '7');
    assert_eq!(lower('É'), 'É');
    assert_eq!(lower(' '), ' ');
}

#[test]
fn string_of_spells_the_characters() {
    assert_eq!(string_of(&chars("héllo")), "héllo");
    assert_eq!(string_of(&vec![]), "");
}
