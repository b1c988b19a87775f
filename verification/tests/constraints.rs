use waffle_solver::board::BoardError;
use waffle_solver::constraints::{cell_index, Constraint, ConstraintBoard};

#[test]
fn words_run_through_even_lines() {
    assert_eq!(cell_index(0), Some(0));
    assert_eq!(cell_index(1), None);
    assert_eq!(cell_index(2), Some(1));
    assert_eq!(cell_index(3), None);
    assert_eq!(cell_index(8), Some(4));
}

#[test]
fn a_new_constraint_fixes_nothing() {
    let c = Constraint::new();
    assert_eq!(c.num_set(), 0);
    assert_eq!(c.get(0), None);
    assert!(c.matches("anything"));
}

#[test]
fn a_pattern_fixes_all_but_question_marks() {
    let c = Constraint::from("a?c??");
    assert_eq!(c.num_set(), 2);
    assert_eq!(c.get(0), Some('a'));
    assert_eq!(c.get(1), None);
    assert_eq!(c.get(2), Some('c'));
    assert_eq!(c.get(3), None);
    assert_eq!(c.get(5), None);
}

#[test]
fn an_empty_pattern_fixes_nothing() {
    assert_eq!(Constraint::from("").num_set(), 0);
    assert_eq!(Constraint::from("???").num_set(), 0);
}

#[test]
fn with_fixes_one_more_letter() {
    let c = Constraint::from("a??");
    let d = c.with(2, 'z');
    assert_eq!(d.num_set(), 2);
    assert_eq!(d.get(2), Some('z'));
    assert_eq!(d.get(0), Some('a'));
    assert_eq!(c.num_set(), 1);
    assert_eq!(c.get(2), None);
}

#[test]
fn with_replaces_a_fixed_letter() {
    let c = Constraint::from("a??").with(0, 'b');
    assert_eq!(c.num_set(), 1);
    assert_eq!(c.get(0), Some('b'));
}

#[test]
fn matches_compares_the_fixed_positions_only() {
    let c = Constraint::from("a?c");
    assert!(c.matches("abc"));
    assert!(c.matches("axc"));
    assert!(!c.matches("abd"));
    assert!(!c.matches("xbc"));
}

#[test]
fn matches_ignores_positions_beyond_the_word() {
    let c = Constraint::from("a?c");
    assert!(c.matches("a"));
    assert!(c.matches(""));
    assert!(c.matches("abcde"));
}

#[test]
fn a_board_is_parsed_from_capitals_and_small_letters() {
    let b = ConstraintBoard::parse("Abc\nd e\nfgH\n").unwrap();
    assert_eq!(b.side(), 3);
    assert_eq!(b.get(0, 0), Some('a'));
    assert_eq!(b.get(0, 1), None);
    assert_eq!(b.get(2, 2), Some('h'));
    assert_eq!(b.get(1, 1), None);
    assert_eq!(b.get(1, 0), None);
    assert_eq!(b.to_string(), "a  \n   \n  h");
}

#[test]
fn an_empty_text_is_no_board() {
    assert_eq!(ConstraintBoard::parse("").err(), Some(BoardError::Empty));
}

#[test]
fn ragged_lines_are_no_board() {
    assert_eq!(ConstraintBoard::parse("abc\nde\n").err(), Some(BoardError::Ragged));
}

#[test]
fn a_capital_below_the_grid_is_refused() {
    assert_eq!(ConstraintBoard::parse("abc\ndef\nghi\nJkl\n").err(), Some(BoardError::InvalidBoard));
}

#[test]
fn an_uppercase_letter_of_another_script_is_refused() {
    assert_eq!(ConstraintBoard::parse("Éab\ncde\nfgh").err(), Some(BoardError::InvalidBoard));
}

#[test]
fn a_small_letter_of_another_script_is_left_alone() {
    let b = ConstraintBoard::parse("éab\ncde\nfgh").unwrap();
    assert_eq!(b.get(0, 0), None);
}

#[test]
fn with_places_a_letter_from_the_budget() {
    let b = ConstraintBoard::parse("abc\nd e\nfgh").unwrap();
    let next = b.with(0, 0, 'c').unwrap();
    assert_eq!(next.get(0, 0), Some('c'));
    assert_eq!(b.get(0, 0), None);
    assert!(next.with(0, 1, 'c').is_none());
    assert!(next.with(0, 1, 'a').is_some());
}

#[test]
fn with_refuses_a_letter_that_is_not_left() {
    let b = ConstraintBoard::parse("abc\nd e\nfgh").unwrap();
    assert!(b.with(0, 0, 'z').is_none());
}

#[test]
fn with_keeps_a_cell_that_holds_the_letter() {
    let b = ConstraintBoard::parse("Abc\nd e\nfgh").unwrap();
    let next = b.with(0, 0, 'a').unwrap();
    assert_eq!(next.to_string(), b.to_string());
    assert!(next.with(0, 1, 'b').is_some());
}

#[test]
fn a_crossing_is_read_the_same_across_and_down() {
    let b = ConstraintBoard::parse("abc\nd e\nfgh").unwrap();
    let next = b.with(2, 0, 'f').unwrap();
    assert_eq!(next.get(2, 0), Some('f'));
    let words = next.get_all_words();
    assert_eq!(words.len(), 4);
    assert_eq!(words[1].0.get(0), Some('f'));
    assert_eq!(words[2].0.get(2), Some('f'));
}

#[test]
fn accepts_tells_where_a_letter_may_be_asked_for() {
    let b = ConstraintBoard::parse("Abc\nd e\nfgh").unwrap();
    assert!(b.accepts(0, 0, 'a'));
    assert!(!b.accepts(0, 0, 'b'));
    assert!(b.accepts(0, 1, 'x'));
    assert!(b.accepts(1, 1, 'x'));
    assert!(!b.accepts(3, 0, 'a'));
    assert!(!b.accepts(0, 3, 'a'));
}

#[test]
fn open_words_come_across_first_then_down() {
    let b = ConstraintBoard::parse("abc\nd e\nfgh").unwrap();
    let words = b.get_all_words();
    assert_eq!(words.len(), 4);
    assert_eq!(words[0].1, vec![(0, 0), (0, 1), (0, 2)]);
    assert_eq!(words[1].1, vec![(2, 0), (2, 1), (2, 2)]);
    assert_eq!(words[2].1, vec![(0, 0), (1, 0), (2, 0)]);
    assert_eq!(words[3].1, vec![(0, 2), (1, 2), (2, 2)]);
    assert_eq!(words[0].0.num_set(), 0);
}

#[test]
fn a_full_word_is_not_open() {
    let b = ConstraintBoard::parse("ABC\nd e\nfgh").unwrap();
    let words = b.get_all_words();
    assert_eq!(words.len(), 3);
    assert_eq!(words[0].1, vec![(2, 0), (2, 1), (2, 2)]);
    assert_eq!(words[1].0.get(0), Some('a'));
    assert_eq!(words[1].0.num_set(), 1);
}

#[test]
fn to_string_draws_letters_and_blanks() {
    let b = ConstraintBoard::parse("ABC\nD E\nFGH").unwrap();
    assert_eq!(b.to_string(), "abc\nd e\nfgh");
    assert_eq!(b.get_all_words().len(), 0);
}

#[test]
fn digits_count_as_letters_to_place() {
    let b = ConstraintBoard::parse("a1c\nd e\nfgh").unwrap();
    assert!(b.with(0, 0, '1').is_some());
    assert!(b.with(0, 0, '2').is_none());
}

#[test]
fn capitals_count_as_their_small_letters() {
    let b = ConstraintBoard::parse("Aac\nd e\nfgh").unwrap();
    let next = b.with(0, 1, 'a').unwrap();
    assert!(next.with(0, 2, 'a').is_none());
}

#[test]
fn a_placed_letter_is_read_back() {
    let b = ConstraintBoard::parse("abc\nd e\nfgh").unwrap();
    for (row, col, val) in [(0, 1, 'a'), (1, 0, 'b'), (2, 2, 'c'), (1, 2, 'h')] {
        assert!(b.accepts(row, col, val));
        let next = b.with(row, col, val).unwrap();
        assert_eq!(next.get(row, col), Some(val));
    }
}

#[test]
fn a_cell_on_no_word_takes_a_letter_and_shows_none() {
    let b = ConstraintBoard::parse("aab\nd e\nfgh").unwrap();
    let next = b.with(1, 1, 'b').unwrap();
    assert_eq!(next.get(1, 1), None);
    assert!(next.with(0, 0, 'b').is_none());
}

#[test]
fn clones_are_independent_copies() {
    let c = Constraint::from("ab?");
    let d = c.clone().with(2, 'z');
    assert_eq!(c.get(2), None);
    assert_eq!(d.get(2), Some('z'));
    let b = ConstraintBoard::parse("Abc\nd e\nfgh").unwrap();
    assert_eq!(b.clone().to_string(), b.to_string());
}
