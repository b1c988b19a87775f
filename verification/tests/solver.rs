use waffle_solver::constraints::ConstraintBoard;
use waffle_solver::solver::{find_solutions, try_word};

fn board(text: &str) -> ConstraintBoard {
    ConstraintBoard::parse(text).unwrap()
}

fn drawn(boards: &[ConstraintBoard]) -> Vec<String> {
    boards.iter().map(|b| b.to_string()).collect()
}

#[test]
fn a_word_is_written_into_its_cells() {
    let b = board("tac\no e\ndew");
    let next = try_word(b, "cat", &[(0, 0), (0, 1), (0, 2)]).unwrap();
    assert_eq!(next.to_string(), "cat\n   \n   ");
}

#[test]
fn a_word_down_is_read_across_where_words_cross() {
    let b = board("tac\no e\ndew");
    let next = try_word(b, "cow", &[(0, 0), (1, 0), (2, 0)]).unwrap();
    assert_eq!(next.to_string(), "c  \no  \nw  ");
    assert_eq!(next.get(0, 0), Some('c'));
    assert_eq!(next.get(2, 0), Some('w'));
}

#[test]
fn an_empty_word_changes_nothing() {
    let b = board("Tac\no e\ndew");
    let next = try_word(b, "", &[]).unwrap();
    assert_eq!(next.to_string(), "t  \n   \n   ");
}

#[test]
fn a_word_with_a_letter_that_is_not_left_cannot_be_written() {
    let b = board("tac\no e\ndew");
    assert!(try_word(b.clone(), "cab", &[(0, 0), (0, 1), (0, 2)]).is_none());
    assert!(try_word(b, "tat", &[(0, 0), (0, 1), (0, 2)]).is_none());
}

#[test]
fn a_word_against_a_fixed_letter_cannot_be_written() {
    let b = board("Tac\no e\ndew");
    assert!(try_word(b.clone(), "cat", &[(0, 0), (0, 1), (0, 2)]).is_none());
    assert!(try_word(b, "tea", &[(0, 0), (0, 1), (0, 2)]).is_some());
}

#[test]
fn a_word_of_another_length_cannot_be_written() {
    let b = board("tac\no e\ndew");
    assert!(try_word(b.clone(), "ca", &[(0, 0), (0, 1), (0, 2)]).is_none());
    assert!(try_word(b, "cat", &[(0, 0), (0, 1)]).is_none());
}

#[test]
fn a_word_outside_the_grid_cannot_be_written() {
    let b = board("tac\no e\ndew");
    assert!(try_word(b, "cat", &[(0, 1), (0, 2), (0, 3)]).is_none());
}

#[test]
fn writing_a_fixed_letter_again_takes_nothing_from_the_budget() {
    let b = board("Cat\no e\ndew");
    let next = try_word(b, "cat", &[(0, 0), (0, 1), (0, 2)]).unwrap();
    assert!(next.with(2, 0, 'c').is_none());
    assert!(next.with(2, 0, 'w').is_some());
}

#[test]
fn every_way_to_fill_a_board_is_found_in_the_order_of_the_list() {
    let words = ["cat", "cow", "ted", "wed", "tea", "act", "dew", "owe"];
    let found = find_solutions(board("tac\no e\ndew"), &words);
    assert_eq!(drawn(&found), vec!["cat\no e\nwed", "cow\na e\nted"]);
}

#[test]
fn the_order_of_the_list_is_the_order_of_the_answers() {
    let words = ["wed", "ted", "cow", "cat"];
    let found = find_solutions(board("tac\no e\ndew"), &words);
    assert_eq!(drawn(&found), vec!["cow\na e\nted", "cat\no e\nwed"]);
}

#[test]
fn fixed_letters_narrow_the_answers() {
    let words = ["cat", "cow", "ted", "wed"];
    let found = find_solutions(board("tAc\no e\ndew"), &words);
    assert_eq!(drawn(&found), vec!["cat\no e\nwed"]);
}

#[test]
fn a_board_without_open_words_is_its_own_answer() {
    let found = find_solutions(board("ABC\nD E\nFGH"), &["abc"]);
    assert_eq!(drawn(&found), vec!["abc\nd e\nfgh"]);
    let found = find_solutions(board("ABC\nD E\nFGH"), &[]);
    assert_eq!(drawn(&found), vec!["abc\nd e\nfgh"]);
}

#[test]
fn no_answer_without_fitting_words() {
    assert!(find_solutions(board("abc\nd e\nfgh"), &["xyz"]).is_empty());
    assert!(find_solutions(board("abc\nd e\nfgh"), &[]).is_empty());
    assert!(find_solutions(board("tac\no e\ndew"), &["cat", "cow", "ted"]).is_empty());
}

#[test]
fn words_of_another_length_are_passed_over() {
    let words = ["cats", "cat", "co", "cow", "ted", "wed", ""];
    let found = find_solutions(board("tac\no e\ndew"), &words);
    assert_eq!(drawn(&found), vec!["cat\no e\nwed", "cow\na e\nted"]);
}
