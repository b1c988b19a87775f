use waffle_solver::board::{BoardError, Coord, Swap, WaffleBoard};

fn board(text: &str) -> WaffleBoard {
    WaffleBoard::parse(text).unwrap()
}

fn at(row: usize, col: usize) -> Coord {
    Coord { row, col }
}

#[test]
fn coordinates_are_ordered_by_row_then_column() {
    assert!(at(0, 5).before(&at(1, 0)));
    assert!(at(1, 0).before(&at(1, 1)));
    assert!(!at(1, 1).before(&at(1, 1)));
    assert!(!at(2, 0).before(&at(1, 9)));
    assert!(at(0, 5) < at(1, 0));
    assert!(at(1, 0) < at(1, 1));
}

#[test]
fn swap_new_puts_the_earlier_cell_first() {
    let w = Swap::new(at(1, 0), at(0, 1));
    assert_eq!(w.a, at(0, 1));
    assert_eq!(w.b, at(1, 0));
    let v = Swap::new(at(0, 1), at(1, 0));
    assert_eq!(v, w);
}

#[test]
fn swap_of_a_cell_with_itself_is_kept() {
    let w = Swap::new(at(2, 2), at(2, 2));
    assert_eq!(w.a, at(2, 2));
    assert_eq!(w.b, at(2, 2));
}

#[test]
fn swaps_are_ordered_by_first_cell_then_second() {
    let u = Swap::new(at(0, 0), at(1, 1));
    let v = Swap::new(at(0, 0), at(1, 2));
    let w = Swap::new(at(0, 1), at(0, 2));
    assert!(u.before(&v));
    assert!(v.before(&w));
    assert!(!w.before(&u));
    assert!(!u.before(&u));
    assert!(u < v && v < w);
}

#[test]
fn parse_reads_one_row_per_line() {
    let b = board("ab\ncd\n");
    assert_eq!(b.size(), (2, 2));
    assert_eq!(b.get(at(0, 0)), 'a');
    assert_eq!(b.get(at(0, 1)), 'b');
    assert_eq!(b.get(at(1, 0)), 'c');
    assert_eq!(b.get(at(1, 1)), 'd');
}

#[test]
fn parse_takes_a_last_line_without_line_feed() {
    assert_eq!(board("ab\ncd"), board("ab\ncd\n"));
}

#[test]
fn parse_drops_carriage_returns_before_line_feeds() {
    assert_eq!(board("ab\r\ncd\r\n"), board("ab\ncd"));
}

#[test]
fn parse_keeps_a_carriage_return_that_ends_the_text() {
    let b = board("ab\r");
    assert_eq!(b.size(), (1, 3));
    assert_eq!(b.get(at(0, 2)), '\r');
}

#[test]
fn parse_counts_characters_not_bytes() {
    let b = board("é\nz");
    assert_eq!(b.size(), (2, 1));
    assert_eq!(b.get(at(0, 0)), 'é');
}

#[test]
fn parse_refuses_an_empty_text() {
    assert_eq!(WaffleBoard::parse(""), Err(BoardError::Empty));
}

#[test]
fn parse_refuses_ragged_lines() {
    assert_eq!(WaffleBoard::parse("abc\nde\n"), Err(BoardError::Ragged));
    assert_eq!(WaffleBoard::parse("ab\n\ncd"), Err(BoardError::Ragged));
}

#[test]
fn parse_accepts_rows_without_cells() {
    let b = board("\n\n");
    assert_eq!(b.size(), (2, 0));
}

#[test]
fn from_rows_checks_the_shape() {
    assert_eq!(WaffleBoard::from_rows(vec![]), Err(BoardError::Empty));
    assert_eq!(
        WaffleBoard::from_rows(vec![vec!['a'], vec!['b', 'c']]),
        Err(BoardError::Ragged)
    );
    let b = WaffleBoard::from_rows(vec![vec!['a', 'b'], vec!['c', 'd']]).unwrap();
    assert_eq!(b, board("ab\ncd"));
}

#[test]
fn display_joins_the_rows_with_line_feeds() {
    assert_eq!(board("ab\ncd\n").display(), "ab\ncd");
    assert_eq!(board("abc").display(), "abc");
    assert_eq!(board("a\nb\nc").display(), "a\nb\nc");
}

#[test]
fn swap_exchanges_two_letters_and_leaves_the_board_alone() {
    let b = board("ab\ncd");
    let next = b.swap(Swap::new(at(0, 0), at(1, 1))).unwrap();
    assert_eq!(next, board("db\nca"));
    assert_eq!(b, board("ab\ncd"));
}

#[test]
fn swap_in_one_row() {
    let b = board("abc");
    assert_eq!(b.swap(Swap::new(at(0, 2), at(0, 0))).unwrap(), board("cba"));
}

#[test]
fn swap_of_a_cell_with_itself_changes_nothing() {
    let b = board("ab\ncd");
    assert_eq!(b.swap(Swap::new(at(1, 0), at(1, 0))).unwrap(), b);
}

#[test]
fn swap_outside_the_grid_is_refused() {
    let b = board("ab\ncd");
    assert_eq!(b.swap(Swap::new(at(0, 0), at(2, 0))), Err(BoardError::OutOfBounds));
    assert_eq!(b.swap(Swap::new(at(0, 2), at(1, 0))), Err(BoardError::OutOfBounds));
    assert_eq!(b.swap(Swap { a: at(5, 5), b: at(0, 0) }), Err(BoardError::OutOfBounds));
}

#[test]
fn diff_lists_differing_cells_in_row_major_order() {
    let a = board("abc\ndef");
    let b = board("xbc\ndyz");
    assert_eq!(a.diff(&b), Ok(vec![at(0, 0), at(1, 1), at(1, 2)]));
    assert_eq!(b.diff(&a), Ok(vec![at(0, 0), at(1, 1), at(1, 2)]));
}

#[test]
fn diff_of_equal_boards_is_empty() {
    let a = board("abc\ndef");
    assert_eq!(a.diff(&a.clone()), Ok(vec![]));
}

#[test]
fn diff_of_boards_of_different_shapes_is_refused() {
    let a = board("abc\ndef");
    assert_eq!(a.diff(&board("abc")), Err(BoardError::DimensionMismatch));
    assert_eq!(a.diff(&board("ab\nde")), Err(BoardError::DimensionMismatch));
    assert_eq!(board("ab\ncd\nef").diff(&a), Err(BoardError::DimensionMismatch));
}

#[test]
fn score_counts_differing_cells() {
    let a = board("abc\ndef");
    assert_eq!(a.score(&board("xbc\ndyz")), Ok(3));
    assert_eq!(a.score(&board("fed\ncba")), Ok(6));
}

#[test]
fn score_is_zero_exactly_for_equal_boards() {
    let a = board("abc\ndef");
    assert_eq!(a.score(&board("abc\ndef")), Ok(0));
    assert_eq!(a.score(&board("abc\ndeg")), Ok(1));
}

#[test]
fn score_of_boards_of_different_shapes_is_refused() {
    assert_eq!(board("abc").score(&board("ab")), Err(BoardError::DimensionMismatch));
}

#[test]
fn same_as_compares_letters_and_shape() {
    assert!(board("ab\ncd").same_as(&board("ab\ncd")));
    assert!(!board("ab\ncd").same_as(&board("ab\ncx")));
    assert!(!board("ab\ncd").same_as(&board("ab")));
    assert!(!board("abcd").same_as(&board("ab\ncd")));
}

#[test]
fn clone_copies_the_letters() {
    let b = board("ab\ncd");
    let c = b.clone();
    assert_eq!(b, c);
    assert_eq!(c.display(), "ab\ncd");
}
