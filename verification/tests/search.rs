use waffle_solver::board::{BoardError, Coord, Swap, WaffleBoard};
use waffle_solver::moves::get_swaps;
use waffle_solver::search::{find_swaps, transformation, State};

fn board(text: &str) -> WaffleBoard {
    WaffleBoard::parse(text).unwrap()
}

fn swap(r1: usize, c1: usize, r2: usize, c2: usize) -> Swap {
    Swap::new(Coord { row: r1, col: c1 }, Coord { row: r2, col: c2 })
}

fn play(start: &WaffleBoard, steps: &[Swap]) -> WaffleBoard {
    let mut cur = start.clone();
    for step in steps {
        cur = cur.swap(*step).unwrap();
    }
    cur
}

#[test]
fn candidates_are_all_pairs_of_differing_cells_in_order() {
    let a = board("abc\ndef");
    let b = board("bca\ndef");
    assert_eq!(
        get_swaps(&a, &b),
        Ok(vec![swap(0, 0, 0, 1), swap(0, 0, 0, 2), swap(0, 1, 0, 2)])
    );
}

#[test]
fn candidates_span_rows() {
    let a = board("ab\ncd");
    let b = board("cd\nab");
    assert_eq!(
        get_swaps(&a, &b),
        Ok(vec![
            swap(0, 0, 0, 1),
            swap(0, 0, 1, 0),
            swap(0, 0, 1, 1),
            swap(0, 1, 1, 0),
            swap(0, 1, 1, 1),
            swap(1, 0, 1, 1),
        ])
    );
}

#[test]
fn candidates_with_two_differing_cells() {
    assert_eq!(get_swaps(&board("ab\ncd"), &board("ab\ndc")), Ok(vec![swap(1, 0, 1, 1)]));
}

#[test]
fn no_candidates_for_equal_boards() {
    assert_eq!(get_swaps(&board("ab\ncd"), &board("ab\ncd")), Ok(vec![]));
}

#[test]
fn a_single_differing_cell_is_reported() {
    assert_eq!(get_swaps(&board("ab\ncd"), &board("ab\ncx")), Err(BoardError::SingleMismatch));
}

#[test]
fn candidates_for_boards_of_different_shapes_are_refused() {
    assert_eq!(get_swaps(&board("ab\ncd"), &board("abcd")), Err(BoardError::DimensionMismatch));
}

#[test]
fn candidates_are_sorted_and_without_duplicates() {
    let swaps = get_swaps(&board("abcde\nfghij"), &board("edcba\njihgf")).unwrap();
    assert_eq!(swaps.len(), 28);
    for pair in swaps.windows(2) {
        assert!(pair[0] < pair[1]);
        assert!(pair[0].before(&pair[1]));
    }
    for w in &swaps {
        assert!(w.a < w.b);
    }
}

#[test]
fn one_swap_in_a_row() {
    let path = find_swaps(&board("ab\ncd"), &board("ba\ncd"));
    assert_eq!(path, Some(vec![swap(0, 0, 0, 1)]));
}

#[test]
fn rows_exchanged() {
    let start = board("ab\ncd");
    let target = board("cd\nab");
    let path = find_swaps(&start, &target).unwrap();
    assert_eq!(path, vec![swap(0, 0, 1, 0), swap(0, 1, 1, 1)]);
    assert_eq!(play(&start, &path), target);
}

#[test]
fn disjoint_letters_have_no_solution() {
    assert_eq!(find_swaps(&board("aa"), &board("bb")), None);
}

#[test]
fn different_letter_counts_have_no_solution() {
    assert_eq!(find_swaps(&board("ab"), &board("ac")), None);
    assert_eq!(find_swaps(&board("aab\nbcc"), &board("abb\nbcc")), None);
    assert_eq!(find_swaps(&board("abc\ndef"), &board("abc\nded")), None);
}

#[test]
fn search_for_the_same_board_returns_no_swap() {
    assert_eq!(find_swaps(&board("ab\ncd"), &board("ab\ncd")), Some(vec![]));
    assert_eq!(find_swaps(&board("x"), &board("x")), Some(vec![]));
    assert_eq!(find_swaps(&board("\n"), &board("\n")), Some(vec![]));
}

#[test]
fn a_cycle_of_three() {
    let start = board("abc");
    let target = board("bca");
    let path = find_swaps(&start, &target).unwrap();
    assert_eq!(path, vec![swap(0, 0, 0, 1), swap(0, 1, 0, 2)]);
    assert_eq!(play(&start, &path), target);
}

#[test]
fn found_swaps_lead_to_the_target() {
    let cases = [
        ("caabde", "adbcea"),
        ("abcabc", "bcabca"),
        ("fruit\ne b r\nagile\nt n a\nsteam", "agile\nr b t\nfruit\ne n a\nsteam"),
        ("abcdefghijk", "bcdefghijka"),
    ];
    for (from, into) in cases {
        let start = board(from);
        let target = board(into);
        let path = find_swaps(&start, &target).unwrap();
        assert_eq!(play(&start, &path), target);
    }
}

#[test]
fn every_found_swap_brings_the_board_nearer() {
    let start = board("caabde");
    let target = board("adbcea");
    let path = find_swaps(&start, &target).unwrap();
    let mut cur = start.clone();
    for step in &path {
        let next = cur.swap(*step).unwrap();
        assert!(next.score(&target).unwrap() < cur.score(&target).unwrap());
        cur = next;
    }
    assert_eq!(cur.score(&target), Ok(0));
}

#[test]
fn ties_go_to_the_smaller_swap() {
    let path = find_swaps(&board("caabde"), &board("adbcea")).unwrap();
    assert_eq!(
        path,
        vec![
            swap(0, 0, 0, 1),
            swap(0, 1, 0, 3),
            swap(0, 1, 0, 2),
            swap(0, 1, 0, 4),
            swap(0, 4, 0, 5),
        ]
    );
}

#[test]
fn swaps_that_mend_two_cells_come_first() {
    let path = find_swaps(&board("abcabc"), &board("bcabca")).unwrap();
    assert_eq!(
        path,
        vec![swap(0, 0, 0, 1), swap(0, 1, 0, 2), swap(0, 3, 0, 4), swap(0, 4, 0, 5)]
    );
}

#[test]
fn two_searches_agree() {
    let start = board("fruit\ne b r\nagile\nt n a\nsteam");
    let target = board("agile\nr b t\nfruit\ne n a\nsteam");
    let first = find_swaps(&start, &target);
    let second = find_swaps(&start, &target);
    assert!(first.is_some());
    assert_eq!(first, second);
}

#[test]
fn ten_swaps_are_found() {
    let path = find_swaps(&board("abcdefghijk"), &board("bcdefghijka")).unwrap();
    assert_eq!(path.len(), 10);
}

#[test]
fn eleven_swaps_are_not_looked_for() {
    assert_eq!(find_swaps(&board("abcdefghijkl"), &board("bcdefghijkla")), None);
}

#[test]
fn transformation_lists_the_boards_on_the_way() {
    let start = board("ab\ncd");
    let steps = vec![swap(0, 0, 1, 0), swap(0, 1, 1, 1)];
    let boards = transformation(&start, &steps).unwrap();
    assert_eq!(boards, vec![board("ab\ncd"), board("cb\nad"), board("cd\nab")]);
}

#[test]
fn transformation_without_swaps_is_the_start_alone() {
    let start = board("ab\ncd");
    assert_eq!(transformation(&start, &[]), Ok(vec![board("ab\ncd")]));
}

#[test]
fn transformation_refuses_a_swap_outside_the_grid() {
    let start = board("ab\ncd");
    let steps = vec![swap(0, 0, 1, 0), swap(0, 1, 2, 1)];
    assert_eq!(transformation(&start, &steps), Err(BoardError::OutOfBounds));
}

#[test]
fn states_nearer_to_the_target_come_first() {
    let target = board("abcd");
    let near = State::new(board("abdc"), &target, vec![swap(0, 0, 0, 1), swap(0, 0, 0, 2)]);
    let far = State::new(board("badc"), &target, vec![]);
    assert!(near.before(&far));
    assert!(!far.before(&near));
}

#[test]
fn states_equally_near_come_by_fewer_swaps_then_by_smaller_last_swap() {
    let target = board("abcd");
    let short = State::new(board("abdc"), &target, vec![swap(0, 2, 0, 3)]);
    let long = State::new(board("bacd"), &target, vec![swap(0, 0, 0, 1), swap(0, 0, 0, 2)]);
    assert!(short.before(&long));
    assert!(!long.before(&short));
    let small = State::new(board("abdc"), &target, vec![swap(0, 0, 0, 1)]);
    assert!(small.before(&short));
    assert!(!short.before(&small));
    assert!(!short.before(&short));
}

fn cells_of(board: &WaffleBoard) -> Vec<Coord> {
    let (height, width) = board.size();
    let mut cells = Vec::new();
    for row in 0..height {
        for col in 0..width {
            cells.push(Coord { row, col });
        }
    }
    cells
}

fn fewest_swaps(start: &WaffleBoard, target: &WaffleBoard, limit: usize) -> Option<usize> {
    let cells = cells_of(start);
    let mut reached = vec![start.clone()];
    for count in 0..=limit {
        if reached.iter().any(|b| b == target) {
            return Some(count);
        }
        let mut next = Vec::new();
        for b in &reached {
            for (i, a) in cells.iter().enumerate() {
                for c in &cells[i + 1..] {
                    let moved = b.swap(Swap::new(*a, *c)).unwrap();
                    if !next.contains(&moved) {
                        next.push(moved);
                    }
                }
            }
        }
        reached = next;
    }
    None
}

#[test]
fn near_boards_get_a_shortest_run() {
    let cases = [
        ("ab\ncd", "ab\ncd"),
        ("ab\ncd", "ba\ncd"),
        ("ab\ncd", "db\nca"),
        ("ab\ncd", "ca\nbd"),
        ("ab\ncd", "bd\nca"),
        ("aab\nbcc", "abb\nacc"),
        ("abca", "acab"),
        ("abca", "caab"),
        ("ab\ncd", "dc\nba"),
        ("abcd", "bcda"),
        ("abcde", "baecd"),
        ("abcde", "bcdea"),
        ("abc\nabc", "bca\nbac"),
        ("aabbc", "bcaab"),
    ];
    for (from, into) in cases {
        let start = board(from);
        let target = board(into);
        assert!(start.score(&target).unwrap() <= 5);
        let path = find_swaps(&start, &target).unwrap();
        assert_eq!(Some(path.len()), fewest_swaps(&start, &target, 4));
    }
}

#[test]
fn found_runs_have_fewer_swaps_than_cells_differ() {
    for (from, into) in [("abc", "bca"), ("ab\ncd", "cd\nab"), ("caabde", "adbcea")] {
        let start = board(from);
        let target = board(into);
        let path = find_swaps(&start, &target).unwrap();
        let distance = start.score(&target).unwrap();
        assert!(path.len() + 1 <= distance);
        assert!(distance <= 2 * path.len());
    }
}

#[test]
fn a_far_board_can_be_reached_by_fewer_swaps_than_are_found() {
    let start = board("caabde");
    let target = board("adbcea");
    let found = find_swaps(&start, &target).unwrap();
    assert_eq!(found.len(), 5);
    let shorter = vec![swap(0, 0, 0, 2), swap(0, 1, 0, 4), swap(0, 2, 0, 3), swap(0, 4, 0, 5)];
    assert_eq!(play(&start, &shorter), target);
}

#[test]
fn boards_with_the_same_letters_and_few_differing_cells_are_solved() {
    let cases = [
        ("ab\ncd", "dc\nba"),
        ("abcabc", "cabcab"),
        ("abcdefghijk", "kabcdefghij"),
        ("aabbccddee", "eeddccbbaa"),
    ];
    for (from, into) in cases {
        let start = board(from);
        let target = board(into);
        assert!(start.score(&target).unwrap() <= 11);
        let path = find_swaps(&start, &target).unwrap();
        assert!(path.len() <= 10);
        assert_eq!(play(&start, &path), target);
    }
}
