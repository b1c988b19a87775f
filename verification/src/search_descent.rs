//! How the search runs where every board it expands has a nearer one among
//! those it takes up: it descends, board by board, without ever turning
//! back. This settles how many swaps it returns for boards that are near.

use vstd::prelude::*;

use crate::board::{
    canonical_swap, distance, in_grid, lemma_distance_zero, lemma_mismatches, lemma_swapped_letters,
    letter_at, letters, mismatched, mismatches, rectangular, same_shape, swapped, Coord, Grid, Swap,
};
use crate::letters::{
    lemma_both_mended, lemma_never_one_off, lemma_swap_mends, lemma_swap_mends_two,
    lemma_swap_of_wrong_cells, lemma_swapped_cells, lemma_swapped_either_way, lemma_swapped_twice,
    lemma_two_mended, lemma_wanted_letter_waits,
};
use crate::moves::{candidate_swaps, lemma_candidate_swaps};
use crate::search_ends::lemma_best_is_nearest;
use crate::search_proofs::{
    lemma_absorb_descends, lemma_advance_shift, lemma_path_lengths, lemma_playable_bound,
    lemma_replay_step, lemma_result_unique, lemma_swapped_shape, playable, replay,
};
use crate::search_spec::{
    absorb_all, advance, best_open, initial, lemma_best_open, lemma_position_of, moves_of,
    position_of, run, search_result, shaped, visit, MAX_STEPS, Search, StateView,
};

verus! {

/// The lines that are nearer to the target than `bound` all wait, and each
/// was reached by `len` swaps.
pub open spec fn front(known: Seq<StateView>, target: Grid, bound: nat, len: nat) -> bool {
    forall|i: int|
        0 <= i < known.len() && distance((#[trigger] known[i]).cur, target) < bound
            ==> known[i].open && known[i].steps.len() == len
}

/// Every board of the table holds the letters of the target, each as often.
pub open spec fn lettered(known: Seq<StateView>, target: Grid) -> bool {
    forall|i: int| 0 <= i < known.len() ==> letters((#[trigger] known[i]).cur) == letters(target)
}

/// No line of the table is nearer to the target than `least`.
pub open spec fn none_nearer(known: Seq<StateView>, target: Grid, least: int) -> bool {
    forall|i: int| 0 <= i < known.len() ==> distance((#[trigger] known[i]).cur, target) >= least
}

/// Line `j` of the table holds `board`.
pub open spec fn holds_at(known: Seq<StateView>, board: Grid, j: int) -> bool {
    0 <= j < known.len() && known[j].cur == board
}

/// Some line of the table holds `board`.
pub open spec fn has_board(known: Seq<StateView>, board: Grid) -> bool {
    exists|j: int| holds_at(known, board, j)
}

/// The boards taken up from a line that no line is nearer than: they all
/// wait, reached by one swap more than their parent, nearer than it by 1 or
/// by 2; and every swap that leads nearer has its board in the table.
pub proof fn lemma_absorb_all_front(
    known: Seq<StateView>,
    parent: StateView,
    moves: Seq<Swap>,
    target: Grid,
    n: nat,
)
    requires
        n <= moves.len(),
        rectangular(target),
        rectangular(parent.cur),
        same_shape(parent.cur, target),
        letters(parent.cur) == letters(target),
        shaped(known, target),
        lettered(known, target),
        none_nearer(known, target, distance(parent.cur, target) as int),
        forall|k: int|
            0 <= k < moves.len() ==> in_grid(parent.cur, (#[trigger] moves[k]).a) && in_grid(
                parent.cur,
                moves[k].b,
            ),
    ensures
        shaped(absorb_all(known, parent, moves, target, n), target),
        lettered(absorb_all(known, parent, moves, target, n), target),
        none_nearer(
            absorb_all(known, parent, moves, target, n),
            target,
            distance(parent.cur, target) - 2,
        ),
        front(
            absorb_all(known, parent, moves, target, n),
            target,
            distance(parent.cur, target),
            parent.steps.len() + 1,
        ),
        forall|k: int|
            0 <= k < n && distance(swapped(parent.cur, #[trigger] moves[k]), target) < distance(
                parent.cur,
                target,
            ) ==> has_board(
                absorb_all(known, parent, moves, target, n),
                swapped(parent.cur, moves[k]),
            ),
    decreases n,
{
    let bound = distance(parent.cur, target);
    if n > 0 {
        let m = (n - 1) as nat;
        lemma_absorb_all_front(known, parent, moves, target, m);
        let before = absorb_all(known, parent, moves, target, m);
        let after = absorb_all(known, parent, moves, target, n);
        let w = moves[m as int];
        let next = swapped(parent.cur, w);
        lemma_absorb_descends(before, parent, w, target);
        lemma_swapped_shape(parent.cur, w);
        lemma_swapped_letters(parent.cur, w);
        lemma_swap_mends_two(parent.cur, target, w);
        lemma_position_of(before, next, before.len());
        assert forall|k: int|
            0 <= k < n && distance(swapped(parent.cur, #[trigger] moves[k]), target)
                < bound implies has_board(after, swapped(parent.cur, moves[k])) by {
            let board = swapped(parent.cur, moves[k]);
            if k < m {
                let j = choose|j: int| holds_at(before, board, j);
                assert(holds_at(after, board, j));
            } else {
                let at = position_of(before, next, before.len());
                if at < 0 {
                    assert(holds_at(after, board, after.len() - 1));
                } else {
                    assert(holds_at(after, board, at));
                }
            }
        }
    } else {
        assert(front(known, target, bound, parent.steps.len() + 1));
    }
}

/// One visit of a descent. Where the lines nearer than `bound` all wait,
/// reached by `len` swaps each, and there is such a line, the visit takes
/// one of them, the nearest line of the whole table. If it holds the target
/// the search ends with its swaps. Else the boards taken up from it are the
/// lines nearer than it from then on, as `lemma_absorb_all_front` tells.
pub proof fn lemma_descent_step(s: Search, target: Grid, bound: nat, len: nat)
    requires
        rectangular(target),
        shaped(s.known, target),
        lettered(s.known, target),
        s.outcome is None,
        front(s.known, target, bound, len),
        !none_nearer(s.known, target, bound as int),
        len <= MAX_STEPS,
    ensures
        ({
            let i = best_open(s.known, target, s.known.len());
            let e = s.known[i];
            let near = distance(e.cur, target);
            let moves = moves_of(e.cur, target);
            let next = visit(s, target);
            &&& 0 <= i < s.known.len()
            &&& near < bound
            &&& e.steps.len() == len
            &&& none_nearer(s.known, target, near as int)
            &&& near == 0 ==> next.outcome == Some(Some(e.steps))
            &&& near > 0 ==> {
                &&& next.outcome is None
                &&& shaped(next.known, target)
                &&& lettered(next.known, target)
                &&& front(next.known, target, near, len + 1)
                &&& none_nearer(next.known, target, near - 2)
                &&& forall|k: int|
                    0 <= k < moves.len() && distance(swapped(e.cur, #[trigger] moves[k]), target)
                        < near ==> has_board(next.known, swapped(e.cur, moves[k]))
            }
        }),
{
    let i = best_open(s.known, target, s.known.len());
    lemma_best_open(s.known, target, s.known.len());
    lemma_best_is_nearest(s.known, target, s.known.len());
    let j = choose|j: int| 0 <= j < s.known.len() && distance(s.known[j].cur, target) < bound;
    assert(s.known[j].open);
    let e = s.known[i];
    let near = distance(e.cur, target);
    assert(none_nearer(s.known, target, near as int)) by {
        assert forall|l: int| 0 <= l < s.known.len() implies distance(
            (#[trigger] s.known[l]).cur,
            target,
        ) >= near by {
            if distance(s.known[l].cur, target) < bound {
                assert(s.known[l].open);
            }
        }
    }
    if near > 0 {
        let closed = s.known.update(i, StateView { open: false, ..e });
        assert(shaped(closed, target));
        assert(lettered(closed, target));
        assert(none_nearer(closed, target, near as int));
        lemma_never_one_off(e.cur, target);
        lemma_candidate_swaps(e.cur, target);
        let moves = moves_of(e.cur, target);
        lemma_absorb_all_front(closed, e, moves, target, moves.len());
    }
}

/// A descent from a table whose nearest line is at distance `near`, which is
/// 0, 2 or 3: the search ends, after the number of visits that the lemma
/// hands back, with as many swaps as led to that line and one more for
/// every two cells that differ there, rounded up.
pub proof fn lemma_descent_from(s: Search, target: Grid, bound: nat, len: nat, near: nat) -> (n:
    nat)
    requires
        rectangular(target),
        shaped(s.known, target),
        lettered(s.known, target),
        s.outcome is None,
        front(s.known, target, bound, len),
        none_nearer(s.known, target, near as int),
        !none_nearer(s.known, target, near as int + 1),
        near < bound,
        near == 0 || near == 2 || near == 3,
        len + (near + 1) / 2 <= MAX_STEPS,
    ensures
        advance(s, target, n).outcome matches Some(Some(path)) && path.len() == len + (near + 1)
            / 2,
    decreases near,
{
    lemma_descent_step(s, target, bound, len);
    let i = best_open(s.known, target, s.known.len());
    let e = s.known[i];
    let next = visit(s, target);
    let j = choose|j: int| 0 <= j < s.known.len() && distance(s.known[j].cur, target) < near + 1;
    assert(distance(e.cur, target) == near);
    assert(advance(s, target, 1) == visit(advance(s, target, 0), target));
    if near == 0 {
        1
    } else {
        let moves = moves_of(e.cur, target);
        lemma_mismatches(e.cur, target);
        lemma_candidate_swaps(e.cur, target);
        let a = mismatches(e.cur, target)[0];
        let b = lemma_wanted_letter_waits(e.cur, target, a);
        let w = canonical_swap(a, b);
        assert(mismatched(e.cur, target, a) && mismatched(e.cur, target, b));
        assert(moves.contains(w));
        let k = choose|k: int| 0 <= k < moves.len() && moves[k] == w;
        lemma_swap_mends(e.cur, target, w);
        let board = swapped(e.cur, moves[k]);
        assert(has_board(next.known, board));
        let t = choose|t: int| holds_at(next.known, board, t);
        let lower: nat = if near == 2 {
            0
        } else {
            2
        };
        assert forall|l: int| 0 <= l < next.known.len() implies distance(
            (#[trigger] next.known[l]).cur,
            target,
        ) >= lower by {
            lemma_never_one_off(next.known[l].cur, target);
        }
        assert(distance(next.known[t].cur, target) == lower) by {
            lemma_never_one_off(next.known[t].cur, target);
        }
        let m = lemma_descent_from(next, target, near, len + 1, lower);
        lemma_advance_shift(s, target, m);
        m + 1
    }
}

/// Where the start and the target hold the same letters and differ in 4 or
/// 5 cells, and one of the swaps tried on the start mends two cells, the
/// search returns one swap for every two differing cells, rounded up: the
/// lemma hands back what it returns.
pub proof fn lemma_descent_with_two_mended(start: Grid, target: Grid, k: int) -> (path: Seq<Swap>)
    requires
        rectangular(start),
        rectangular(target),
        same_shape(start, target),
        letters(start) == letters(target),
        distance(start, target) == 4 || distance(start, target) == 5,
        0 <= k < candidate_swaps(start, target).len(),
        distance(swapped(start, candidate_swaps(start, target)[k]), target) + 2 == distance(
            start,
            target,
        ),
    ensures
        search_result(start, target, Some(path)),
        path.len() == (distance(start, target) + 1) / 2,
{
    let far = distance(start, target);
    let s = initial(start);
    assert(!none_nearer(s.known, target, far as int + 1)) by {
        assert(distance(s.known[0].cur, target) < far + 1);
    }
    lemma_descent_step(s, target, far + 1, 0);
    let next = visit(s, target);
    let moves = moves_of(start, target);
    let board = swapped(start, moves[k]);
    assert(has_board(next.known, board));
    let t = choose|t: int| holds_at(next.known, board, t);
    let near = (far - 2) as nat;
    assert(!none_nearer(next.known, target, near as int + 1)) by {
        assert(distance(next.known[t].cur, target) < near + 1);
    }
    let m = lemma_descent_from(next, target, far, 1, near);
    lemma_advance_shift(s, target, m);
    let ended = run(start, target, m + 1);
    assert(ended.outcome is Some && ended.outcome->0 is Some);
    let path = ended.outcome->0->0;
    assert(ended.outcome == Some(Some(path)));
    path
}

/// Two different cells that each hold the letter that the other lacks are
/// exchanged by one of the swaps tried on the grid, which mends both: the
/// lemma hands back which.
pub proof fn lemma_pair_is_tried(g: Grid, t: Grid, x: Coord, y: Coord) -> (k: int)
    requires
        rectangular(g),
        rectangular(t),
        same_shape(g, t),
        x != y,
        mismatched(g, t, x),
        mismatched(g, t, y),
        letter_at(g, x) == letter_at(t, y),
        letter_at(g, y) == letter_at(t, x),
    ensures
        0 <= k < candidate_swaps(g, t).len(),
        distance(swapped(g, candidate_swaps(g, t)[k]), t) + 2 == distance(g, t),
{
    lemma_candidate_swaps(g, t);
    let w = canonical_swap(x, y);
    assert(candidate_swaps(g, t).contains(w));
    lemma_swapped_either_way(g, x, y);
    lemma_both_mended(g, t, Swap { a: x, b: y });
    choose|k: int| 0 <= k < candidate_swaps(g, t).len() && candidate_swaps(g, t)[k] == w
}

/// Where 4 cells differ and 2 swaps lead to the target, or 5 cells differ
/// and 3 swaps lead to it, one of the swaps tried on the start mends two
/// cells: the lemma hands back which.
pub proof fn lemma_two_mended_at_start(start: Grid, target: Grid, other: Seq<Swap>) -> (k: int)
    requires
        rectangular(start),
        rectangular(target),
        same_shape(start, target),
        playable(start, other),
        replay(start, other) == target,
        (distance(start, target) == 4 && other.len() == 2) || (distance(start, target) == 5
            && other.len() == 3),
    ensures
        0 <= k < candidate_swaps(start, target).len(),
        distance(swapped(start, candidate_swaps(start, target)[k]), target) + 2 == distance(
            start,
            target,
        ),
{
    let far = distance(start, target);
    assert(other.take(0) =~= Seq::<Swap>::empty());
    assert(other.take(other.len() as int) =~= other);
    lemma_replay_step(start, other, 0);
    lemma_replay_step(start, other, 1);
    let first = swapped(start, other[0]);
    let second = swapped(first, other[1]);
    assert(replay(start, other.take(1)) == first);
    assert(replay(start, other.take(2)) == second);
    lemma_swapped_shape(start, other[0]);
    lemma_swapped_shape(first, other[1]);
    lemma_swap_mends_two(start, target, other[0]);
    lemma_swap_mends_two(first, target, other[1]);
    lemma_distance_zero(target, target);
    if far == 4 {
        lemma_two_mended(start, target, other[0]);
        lemma_pair_is_tried(start, target, other[0].a, other[0].b)
    } else {
        lemma_replay_step(start, other, 2);
        lemma_swapped_shape(second, other[2]);
        lemma_swap_mends_two(second, target, other[2]);
        lemma_playable_bound(start, other.take(2), target);
        lemma_playable_bound(start, other, target);
        lemma_never_one_off(second, target);
        if distance(first, target) == 3 {
            lemma_two_mended(start, target, other[0]);
            lemma_pair_is_tried(start, target, other[0].a, other[0].b)
        } else {
            let a = other[0].a;
            let b = other[0].b;
            let c = other[1].a;
            let d = other[1].b;
            let e = other[2].a;
            let f = other[2].b;
            lemma_two_mended(first, target, other[1]);
            lemma_two_mended(second, target, other[2]);
            lemma_swapped_cells(first, other[1], c);
            lemma_swapped_cells(first, other[1], d);
            lemma_swapped_cells(first, other[1], e);
            lemma_swapped_cells(first, other[1], f);
            lemma_swapped_cells(start, other[0], c);
            lemma_swapped_cells(start, other[0], d);
            lemma_swapped_cells(start, other[0], e);
            lemma_swapped_cells(start, other[0], f);
            if e != a && e != b && f != a && f != b {
                lemma_pair_is_tried(start, target, e, f)
            } else if c != a && c != b && d != a && d != b {
                lemma_pair_is_tried(start, target, c, d)
            } else {
                assert(mismatched(first, target, a) && mismatched(first, target, b));
                lemma_swap_of_wrong_cells(first, target, other[0]);
                lemma_swapped_twice(start, other[0]);
                assert(false);
                0
            }
        }
    }
}

/// Minimality on boards that are near: where the start and the target
/// differ in no more than 5 cells, no run of swaps from the start to the
/// target is shorter than the one that the search returns.
pub proof fn lemma_shortest_when_near(
    start: Grid,
    target: Grid,
    path: Seq<Swap>,
    other: Seq<Swap>,
)
    requires
        rectangular(start),
        rectangular(target),
        same_shape(start, target),
        distance(start, target) <= 5,
        search_result(start, target, Some(path)),
        playable(start, other),
        replay(start, other) == target,
    ensures
        path.len() <= other.len(),
{
    let far = distance(start, target);
    lemma_path_lengths(start, target, path, other);
    lemma_playable_bound(start, other, target);
    if (far == 4 && other.len() == 2) || (far == 5 && other.len() == 3) {
        let k = lemma_two_mended_at_start(start, target, other);
        let found = lemma_descent_with_two_mended(start, target, k);
        lemma_result_unique(start, target, Some(path), Some(found));
    }
}

} // verus!
