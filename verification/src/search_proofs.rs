//! What holds of every search: the swaps it returns lead from the start to
//! the target, each bringing the board nearer to it, and two searches for
//! the same boards end alike.

use vstd::prelude::*;

use crate::board::{
    distance, in_grid, lemma_distance_zero, lemma_swapped_letters, letters, rectangular, same_shape,
    swapped, with_letter, Coord, Grid, Swap,
};
use crate::letters::{lemma_never_one_off, lemma_swap_mends_two};
use crate::moves::lemma_candidate_swaps;
use crate::search_spec::{
    absorb, absorb_all, advance, best_open, initial, lemma_best_open, lemma_position_of,
    lemma_visit_decreases, moves_of, open_weight, run, search_result, shaped, visit, MAX_STEPS,
    Search, StateView,
};

verus! {

/// The grid after the swaps of `steps` have been made on `g`, one after the
/// other, in order.
pub open spec fn replay(g: Grid, steps: Seq<Swap>) -> Grid
    decreases steps.len(),
{
    if steps.len() == 0 {
        g
    } else {
        swapped(replay(g, steps.drop_last()), steps.last())
    }
}

/// Every swap of `steps`, made in order on `g`, exchanges two cells of the
/// grid and leaves fewer cells that differ from `target` than there were
/// before it.
pub open spec fn descends(g: Grid, steps: Seq<Swap>, target: Grid) -> bool
    decreases steps.len(),
{
    steps.len() == 0 || {
        let earlier = replay(g, steps.drop_last());
        let w = steps.last();
        &&& descends(g, steps.drop_last(), target)
        &&& in_grid(earlier, w.a)
        &&& in_grid(earlier, w.b)
        &&& distance(swapped(earlier, w), target) < distance(earlier, target)
    }
}

/// Every swap of `steps`, made in order on `g`, exchanges two cells of the
/// grid.
pub open spec fn playable(g: Grid, steps: Seq<Swap>) -> bool
    decreases steps.len(),
{
    steps.len() == 0 || {
        let earlier = replay(g, steps.drop_last());
        &&& playable(g, steps.drop_last())
        &&& in_grid(earlier, steps.last().a)
        &&& in_grid(earlier, steps.last().b)
    }
}

/// Every line of the table holds the board that its swaps lead to from
/// `start`, and those swaps descend towards `target`.
pub open spec fn traced(known: Seq<StateView>, start: Grid, target: Grid) -> bool {
    forall|i: int|
        0 <= i < known.len() ==> replay(start, (#[trigger] known[i]).steps) == known[i].cur
            && descends(start, known[i].steps, target)
}

/// A letter put into a cell of a rectangular grid leaves the grid
/// rectangular and of the same shape.
pub proof fn lemma_with_letter_shape(g: Grid, c: Coord, x: char)
    requires
        rectangular(g),
        in_grid(g, c),
    ensures
        rectangular(with_letter(g, c, x)),
        same_shape(with_letter(g, c, x), g),
{
    let h = with_letter(g, c, x);
    assert(g[c.row as int].len() == g[0].len());
    assert forall|r: int| 0 <= r < h.len() implies (#[trigger] h[r]).len() == h[0].len() by {
        assert(g[r].len() == g[0].len());
    }
}

/// A swap of two cells of a rectangular grid leaves the grid rectangular and
/// of the same shape.
pub proof fn lemma_swapped_shape(g: Grid, w: Swap)
    requires
        rectangular(g),
        in_grid(g, w.a),
        in_grid(g, w.b),
    ensures
        rectangular(swapped(g, w)),
        same_shape(swapped(g, w), g),
{
    let x = g[w.a.row as int][w.a.col as int];
    let y = g[w.b.row as int][w.b.col as int];
    lemma_with_letter_shape(g, w.a, y);
    lemma_with_letter_shape(with_letter(g, w.a, y), w.b, x);
}

/// Monotonicity of the search: a board that a tried swap brings into the
/// table, or for which it shortens the known run of swaps, is the board that
/// the swap leads to from its parent, it waits, and fewer of its cells
/// differ from the target than of the parent's. Every other line is as it
/// was, and no line changes its board.
pub proof fn lemma_absorb_descends(
    known: Seq<StateView>,
    parent: StateView,
    w: Swap,
    target: Grid,
)
    ensures
        known.len() <= absorb(known, parent, w, target).len() <= known.len() + 1,
        forall|i: int|
            #![trigger absorb(known, parent, w, target)[i]]
            0 <= i < known.len() ==> absorb(known, parent, w, target)[i].cur == known[i].cur,
        forall|i: int|
            #![trigger absorb(known, parent, w, target)[i]]
            0 <= i < absorb(known, parent, w, target).len() ==> {
                let line = absorb(known, parent, w, target)[i];
                ||| (i < known.len() && line == known[i])
                ||| ({
                    &&& line.cur == swapped(parent.cur, w)
                    &&& line.steps == parent.steps.push(w)
                    &&& line.open
                    &&& distance(line.cur, target) < distance(parent.cur, target)
                })
            },
{
    let next = swapped(parent.cur, w);
    lemma_position_of(known, next, known.len());
}

/// One tried swap that exchanges cells of the parent's board keeps the
/// table shaped and traced.
proof fn lemma_absorb_keeps(
    known: Seq<StateView>,
    parent: StateView,
    w: Swap,
    start: Grid,
    target: Grid,
)
    requires
        rectangular(target),
        shaped(known, target),
        traced(known, start, target),
        rectangular(parent.cur),
        same_shape(parent.cur, target),
        replay(start, parent.steps) == parent.cur,
        descends(start, parent.steps, target),
        in_grid(parent.cur, w.a),
        in_grid(parent.cur, w.b),
    ensures
        shaped(absorb(known, parent, w, target), target),
        traced(absorb(known, parent, w, target), start, target),
{
    let after = absorb(known, parent, w, target);
    let steps = parent.steps.push(w);
    lemma_absorb_descends(known, parent, w, target);
    lemma_swapped_shape(parent.cur, w);
    assert(steps.drop_last() =~= parent.steps);
    assert forall|i: int| 0 <= i < after.len() implies rectangular((#[trigger] after[i]).cur)
        && same_shape(after[i].cur, target) && replay(start, after[i].steps) == after[i].cur
        && descends(start, after[i].steps, target) by {
        if i < known.len() && after[i] == known[i] {
        } else {
            assert(after[i].steps == steps);
        }
    }
}

/// As `lemma_absorb_keeps`, for the first `n` swaps.
proof fn lemma_absorb_all_keeps(
    known: Seq<StateView>,
    parent: StateView,
    moves: Seq<Swap>,
    start: Grid,
    target: Grid,
    n: nat,
)
    requires
        n <= moves.len(),
        rectangular(target),
        shaped(known, target),
        traced(known, start, target),
        rectangular(parent.cur),
        same_shape(parent.cur, target),
        replay(start, parent.steps) == parent.cur,
        descends(start, parent.steps, target),
        forall|k: int|
            0 <= k < moves.len() ==> in_grid(parent.cur, (#[trigger] moves[k]).a) && in_grid(
                parent.cur,
                moves[k].b,
            ),
    ensures
        shaped(absorb_all(known, parent, moves, target, n), target),
        traced(absorb_all(known, parent, moves, target, n), start, target),
    decreases n,
{
    if n > 0 {
        let m = (n - 1) as nat;
        lemma_absorb_all_keeps(known, parent, moves, start, target, m);
        lemma_absorb_keeps(
            absorb_all(known, parent, moves, target, m),
            parent,
            moves[m as int],
            start,
            target,
        );
    }
}

/// What a search that has ended with a run of swaps says of that run.
pub open spec fn sound_outcome(s: Search, start: Grid, target: Grid) -> bool {
    s.outcome matches Some(Some(path)) ==> {
        &&& replay(start, path) == target
        &&& descends(start, path, target)
        &&& path.len() <= MAX_STEPS
    }
}

/// After any number of visits, the table holds boards of the target's shape,
/// each with swaps that lead to it from the start and descend towards the
/// target; and if the search has ended with a run of swaps, that run leads
/// to the target, descends, and is no longer than `MAX_STEPS`.
pub proof fn lemma_run_sound(start: Grid, target: Grid, n: nat)
    requires
        rectangular(start),
        rectangular(target),
        same_shape(start, target),
    ensures
        shaped(run(start, target, n).known, target),
        traced(run(start, target, n).known, start, target),
        sound_outcome(run(start, target, n), start, target),
    decreases n,
{
    if n > 0 {
        let s = run(start, target, (n - 1) as nat);
        lemma_run_sound(start, target, (n - 1) as nat);
        let i = best_open(s.known, target, s.known.len());
        lemma_best_open(s.known, target, s.known.len());
        if s.outcome is None && i >= 0 {
            let e = s.known[i];
            let closed = s.known.update(i, StateView { open: false, ..e });
            assert(shaped(closed, target));
            assert(traced(closed, start, target));
            if e.steps.len() <= MAX_STEPS {
                if distance(e.cur, target) == 0 {
                    lemma_distance_zero(e.cur, target);
                } else {
                    let moves = moves_of(e.cur, target);
                    if distance(e.cur, target) != 1 {
                        lemma_candidate_swaps(e.cur, target);
                    }
                    lemma_absorb_all_keeps(closed, e, moves, start, target, moves.len());
                }
            }
        }
    }
}

/// A search that has ended stays as it is, however many visits follow.
pub proof fn lemma_run_settles(start: Grid, target: Grid, n: nat, m: nat)
    requires
        n <= m,
        run(start, target, n).outcome is Some,
    ensures
        run(start, target, m) == run(start, target, n),
    decreases m,
{
    if m > n {
        lemma_run_settles(start, target, n, (m - 1) as nat);
    }
}

/// Determinism: the search from `start` for `target` has one result. Two
/// runs of it on the same two boards end with the same swaps in the same
/// order, or both with none.
pub proof fn lemma_result_unique(
    start: Grid,
    target: Grid,
    r1: Option<Seq<Swap>>,
    r2: Option<Seq<Swap>>,
)
    requires
        search_result(start, target, r1),
        search_result(start, target, r2),
    ensures
        r1 == r2,
{
    let n1 = choose|n: nat| (#[trigger] run(start, target, n)).outcome == Some(r1);
    let n2 = choose|n: nat| (#[trigger] run(start, target, n)).outcome == Some(r2);
    if n1 <= n2 {
        lemma_run_settles(start, target, n1, n2);
    } else {
        lemma_run_settles(start, target, n2, n1);
    }
}

/// Identity: the search from a board for that same board ends with no swap
/// at all.
pub proof fn lemma_search_identity(g: Grid)
    requires
        rectangular(g),
    ensures
        search_result(g, g, Some(Seq::<Swap>::empty())),
{
    let s = initial(g);
    lemma_distance_zero(g, g);
    assert(best_open(s.known, g, 1) == 0) by {
        assert(best_open(s.known, g, 0) == -1);
    }
    assert(run(g, g, 0) == s);
    assert(run(g, g, 1) == visit(s, g));
    assert(run(g, g, 1).outcome == Some(Some(Seq::<Swap>::empty())));
}

/// Correctness: the swaps that a search returns, made in order on `start`,
/// give exactly `target`; each of them leaves fewer differing cells than
/// there were before it; and they are no more than `MAX_STEPS`.
pub proof fn lemma_result_leads(start: Grid, target: Grid, path: Seq<Swap>)
    requires
        rectangular(start),
        rectangular(target),
        same_shape(start, target),
        search_result(start, target, Some(path)),
    ensures
        replay(start, path) == target,
        descends(start, path, target),
        path.len() <= MAX_STEPS,
{
    let n = choose|n: nat| (#[trigger] run(start, target, n)).outcome == Some(Some(path));
    lemma_run_sound(start, target, n);
}

/// Swaps that exchange cells of the grid lead to a grid of the same shape
/// with the same letters, each as often as before.
pub proof fn lemma_replay_letters(g: Grid, steps: Seq<Swap>, target: Grid)
    requires
        rectangular(g),
        descends(g, steps, target),
    ensures
        rectangular(replay(g, steps)),
        same_shape(replay(g, steps), g),
        letters(replay(g, steps)) == letters(g),
    decreases steps.len(),
{
    if steps.len() > 0 {
        lemma_replay_letters(g, steps.drop_last(), target);
        let earlier = replay(g, steps.drop_last());
        lemma_swapped_shape(earlier, steps.last());
        lemma_swapped_letters(earlier, steps.last());
    }
}

/// Unsolvable boards: where the start and the target do not hold the same
/// letters equally often, the search ends without a run of swaps.
pub proof fn lemma_unsolvable(start: Grid, target: Grid, r: Option<Seq<Swap>>)
    requires
        rectangular(start),
        rectangular(target),
        same_shape(start, target),
        search_result(start, target, r),
        letters(start) != letters(target),
    ensures
        r is None,
{
    if r is Some {
        lemma_result_leads(start, target, r->0);
        lemma_replay_letters(start, r->0, target);
    }
}

/// A run of swaps with a part at its beginning that cannot be played cannot
/// be played.
pub proof fn lemma_unplayable(g: Grid, steps: Seq<Swap>, n: nat)
    requires
        n <= steps.len(),
        !playable(g, steps.take(n as int)),
    ensures
        !playable(g, steps),
    decreases steps.len(),
{
    if n < steps.len() {
        assert(steps.drop_last().take(n as int) =~= steps.take(n as int));
        lemma_unplayable(g, steps.drop_last(), n);
    } else {
        assert(steps.take(n as int) =~= steps);
    }
}

/// The board after the first `n + 1` swaps of a run that can be played is
/// the board after the first `n` with swap `n` made on it, and that swap
/// exchanges two of its cells.
pub proof fn lemma_replay_step(g: Grid, steps: Seq<Swap>, n: int)
    requires
        playable(g, steps),
        0 <= n < steps.len(),
    ensures
        playable(g, steps.take(n)),
        playable(g, steps.take(n + 1)),
        in_grid(replay(g, steps.take(n)), steps[n].a),
        in_grid(replay(g, steps.take(n)), steps[n].b),
        replay(g, steps.take(n + 1)) == swapped(replay(g, steps.take(n)), steps[n]),
{
    if !playable(g, steps.take(n)) {
        lemma_unplayable(g, steps, n as nat);
    }
    if !playable(g, steps.take(n + 1)) {
        lemma_unplayable(g, steps, (n + 1) as nat);
    }
    assert(steps.take(n + 1).drop_last() =~= steps.take(n));
}

/// Swaps that descend towards the target can be played.
pub proof fn lemma_descends_playable(g: Grid, steps: Seq<Swap>, target: Grid)
    requires
        descends(g, steps, target),
    ensures
        playable(g, steps),
    decreases steps.len(),
{
    if steps.len() > 0 {
        lemma_descends_playable(g, steps.drop_last(), target);
    }
}

/// Swaps that can be played lead to a grid of the same shape with the same
/// letters, which is nearer to the target by no more than 2 for each swap.
pub proof fn lemma_playable_bound(g: Grid, steps: Seq<Swap>, target: Grid)
    requires
        rectangular(g),
        rectangular(target),
        same_shape(g, target),
        playable(g, steps),
    ensures
        rectangular(replay(g, steps)),
        same_shape(replay(g, steps), g),
        letters(replay(g, steps)) == letters(g),
        distance(g, target) <= distance(replay(g, steps), target) + 2 * steps.len(),
    decreases steps.len(),
{
    if steps.len() > 0 {
        lemma_playable_bound(g, steps.drop_last(), target);
        let earlier = replay(g, steps.drop_last());
        lemma_swapped_shape(earlier, steps.last());
        lemma_swapped_letters(earlier, steps.last());
        lemma_swap_mends_two(earlier, target, steps.last());
    }
}

/// Swaps that descend towards the target bring the grid nearer to it by at
/// least 1 each.
pub proof fn lemma_descends_bound(g: Grid, steps: Seq<Swap>, target: Grid)
    requires
        descends(g, steps, target),
    ensures
        distance(replay(g, steps), target) + steps.len() <= distance(g, target),
    decreases steps.len(),
{
    if steps.len() > 0 {
        lemma_descends_bound(g, steps.drop_last(), target);
    }
}

/// The length of what the search returns, and of any run of swaps: the
/// search returns fewer swaps than cells differ, since each of its swaps
/// mends a cell and the last one mends two; and no run of swaps from the
/// start to the target has fewer than half as many swaps as cells differ.
/// So the search returns fewer than twice as many swaps as any run has.
pub proof fn lemma_path_lengths(start: Grid, target: Grid, path: Seq<Swap>, other: Seq<Swap>)
    requires
        rectangular(start),
        rectangular(target),
        same_shape(start, target),
        search_result(start, target, Some(path)),
        playable(start, other),
        replay(start, other) == target,
    ensures
        path.len() == 0 <==> start == target,
        path.len() > 0 ==> path.len() + 1 <= distance(start, target),
        distance(start, target) <= 2 * other.len(),
        path.len() > 0 ==> path.len() < 2 * other.len(),
{
    lemma_result_leads(start, target, path);
    lemma_playable_bound(start, other, target);
    lemma_distance_zero(target, target);
    lemma_distance_zero(start, target);
    if path.len() > 0 {
        let earlier = replay(start, path.drop_last());
        lemma_descends_playable(start, path.drop_last(), target);
        lemma_playable_bound(start, path.drop_last(), target);
        lemma_descends_bound(start, path.drop_last(), target);
        lemma_replay_letters(start, path, target);
        lemma_never_one_off(earlier, target);
    }
}

/// Tried swaps that exchange cells of the parent's board keep the table
/// shaped.
proof fn lemma_absorb_all_shaped(
    known: Seq<StateView>,
    parent: StateView,
    moves: Seq<Swap>,
    target: Grid,
    n: nat,
)
    requires
        n <= moves.len(),
        shaped(known, target),
        rectangular(parent.cur),
        same_shape(parent.cur, target),
        forall|k: int|
            0 <= k < moves.len() ==> in_grid(parent.cur, (#[trigger] moves[k]).a) && in_grid(
                parent.cur,
                moves[k].b,
            ),
    ensures
        shaped(absorb_all(known, parent, moves, target, n), target),
    decreases n,
{
    if n > 0 {
        let m = (n - 1) as nat;
        lemma_absorb_all_shaped(known, parent, moves, target, m);
        let before = absorb_all(known, parent, moves, target, m);
        lemma_absorb_descends(before, parent, moves[m as int], target);
        lemma_swapped_shape(parent.cur, moves[m as int]);
    }
}

/// A visit leaves every board of the table rectangular and of the shape of
/// the target.
pub proof fn lemma_visit_shaped(s: Search, target: Grid)
    requires
        rectangular(target),
        shaped(s.known, target),
    ensures
        shaped(visit(s, target).known, target),
{
    let i = best_open(s.known, target, s.known.len());
    lemma_best_open(s.known, target, s.known.len());
    if s.outcome is None && i >= 0 {
        let e = s.known[i];
        let closed = s.known.update(i, StateView { open: false, ..e });
        assert(shaped(closed, target));
        let moves = moves_of(e.cur, target);
        if distance(e.cur, target) != 1 {
            lemma_candidate_swaps(e.cur, target);
        }
        lemma_absorb_all_shaped(closed, e, moves, target, moves.len());
    }
}

/// A visit first and `n` visits after it are `n` visits and one more.
pub proof fn lemma_advance_shift(s: Search, target: Grid, n: nat)
    ensures
        advance(visit(s, target), target, n) == advance(s, target, n + 1),
    decreases n,
{
    assert(advance(s, target, n + 1) == visit(advance(s, target, n), target));
    if n > 0 {
        lemma_advance_shift(s, target, (n - 1) as nat);
        assert(advance(s, target, n) == visit(advance(s, target, (n - 1) as nat), target));
    } else {
        assert(advance(s, target, 0) == s);
    }
}

/// Termination: from any table of boards of the target's shape the search
/// ends after some number of visits, which the lemma hands back. Each visit
/// that takes a line lowers the measure `open_weight`.
pub proof fn lemma_search_ends(s: Search, target: Grid) -> (n: nat)
    requires
        rectangular(target),
        shaped(s.known, target),
    ensures
        advance(s, target, n).outcome is Some,
    decreases open_weight(s.known, target, s.known.len()),
{
    if s.outcome is Some {
        0
    } else if best_open(s.known, target, s.known.len()) < 0 {
        assert(advance(s, target, 1) == visit(advance(s, target, 0), target));
        1
    } else {
        lemma_visit_decreases(s, target);
        lemma_visit_shaped(s, target);
        let m = lemma_search_ends(visit(s, target), target);
        lemma_advance_shift(s, target, m);
        m + 1
    }
}

/// Every search for a board of the start's shape has a result.
pub proof fn lemma_search_has_result(start: Grid, target: Grid)
    requires
        rectangular(start),
        rectangular(target),
        same_shape(start, target),
    ensures
        exists|r: Option<Seq<Swap>>| search_result(start, target, r),
{
    let n = lemma_search_ends(initial(start), target);
    let r = run(start, target, n).outcome->0;
    assert(run(start, target, n).outcome == Some(r));
    assert(search_result(start, target, r));
}

} // verus!
