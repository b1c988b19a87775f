//! When the search is bound to find a run of swaps: for two boards with the
//! same letters that differ in few enough cells.

use vstd::prelude::*;

use crate::board::{
    canonical_swap, distance, lemma_distance_zero, lemma_mismatches, letters, mismatched,
    mismatches, rectangular, same_shape, swapped, Grid, Swap,
};
use crate::letters::{lemma_never_one_off, lemma_swap_mends, lemma_wanted_letter_waits};
use crate::moves::lemma_candidate_swaps;
use crate::search_proofs::{
    lemma_absorb_descends, lemma_replay_letters, lemma_result_unique, lemma_run_sound,
    lemma_search_identity,
};
use crate::search_spec::{
    absorb, absorb_all, best_open, lemma_best_open, lemma_position_of, moves_of, position_of, run,
    search_result, MAX_STEPS, Search, StateView,
};

verus! {

/// The number of swaps by which a line was reached, and the least number
/// that it still needs: one for each differing cell but the last two, which
/// one swap mends together.
pub open spec fn reach(e: StateView, target: Grid) -> nat {
    let d = distance(e.cur, target);
    e.steps.len() + if d == 0 {
        1nat
    } else {
        d
    }
}

/// No line of the table needs more swaps in all than `limit`.
pub open spec fn within(known: Seq<StateView>, target: Grid, limit: nat) -> bool {
    forall|i: int| 0 <= i < known.len() ==> reach(#[trigger] known[i], target) <= limit
}

/// No line that has been expanded is nearer to the target than `bound`.
pub open spec fn closed_beyond(known: Seq<StateView>, target: Grid, bound: nat) -> bool {
    forall|i: int|
        0 <= i < known.len() && !(#[trigger] known[i]).open ==> distance(known[i].cur, target)
            >= bound
}

/// Line `j` waits, nearer to the target than `bound`.
pub open spec fn waits_at(known: Seq<StateView>, target: Grid, bound: nat, j: int) -> bool {
    0 <= j < known.len() && known[j].open && distance(known[j].cur, target) < bound
}

/// Some line waits, nearer to the target than `bound`.
pub open spec fn waits_within(known: Seq<StateView>, target: Grid, bound: nat) -> bool {
    exists|j: int| waits_at(known, target, bound, j)
}

/// Some line waits that is nearer to the target than every line that has
/// been expanded.
pub open spec fn leads_on(known: Seq<StateView>, target: Grid) -> bool {
    exists|j: int|
        0 <= j < known.len() && known[j].open && closed_beyond(
            known,
            target,
            #[trigger] distance(known[j].cur, target) + 1,
        )
}

/// The search is on course: no line needs more swaps than the start did, and
/// either a run of swaps has been found, or a line waits that is nearer to
/// the target than all that have been expanded.
pub open spec fn on_course(s: Search, start: Grid, target: Grid) -> bool {
    &&& within(s.known, target, distance(start, target))
    &&& s.outcome != Some(None::<Seq<Swap>>)
    &&& s.outcome is None ==> leads_on(s.known, target)
}

/// The line that is expanded next is as near to the target as any line that
/// waits.
pub proof fn lemma_best_is_nearest(known: Seq<StateView>, target: Grid, n: nat)
    requires
        n <= known.len(),
    ensures
        forall|j: int|
            0 <= j < n && (#[trigger] known[j]).open ==> best_open(known, target, n) >= 0
                && distance(known[best_open(known, target, n)].cur, target) <= distance(
                known[j].cur,
                target,
            ),
    decreases n,
{
    if n > 0 {
        lemma_best_is_nearest(known, target, (n - 1) as nat);
        lemma_best_open(known, target, (n - 1) as nat);
    }
}

/// One tried swap keeps the table within its limit and opens no line
/// that is as far from the target as the parent; a line that waits nearer
/// than the parent still does so, and one does if the swap leads nearer.
proof fn lemma_absorb_course(
    known: Seq<StateView>,
    parent: StateView,
    w: Swap,
    target: Grid,
    limit: nat,
)
    requires
        distance(parent.cur, target) >= 2,
        reach(parent, target) <= limit,
        within(known, target, limit),
        closed_beyond(known, target, distance(parent.cur, target)),
    ensures
        within(absorb(known, parent, w, target), target, limit),
        closed_beyond(absorb(known, parent, w, target), target, distance(parent.cur, target)),
        waits_within(known, target, distance(parent.cur, target)) ==> waits_within(
            absorb(known, parent, w, target),
            target,
            distance(parent.cur, target),
        ),
        distance(swapped(parent.cur, w), target) < distance(parent.cur, target) ==> waits_within(
            absorb(known, parent, w, target),
            target,
            distance(parent.cur, target),
        ),
{
    let bound = distance(parent.cur, target);
    let after = absorb(known, parent, w, target);
    let next = swapped(parent.cur, w);
    lemma_absorb_descends(known, parent, w, target);
    lemma_position_of(known, next, known.len());
    assert forall|i: int| 0 <= i < after.len() implies reach(#[trigger] after[i], target)
        <= limit by {
        if !(i < known.len() && after[i] == known[i]) {
            assert(after[i].steps.len() == parent.steps.len() + 1);
        }
    }
    if waits_within(known, target, bound) {
        let j = choose|j: int| waits_at(known, target, bound, j);
        assert(waits_at(after, target, bound, j));
    }
    if distance(next, target) < bound {
        let at = position_of(known, next, known.len());
        if at < 0 {
            assert(waits_at(after, target, bound, after.len() - 1));
        } else {
            assert(waits_at(after, target, bound, at));
        }
    }
}

/// As `lemma_absorb_course`, for the first `n` swaps; `k` names a swap
/// among them that may lead nearer to the target.
proof fn lemma_absorb_all_course(
    known: Seq<StateView>,
    parent: StateView,
    moves: Seq<Swap>,
    target: Grid,
    limit: nat,
    n: nat,
    k: int,
)
    requires
        n <= moves.len(),
        distance(parent.cur, target) >= 2,
        reach(parent, target) <= limit,
        within(known, target, limit),
        closed_beyond(known, target, distance(parent.cur, target)),
    ensures
        within(absorb_all(known, parent, moves, target, n), target, limit),
        closed_beyond(
            absorb_all(known, parent, moves, target, n),
            target,
            distance(parent.cur, target),
        ),
        0 <= k < n && distance(swapped(parent.cur, moves[k]), target) < distance(
            parent.cur,
            target,
        ) ==> waits_within(
            absorb_all(known, parent, moves, target, n),
            target,
            distance(parent.cur, target),
        ),
    decreases n,
{
    if n > 0 {
        let m = (n - 1) as nat;
        lemma_absorb_all_course(known, parent, moves, target, limit, m, k);
        lemma_absorb_course(
            absorb_all(known, parent, moves, target, m),
            parent,
            moves[m as int],
            target,
            limit,
        );
    }
}

/// While the start and the target hold the same letters and differ in at
/// least two cells and in no more than `MAX_STEPS + 1`, the search stays on
/// course, visit after visit.
pub proof fn lemma_run_on_course(start: Grid, target: Grid, n: nat)
    requires
        rectangular(start),
        rectangular(target),
        same_shape(start, target),
        letters(start) == letters(target),
        2 <= distance(start, target) <= MAX_STEPS + 1,
    ensures
        on_course(run(start, target, n), start, target),
    decreases n,
{
    let limit = distance(start, target);
    if n == 0 {
        let s = run(start, target, 0);
        assert(closed_beyond(s.known, target, distance(s.known[0].cur, target) + 1));
    } else {
        let s = run(start, target, (n - 1) as nat);
        lemma_run_on_course(start, target, (n - 1) as nat);
        lemma_run_sound(start, target, (n - 1) as nat);
        if s.outcome is None {
            let i = best_open(s.known, target, s.known.len());
            lemma_best_open(s.known, target, s.known.len());
            lemma_best_is_nearest(s.known, target, s.known.len());
            let j = choose|j: int|
                0 <= j < s.known.len() && s.known[j].open && closed_beyond(
                    s.known,
                    target,
                    #[trigger] distance(s.known[j].cur, target) + 1,
                );
            let e = s.known[i];
            let bound = distance(e.cur, target);
            let closed = s.known.update(i, StateView { open: false, ..e });
            assert(reach(e, target) <= limit);
            assert(closed_beyond(closed, target, bound));
            assert(within(closed, target, limit));
            lemma_replay_letters(start, e.steps, target);
            lemma_never_one_off(e.cur, target);
            if bound != 0 {
                let moves = moves_of(e.cur, target);
                lemma_mismatches(e.cur, target);
                lemma_candidate_swaps(e.cur, target);
                let a = mismatches(e.cur, target)[0];
                let b = lemma_wanted_letter_waits(e.cur, target, a);
                let w = canonical_swap(a, b);
                assert(mismatched(e.cur, target, a) && mismatched(e.cur, target, b));
                assert(moves.contains(w));
                let k = choose|k: int| 0 <= k < moves.len() && moves[k] == w;
                lemma_swap_mends(e.cur, target, w);
                lemma_absorb_all_course(closed, e, moves, target, limit, moves.len(), k);
                let after = absorb_all(closed, e, moves, target, moves.len());
                let t = choose|t: int| waits_at(after, target, bound, t);
                assert(closed_beyond(after, target, distance(after[t].cur, target) + 1));
            }
        }
    }
}

/// Success of the search: for two boards of one shape that hold the same
/// letters equally often and differ in no more than `MAX_STEPS + 1` cells,
/// the search ends with a run of swaps.
pub proof fn lemma_search_finds(start: Grid, target: Grid, r: Option<Seq<Swap>>)
    requires
        rectangular(start),
        rectangular(target),
        same_shape(start, target),
        letters(start) == letters(target),
        distance(start, target) <= MAX_STEPS + 1,
        search_result(start, target, r),
    ensures
        r is Some,
{
    if distance(start, target) == 0 {
        lemma_distance_zero(start, target);
        lemma_search_identity(start);
        lemma_result_unique(start, target, r, Some(Seq::<Swap>::empty()));
    } else {
        lemma_never_one_off(start, target);
        let n = choose|n: nat| (#[trigger] run(start, target, n)).outcome == Some(r);
        lemma_run_on_course(start, target, n);
    }
}

} // verus!
