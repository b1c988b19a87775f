//! The search for a run of swaps, as a mathematical model: the table of the
//! boards met so far, the choice of the next board to expand, and what one
//! visit does to the table.

use vstd::prelude::*;

use crate::board::{distance, rectangular, same_shape, swap_before, swapped, Grid, Swap};
use crate::moves::{candidate_swaps, lemma_candidate_swaps};

verus! {

/// The longest run of swaps that the search still expands. A board reached
/// by more swaps than this is dropped when its turn comes.
pub const MAX_STEPS: usize = 10;

/// One line of the search table: a board, the shortest run of swaps known to
/// lead to it from the start, and whether it still waits to be expanded.
pub struct StateView {
    pub cur: Grid,
    pub steps: Seq<Swap>,
    pub open: bool,
}

/// The search at one moment: its table, and how it ended if it has: with a
/// run of swaps, or with none.
pub struct Search {
    pub known: Seq<StateView>,
    pub outcome: Option<Option<Seq<Swap>>>,
}

/// The order in which waiting boards are expanded: nearer to the target
/// first; among equally near ones, the one reached by fewer swaps; among
/// those, the one whose last swap is the smaller.
pub open spec fn state_before(x: StateView, y: StateView, target: Grid) -> bool {
    let dx = distance(x.cur, target);
    let dy = distance(y.cur, target);
    dx < dy || (dx == dy && (x.steps.len() < y.steps.len() || (x.steps.len() == y.steps.len()
        && x.steps.len() > 0 && swap_before(x.steps.last(), y.steps.last()))))
}

/// The line among the first `n` that is expanded next: the first of the
/// waiting lines that no other waiting line comes before. It is -1 when no
/// line waits.
pub open spec fn best_open(known: Seq<StateView>, target: Grid, n: nat) -> int
    decreases n,
{
    if n == 0 {
        -1
    } else {
        let best = best_open(known, target, (n - 1) as nat);
        if known[n - 1].open && (best < 0 || state_before(known[n - 1], known[best], target)) {
            n - 1
        } else {
            best
        }
    }
}

/// The first line among the first `n` that holds `board`, or -1.
pub open spec fn position_of(known: Seq<StateView>, board: Grid, n: nat) -> int
    decreases n,
{
    if n == 0 {
        -1
    } else {
        let earlier = position_of(known, board, (n - 1) as nat);
        if earlier >= 0 {
            earlier
        } else if known[n - 1].cur == board {
            n - 1
        } else {
            -1
        }
    }
}

/// The table after the swap `w` has been tried on the board of `parent`. The
/// board that `w` leads to is taken up only if it is nearer to the target
/// than the parent's, and only if it is new or was reached by more swaps
/// before; it then waits to be expanded.
pub open spec fn absorb(known: Seq<StateView>, parent: StateView, w: Swap, target: Grid) -> Seq<
    StateView,
> {
    let next = swapped(parent.cur, w);
    let child = StateView { cur: next, steps: parent.steps.push(w), open: true };
    let at = position_of(known, next, known.len());
    if distance(next, target) >= distance(parent.cur, target) {
        known
    } else if at < 0 {
        known.push(child)
    } else if known[at].steps.len() <= child.steps.len() {
        known
    } else {
        known.update(at, child)
    }
}

/// The table after the first `n` of `moves` have been tried, in order, on
/// the board of `parent`.
pub open spec fn absorb_all(
    known: Seq<StateView>,
    parent: StateView,
    moves: Seq<Swap>,
    target: Grid,
    n: nat,
) -> Seq<StateView>
    decreases n,
{
    if n == 0 {
        known
    } else {
        absorb(absorb_all(known, parent, moves, target, (n - 1) as nat), parent, moves[n - 1], target)
    }
}

/// The swaps tried on a board: none where exactly one cell differs from the
/// target, else one for every two differing cells.
pub open spec fn moves_of(board: Grid, target: Grid) -> Seq<Swap> {
    if distance(board, target) == 1 {
        Seq::empty()
    } else {
        candidate_swaps(board, target)
    }
}

/// One visit. A search that has ended stays as it is. Else the next waiting
/// line is taken; with none, the search ends without a run of swaps. The
/// line stops waiting. If it was reached by more than `MAX_STEPS` swaps it is
/// dropped; if its board is the target, the search ends with its swaps; else
/// every swap of `moves_of` is tried on it.
pub open spec fn visit(s: Search, target: Grid) -> Search {
    let i = best_open(s.known, target, s.known.len());
    if s.outcome is Some {
        s
    } else if i < 0 {
        Search { known: s.known, outcome: Some(None) }
    } else {
        let e = s.known[i];
        let closed = s.known.update(i, StateView { open: false, ..e });
        if e.steps.len() > MAX_STEPS {
            Search { known: closed, outcome: None }
        } else if distance(e.cur, target) == 0 {
            Search { known: closed, outcome: Some(Some(e.steps)) }
        } else {
            let moves = moves_of(e.cur, target);
            Search { known: absorb_all(closed, e, moves, target, moves.len()), outcome: None }
        }
    }
}

/// The search at its beginning: the start board alone, reached by no swap,
/// waiting.
pub open spec fn initial(start: Grid) -> Search {
    Search {
        known: seq![StateView { cur: start, steps: Seq::empty(), open: true }],
        outcome: None,
    }
}

/// The search `n` visits after it was `s`.
pub open spec fn advance(s: Search, target: Grid, n: nat) -> Search
    decreases n,
{
    if n == 0 {
        s
    } else {
        visit(advance(s, target, (n - 1) as nat), target)
    }
}

/// The search from `start` after `n` visits.
pub open spec fn run(start: Grid, target: Grid, n: nat) -> Search {
    advance(initial(start), target, n)
}

/// `r` is what the search from `start` for `target` ends with: after some
/// number of visits it has ended, with `r`.
pub open spec fn search_result(start: Grid, target: Grid, r: Option<Seq<Swap>>) -> bool {
    exists|n: nat| (#[trigger] run(start, target, n)).outcome == Some(r)
}

/// Every board of the table is rectangular and has the shape of the target.
pub open spec fn shaped(known: Seq<StateView>, target: Grid) -> bool {
    forall|i: int|
        0 <= i < known.len() ==> rectangular((#[trigger] known[i]).cur) && same_shape(
            known[i].cur,
            target,
        )
}

/// What a waiting board at distance `d` from the target counts for in the
/// measure by which the search is seen to end. It exceeds all that the
/// boards taken up from it can count for together: they are fewer than
/// `d * d + 1` and each is nearer to the target.
pub open spec fn weight(d: nat) -> nat
    decreases d,
{
    if d == 0 {
        1
    } else {
        (d * d + 1) * weight((d - 1) as nat)
    }
}

/// What a line counts for in the measure: its weight if it waits, nothing
/// if it does not.
pub open spec fn entry_weight(e: StateView, target: Grid) -> nat {
    if e.open {
        weight(distance(e.cur, target))
    } else {
        0
    }
}

/// The measure of the first `n` lines: the sum of the weights of those that
/// wait.
pub open spec fn open_weight(known: Seq<StateView>, target: Grid, n: nat) -> nat
    decreases n,
{
    if n == 0 {
        0
    } else {
        open_weight(known, target, (n - 1) as nat) + entry_weight(known[n - 1], target)
    }
}

/// The weight is at least 1, and no smaller for a greater distance.
pub proof fn lemma_weight_grows(a: nat, b: nat)
    requires
        a <= b,
    ensures
        1 <= weight(a) <= weight(b),
    decreases b,
{
    if b == 0 {
    } else if a == b {
        lemma_weight_grows(0, (b - 1) as nat);
        let w = weight((b - 1) as nat);
        assert((b * b + 1) * w >= 1) by (nonlinear_arith)
            requires
                w >= 1,
        ;
    } else {
        lemma_weight_grows(a, (b - 1) as nat);
        let w = weight((b - 1) as nat);
        assert((b * b + 1) * w >= w) by (nonlinear_arith)
            requires
                w >= 1,
        ;
    }
}

/// The line that `best_open` names is one of the first `n` and waits; it
/// names none only if none of them waits.
pub proof fn lemma_best_open(known: Seq<StateView>, target: Grid, n: nat)
    requires
        n <= known.len(),
    ensures
        -1 <= best_open(known, target, n) < n,
        best_open(known, target, n) >= 0 ==> known[best_open(known, target, n)].open,
        best_open(known, target, n) < 0 ==> forall|i: int|
            0 <= i < n ==> !(#[trigger] known[i]).open,
    decreases n,
{
    if n > 0 {
        lemma_best_open(known, target, (n - 1) as nat);
    }
}

/// The line that `position_of` names is one of the first `n` and holds the
/// board; it names none only if none of them holds it.
pub proof fn lemma_position_of(known: Seq<StateView>, board: Grid, n: nat)
    requires
        n <= known.len(),
    ensures
        -1 <= position_of(known, board, n) < n,
        position_of(known, board, n) >= 0 ==> known[position_of(known, board, n)].cur == board,
        position_of(known, board, n) < 0 ==> forall|i: int|
            0 <= i < n ==> (#[trigger] known[i]).cur != board,
    decreases n,
{
    if n > 0 {
        lemma_position_of(known, board, (n - 1) as nat);
    }
}

/// Tables that agree in their first `n` lines have the same measure there.
proof fn lemma_open_weight_same(a: Seq<StateView>, b: Seq<StateView>, target: Grid, n: nat)
    requires
        n <= a.len(),
        n <= b.len(),
        forall|i: int| 0 <= i < n ==> a[i] == b[i],
    ensures
        open_weight(a, target, n) == open_weight(b, target, n),
    decreases n,
{
    if n > 0 {
        lemma_open_weight_same(a, b, target, (n - 1) as nat);
    }
}

/// A line replaced changes the measure by the difference of the two
/// lines' weights.
proof fn lemma_open_weight_update(
    known: Seq<StateView>,
    target: Grid,
    i: int,
    e: StateView,
    n: nat,
)
    requires
        0 <= i < known.len(),
        n <= known.len(),
    ensures
        open_weight(known.update(i, e), target, n) == open_weight(known, target, n) + (if i < n {
            entry_weight(e, target) - entry_weight(known[i], target)
        } else {
            0
        }),
    decreases n,
{
    if n > 0 {
        lemma_open_weight_update(known, target, i, e, (n - 1) as nat);
    }
}

/// A line added raises the measure by its weight.
proof fn lemma_open_weight_push(known: Seq<StateView>, target: Grid, e: StateView)
    ensures
        open_weight(known.push(e), target, known.len() + 1) == open_weight(
            known,
            target,
            known.len(),
        ) + entry_weight(e, target),
{
    lemma_open_weight_same(known.push(e), known, target, known.len());
}

/// The most that one swap tried on a board at distance `d` can add to the
/// measure.
pub open spec fn child_weight(d: nat) -> nat {
    if d == 0 {
        0
    } else {
        weight((d - 1) as nat)
    }
}

/// One tried swap raises the measure by no more than `child_weight`.
proof fn lemma_absorb_weight(known: Seq<StateView>, parent: StateView, w: Swap, target: Grid)
    ensures
        open_weight(
            absorb(known, parent, w, target),
            target,
            absorb(known, parent, w, target).len(),
        ) <= open_weight(known, target, known.len()) + child_weight(
            distance(parent.cur, target),
        ),
{
    let d = distance(parent.cur, target);
    let next = swapped(parent.cur, w);
    let child = StateView { cur: next, steps: parent.steps.push(w), open: true };
    let at = position_of(known, next, known.len());
    lemma_position_of(known, next, known.len());
    if distance(next, target) < d {
        lemma_weight_grows(distance(next, target), (d - 1) as nat);
        if at < 0 {
            lemma_open_weight_push(known, target, child);
        } else if known[at].steps.len() > child.steps.len() {
            lemma_open_weight_update(known, target, at, child, known.len());
        }
    }
}

/// The first `n` tried swaps raise the measure by no more than `n` times
/// `child_weight`.
proof fn lemma_absorb_all_weight(
    known: Seq<StateView>,
    parent: StateView,
    moves: Seq<Swap>,
    target: Grid,
    n: nat,
)
    requires
        n <= moves.len(),
    ensures
        open_weight(
            absorb_all(known, parent, moves, target, n),
            target,
            absorb_all(known, parent, moves, target, n).len(),
        ) <= open_weight(known, target, known.len()) + n * child_weight(
            distance(parent.cur, target),
        ),
    decreases n,
{
    let c = child_weight(distance(parent.cur, target));
    if n > 0 {
        let m = (n - 1) as nat;
        lemma_absorb_all_weight(known, parent, moves, target, m);
        lemma_absorb_weight(absorb_all(known, parent, moves, target, m), parent, moves[m as int], target);
        assert(n * c == m * c + c) by (nonlinear_arith)
            requires
                n == m + 1,
        ;
    } else {
        assert(n * c == 0) by (nonlinear_arith)
            requires
                n == 0,
        ;
    }
}

/// A visit that takes a line lowers the measure: this is why the search
/// ends.
pub proof fn lemma_visit_decreases(s: Search, target: Grid)
    requires
        shaped(s.known, target),
        rectangular(target),
        s.outcome is None,
        best_open(s.known, target, s.known.len()) >= 0,
    ensures
        open_weight(visit(s, target).known, target, visit(s, target).known.len()) < open_weight(
            s.known,
            target,
            s.known.len(),
        ),
{
    let i = best_open(s.known, target, s.known.len());
    lemma_best_open(s.known, target, s.known.len());
    let e = s.known[i];
    let d = distance(e.cur, target);
    let closed = s.known.update(i, StateView { open: false, ..e });
    lemma_open_weight_update(s.known, target, i, StateView { open: false, ..e }, s.known.len());
    lemma_weight_grows(0, d);
    if e.steps.len() <= MAX_STEPS && d != 0 {
        let moves = moves_of(e.cur, target);
        lemma_absorb_all_weight(closed, e, moves, target, moves.len());
        let c = child_weight(d);
        lemma_weight_grows(0, (d - 1) as nat);
        if d != 1 {
            lemma_candidate_swaps(e.cur, target);
        }
        assert(moves.len() * c < weight(d)) by (nonlinear_arith)
            requires
                moves.len() <= d * d,
                c >= 1,
                weight(d) == (d * d + 1) * c,
        ;
    }
}

} // verus!
