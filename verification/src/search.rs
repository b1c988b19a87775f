//! The search for the swaps that turn one board into another.

use vstd::prelude::*;

use crate::board::{
    distance, letters, mismatched, same_shape, swapped, BoardError, Grid, Swap, WaffleBoard,
};
use crate::moves::get_swaps;
use crate::search_descent::lemma_shortest_when_near;
use crate::search_ends::lemma_search_finds;
use crate::search_proofs::{
    descends, lemma_result_leads, lemma_result_unique, lemma_search_identity, lemma_swapped_shape,
    lemma_unplayable, lemma_unsolvable, playable, replay,
};
use crate::search_spec::{
    absorb, absorb_all, best_open, initial, lemma_best_open, lemma_position_of,
    lemma_visit_decreases, moves_of, open_weight, position_of, run, search_result, shaped,
    state_before, visit, MAX_STEPS, Search, StateView,
};

verus! {

/// One line of the search table: a board, the swaps that lead to it from the
/// start, its distance from the target, and whether it still waits to be
/// expanded.
pub struct State {
    cur: WaffleBoard,
    steps: Vec<Swap>,
    score: usize,
    open: bool,
}

impl View for State {
    type V = StateView;

    /// The line of the table that the state stands for.
    closed spec fn view(&self) -> StateView {
        StateView { cur: self.cur@, steps: self.steps@, open: self.open }
    }
}

/// The table that a vector of states stands for.
pub open spec fn table(known: Seq<State>) -> Seq<StateView> {
    Seq::new(known.len(), |i: int| known[i]@)
}

/// What a search returned, as a value of the model.
pub open spec fn path_view(r: Option<Vec<Swap>>) -> Option<Seq<Swap>> {
    match r {
        Some(path) => Some(path@),
        None => None,
    }
}

/// A copy of a run of swaps.
fn copy_steps(steps: &Vec<Swap>) -> (copy: Vec<Swap>)
    ensures
        copy@ == steps@,
{
    let mut copy: Vec<Swap> = Vec::new();
    let mut i: usize = 0;
    while i < steps.len()
        invariant
            i <= steps.len(),
            copy@ == steps@.take(i as int),
        decreases steps.len() - i,
    {
        copy.push(steps[i]);
        i += 1;
    }
    copy
}

impl State {
    /// The invariant of a state in a search for `target`: its board is well
    /// formed and of the target's shape, and its score is the board's
    /// distance from the target.
    pub closed spec fn rated(&self, target: Grid) -> bool {
        &&& self.cur.wf()
        &&& same_shape(self.cur@, target)
        &&& self.score == distance(self.cur@, target)
    }

    /// A waiting state for the board `cur`, reached by `steps`, in a search
    /// for `dest`.
    pub fn new(cur: WaffleBoard, dest: &WaffleBoard, steps: Vec<Swap>) -> (s: State)
        requires
            cur.wf(),
            dest.wf(),
            same_shape(cur@, dest@),
        ensures
            s@ == (StateView { cur: cur@, steps: steps@, open: true }),
            s.rated(dest@),
    {
        let score = match cur.score(dest) {
            Ok(d) => d,
            Err(_) => 0,
        };
        State { cur, steps, score, open: true }
    }

    /// Whether this state is expanded before `other`: when it is nearer to
    /// the target; at equal distance, when it was reached by fewer swaps;
    /// at equal distance and length, when its last swap is the smaller.
    pub fn before(&self, other: &State) -> (r: bool)
        ensures
            forall|target: Grid|
                self.rated(target) && other.rated(target) ==> r == state_before(
                    self@,
                    other@,
                    target,
                ),
    {
        if self.score != other.score {
            self.score < other.score
        } else if self.steps.len() != other.steps.len() {
            self.steps.len() < other.steps.len()
        } else if self.steps.len() == 0 {
            false
        } else {
            let mine = &self.steps[self.steps.len() - 1];
            let theirs = &other.steps[other.steps.len() - 1];
            mine.before(theirs)
        }
    }
}

/// The state that the search expands next, if any waits.
fn pick(known: &Vec<State>, Ghost(target): Ghost<Grid>) -> (r: Option<usize>)
    requires
        forall|i: int| 0 <= i < known@.len() ==> (#[trigger] known@[i]).rated(target),
    ensures
        match r {
            Some(i) => i == best_open(table(known@), target, known@.len()),
            None => best_open(table(known@), target, known@.len()) < 0,
        },
{
    let mut best: Option<usize> = None;
    let mut i: usize = 0;
    while i < known.len()
        invariant
            i <= known.len(),
            forall|i: int| 0 <= i < known@.len() ==> (#[trigger] known@[i]).rated(target),
            match best {
                Some(b) => b == best_open(table(known@), target, i as nat),
                None => best_open(table(known@), target, i as nat) < 0,
            },
        decreases known.len() - i,
    {
        proof {
            lemma_best_open(table(known@), target, i as nat);
        }
        if known[i].open {
            match best {
                None => {
                    best = Some(i);
                },
                Some(b) => {
                    if known[i].before(&known[b]) {
                        best = Some(i);
                    }
                },
            }
        }
        i += 1;
    }
    best
}

/// The first state that holds `board`, if any does.
fn locate(known: &Vec<State>, board: &WaffleBoard) -> (r: Option<usize>)
    ensures
        match r {
            Some(i) => i == position_of(table(known@), board@, known@.len()),
            None => position_of(table(known@), board@, known@.len()) < 0,
        },
{
    let mut i: usize = 0;
    while i < known.len()
        invariant
            i <= known.len(),
            position_of(table(known@), board@, i as nat) < 0,
        decreases known.len() - i,
    {
        if known[i].cur.same_as(board) {
            proof {
                lemma_position_settles(table(known@), board@, i as nat, known@.len());
            }
            return Some(i);
        }
        i += 1;
    }
    None
}

/// Once a board has been found at line `i`, and not before it, looking
/// further finds it there still.
proof fn lemma_position_settles(known: Seq<StateView>, board: Grid, i: nat, n: nat)
    requires
        i < n <= known.len(),
        position_of(known, board, i) < 0,
        known[i as int].cur == board,
    ensures
        position_of(known, board, n) == i,
    decreases n,
{
    if n > i + 1 {
        lemma_position_settles(known, board, i, (n - 1) as nat);
    }
}

/// The swaps that lead from `from` to `into`, as the search finds them, or
/// `None` when it finds none.
///
/// The search keeps a table of the boards it has met, each with the fewest
/// swaps known to lead to it. It expands the waiting board that is nearest
/// to `into` (see `state_before` for ties), trying on it every swap of two
/// cells that differ from `into`, and takes up the boards that are nearer to
/// `into` than the one expanded. A board reached by more than `MAX_STEPS`
/// swaps is not expanded. The search ends when the board it is about to
/// expand is `into`, or when no board waits: `search_result` says so
/// exactly.
///
/// The swaps returned, made in order, turn `from` into `into`, and each
/// leaves fewer differing cells than there were. Boards that hold different
/// letters have no answer; boards that hold the same letters and differ in
/// no more than `MAX_STEPS + 1` cells have one. For boards that differ in no
/// more than 5 cells no run of swaps is shorter than the one returned
/// (`lemma_shortest_when_near`); beyond that a shorter run can exist, though
/// none with half as many swaps or fewer (`lemma_path_lengths`).
pub fn find_swaps(from: &WaffleBoard, into: &WaffleBoard) -> (result: Option<Vec<Swap>>)
    requires
        from.wf(),
        into.wf(),
        same_shape(from@, into@),
    ensures
        search_result(from@, into@, path_view(result)),
        result matches Some(path) ==> {
            &&& replay(from@, path@) == into@
            &&& descends(from@, path@, into@)
            &&& path@.len() <= MAX_STEPS
        },
        from@ == into@ ==> (result matches Some(path) && path@.len() == 0),
        letters(from@) != letters(into@) ==> result is None,
        letters(from@) == letters(into@) && distance(from@, into@) <= MAX_STEPS + 1
            ==> result is Some,
        result is Some && distance(from@, into@) <= 5 ==> forall|other: Seq<Swap>|
            #![trigger playable(from@, other)]
            playable(from@, other) && replay(from@, other) == into@ ==> result->0@.len()
                <= other.len(),
{
    let result = explore(from, into);
    proof {
        let r = path_view(result);
        if r is Some {
            lemma_result_leads(from@, into@, r->0);
            if distance(from@, into@) <= 5 {
                assert forall|other: Seq<Swap>|
                    #![trigger playable(from@, other)]
                    playable(from@, other) && replay(from@, other) == into@ implies r->0.len()
                    <= other.len() by {
                    lemma_shortest_when_near(from@, into@, r->0, other);
                }
            }
        }
        if from@ == into@ {
            lemma_search_identity(from@);
            lemma_result_unique(from@, into@, r, Some(Seq::<Swap>::empty()));
        }
        if letters(from@) != letters(into@) {
            lemma_unsolvable(from@, into@, r);
        } else if distance(from@, into@) <= MAX_STEPS + 1 {
            lemma_search_finds(from@, into@, r);
        }
    }
    result
}

/// Runs the search, visit by visit, until it ends.
fn explore(from: &WaffleBoard, into: &WaffleBoard) -> (result: Option<Vec<Swap>>)
    requires
        from.wf(),
        into.wf(),
        same_shape(from@, into@),
    ensures
        search_result(from@, into@, path_view(result)),
{
    let mut known: Vec<State> = Vec::new();
    known.push(State::new(from.clone(), into, Vec::new()));
    let ghost mut visits: nat = 0;
    assert(table(known@) =~= initial(from@).known);
    loop
        invariant
            from.wf(),
            into.wf(),
            same_shape(from@, into@),
            forall|i: int| 0 <= i < known@.len() ==> (#[trigger] known@[i]).rated(into@),
            run(from@, into@, visits) == (Search { known: table(known@), outcome: None }),
        decreases open_weight(table(known@), into@, known@.len()),
    {
        let ghost before = Search { known: table(known@), outcome: None };
        proof {
            assert(shaped(before.known, into@));
            assert(run(from@, into@, visits + 1) == visit(before, into@));
            lemma_best_open(before.known, into@, before.known.len());
        }
        let i = match pick(&known, Ghost(into@)) {
            Some(i) => i,
            None => {
                assert(run(from@, into@, visits + 1).outcome == Some(None::<Seq<Swap>>));
                return None;
            },
        };
        proof {
            lemma_visit_decreases(before, into@);
        }
        let ghost parent = before.known[i as int];
        known[i].open = false;
        let ghost closed = before.known.update(i as int, StateView { open: false, ..parent });
        assert(table(known@) =~= closed);
        if known[i].steps.len() > MAX_STEPS {
            proof {
                visits = visits + 1;
            }
            continue;
        }
        if known[i].score == 0 {
            let path = copy_steps(&known[i].steps);
            assert(run(from@, into@, visits + 1).outcome == Some(Some(path@)));
            return Some(path);
        }
        let cur = known[i].cur.clone();
        let steps = copy_steps(&known[i].steps);
        let score = known[i].score;
        let moves = match get_swaps(&cur, into) {
            Ok(moves) => moves,
            Err(_) => Vec::new(),
        };
        assert(moves@ == moves_of(cur@, into@));
        let mut k: usize = 0;
        while k < moves.len()
            invariant
                k <= moves.len(),
                into.wf(),
                cur.wf(),
                same_shape(cur@, into@),
                cur@ == parent.cur,
                steps@ == parent.steps,
                steps@.len() <= MAX_STEPS,
                score == distance(cur@, into@),
                forall|l: int|
                    0 <= l < moves@.len() ==> mismatched(cur@, into@, (#[trigger] moves@[l]).a)
                        && mismatched(cur@, into@, moves@[l].b),
                forall|i: int| 0 <= i < known@.len() ==> (#[trigger] known@[i]).rated(into@),
                table(known@) == absorb_all(closed, parent, moves@, into@, k as nat),
            decreases moves.len() - k,
        {
            let w = moves[k];
            let ghost earlier = table(known@);
            proof {
                lemma_position_of(earlier, swapped(cur@, w), earlier.len());
            }
            match cur.swap(w) {
                Ok(next) => {
                    let d = match next.score(into) {
                        Ok(d) => d,
                        Err(_) => score,
                    };
                    if d < score {
                        let mut path = copy_steps(&steps);
                        path.push(w);
                        match locate(&known, &next) {
                            None => {
                                known.push(State { cur: next, steps: path, score: d, open: true });
                            },
                            Some(at) => {
                                if known[at].steps.len() > path.len() {
                                    known.set(
                                        at,
                                        State { cur: next, steps: path, score: d, open: true },
                                    );
                                }
                            },
                        }
                    }
                },
                Err(_) => {},
            }
            assert(table(known@) =~= absorb(earlier, parent, w, into@));
            k += 1;
        }
        proof {
            visits = visits + 1;
        }
    }
}

/// The boards that `steps` lead through from `cur`: `cur` itself, then the
/// board after each swap. A swap that names a cell outside the grid has the
/// whole run refused as `OutOfBounds`.
pub fn transformation(cur: &WaffleBoard, steps: &[Swap]) -> (r: Result<
    Vec<WaffleBoard>,
    BoardError,
>)
    requires
        cur.wf(),
    ensures
        playable(cur@, steps@) ==> r is Ok && r->Ok_0@.len() == steps@.len() + 1 && forall|
            i: int,
        |
            0 <= i <= steps@.len() ==> (#[trigger] r->Ok_0@[i])@ == replay(cur@, steps@.take(i))
                && r->Ok_0@[i].wf(),
        !playable(cur@, steps@) ==> r is Err && r->Err_0 == BoardError::OutOfBounds,
{
    let mut boards: Vec<WaffleBoard> = Vec::new();
    boards.push(cur.clone());
    assert(steps@.take(0) =~= Seq::<Swap>::empty());
    let mut k: usize = 0;
    while k < steps.len()
        invariant
            k <= steps.len(),
            cur.wf(),
            boards@.len() == k + 1,
            playable(cur@, steps@.take(k as int)),
            forall|i: int|
                0 <= i <= k ==> (#[trigger] boards@[i])@ == replay(cur@, steps@.take(i))
                    && boards@[i].wf() && same_shape(boards@[i]@, cur@),
        decreases steps.len() - k,
    {
        let ghost sofar = steps@.take(k as int);
        let ghost longer = steps@.take(k + 1);
        assert(longer.drop_last() =~= sofar);
        assert(longer.last() == steps@[k as int]);
        match boards[k].swap(steps[k]) {
            Ok(next) => {
                proof {
                    lemma_swapped_shape(boards@[k as int]@, steps@[k as int]);
                }
                boards.push(next);
            },
            Err(_) => {
                proof {
                    assert(!playable(cur@, longer));
                    lemma_unplayable(cur@, steps@, (k + 1) as nat);
                }
                return Err(BoardError::OutOfBounds);
            },
        }
        k += 1;
    }
    assert(steps@.take(steps@.len() as int) =~= steps@);
    Ok(boards)
}

} // verus!
