//! The swaps worth trying on a board: the pairs of cells that both differ
//! from the target.

use vstd::prelude::*;

use crate::board::{
    canonical_swap, coord_before, distance, lemma_mismatches, mismatched, mismatches, rectangular,
    same_shape, swap_before, BoardError, Coord, Grid, Swap, WaffleBoard,
};
use itertools::Itertools;

verus! {

/// The pairs that `s[i]` forms with each later item of `s`, in the order of
/// those items.
pub open spec fn pairs_with(s: Seq<Coord>, i: int) -> Seq<Seq<Coord>> {
    Seq::new((s.len() - i - 1) as nat, |k: int| seq![s[i], s[i + 1 + k]])
}

/// The pairs of two items of `s` whose first item stands at position `i` or
/// later: those of position `i` first, then those of the positions after it.
pub open spec fn pairs_from(s: Seq<Coord>, i: nat) -> Seq<Seq<Coord>>
    decreases s.len() - i,
{
    if i + 1 >= s.len() {
        Seq::empty()
    } else {
        pairs_with(s, i as int) + pairs_from(s, i + 1)
    }
}

/// All the ways to pick two items of `s` at ascending positions, ordered by
/// the position of the first item, then by that of the second.
pub open spec fn two_combinations(s: Seq<Coord>) -> Seq<Seq<Coord>> {
    pairs_from(s, 0)
}

/// The swaps that the search tries on `board`: one for every two cells that
/// differ from `target`, in ascending order.
pub open spec fn candidate_swaps(board: Grid, target: Grid) -> Seq<Swap> {
    two_combinations(mismatches(board, target)).map_values(
        |p: Seq<Coord>| canonical_swap(p[0], p[1]),
    )
}

/// The positions in a sequence of `n` items of the two items of the `k`-th
/// pair among those whose first item stands at position `i` or later.
pub open spec fn pair_positions(n: nat, i: nat, k: int) -> (int, int)
    decreases n - i,
{
    if i + 1 >= n {
        (0, 0)
    } else if k < n - i - 1 {
        (i as int, i + 1 + k)
    } else {
        pair_positions(n, i + 1, k - (n - i - 1))
    }
}

/// The `k`-th pair holds the items at its two positions, the first of which
/// is `i` or later and before the second.
pub proof fn lemma_pair_positions(s: Seq<Coord>, i: nat, k: int)
    requires
        0 <= k < pairs_from(s, i).len(),
    ensures
        i <= pair_positions(s.len(), i, k).0 < pair_positions(s.len(), i, k).1 < s.len(),
        pairs_from(s, i)[k] == seq![
            s[pair_positions(s.len(), i, k).0],
            s[pair_positions(s.len(), i, k).1],
        ],
    decreases s.len() - i,
{
    if i + 1 < s.len() {
        let head = pairs_with(s, i as int);
        if k >= head.len() {
            lemma_pair_positions(s, i + 1, k - head.len());
        }
    }
}

/// A later pair has a later first position, or the same first position and a
/// later second one.
pub proof fn lemma_pair_positions_ascend(s: Seq<Coord>, i: nat, k: int, l: int)
    requires
        0 <= k < l < pairs_from(s, i).len(),
    ensures
        ({
            let (p, q) = pair_positions(s.len(), i, k);
            let (t, u) = pair_positions(s.len(), i, l);
            p < t || (p == t && q < u)
        }),
    decreases s.len() - i,
{
    if i + 1 < s.len() {
        let head = pairs_with(s, i as int);
        if k >= head.len() {
            lemma_pair_positions_ascend(s, i + 1, k - head.len(), l - head.len());
        } else if l >= head.len() {
            lemma_pair_positions(s, i + 1, l - head.len());
        }
    }
}

/// Every two positions from `i` on, in ascending order, are those of one of
/// the pairs: the lemma hands back which.
pub proof fn lemma_pair_found(s: Seq<Coord>, i: nat, p: int, q: int) -> (k: int)
    requires
        i <= p < q < s.len(),
    ensures
        0 <= k < pairs_from(s, i).len(),
        pair_positions(s.len(), i, k) == (p, q),
    decreases s.len() - i,
{
    let head = pairs_with(s, i as int);
    if p == i {
        q - i - 1
    } else {
        head.len() + lemma_pair_found(s, i + 1, p, q)
    }
}

/// There are at most as many pairs as the square of the number of items.
pub proof fn lemma_pairs_count(s: Seq<Coord>, i: nat)
    requires
        i <= s.len(),
    ensures
        pairs_from(s, i).len() <= (s.len() - i) * (s.len() - i),
    decreases s.len() - i,
{
    let n = s.len() - i;
    if i + 1 < s.len() {
        lemma_pairs_count(s, i + 1);
        let head = pairs_with(s, i as int);
        let tail = pairs_from(s, i + 1);
        assert(head.len() + tail.len() <= n * n) by (nonlinear_arith)
            requires
                head.len() == n - 1,
                tail.len() <= (n - 1) * (n - 1),
                n >= 2,
        ;
    } else {
        assert(n * n >= 0) by (nonlinear_arith);
    }
}

/// What the search tries on a board: every candidate exchanges two different
/// cells that both differ from the target, earlier cell first; every two such
/// cells are exchanged by one candidate; and the candidates stand in strictly
/// ascending order, so none occurs twice.
pub proof fn lemma_candidate_swaps(board: Grid, target: Grid)
    requires
        rectangular(board),
        rectangular(target),
        same_shape(board, target),
    ensures
        candidate_swaps(board, target).len() <= distance(board, target) * distance(board, target),
        forall|k: int|
            0 <= k < candidate_swaps(board, target).len() ==> {
                let w = #[trigger] candidate_swaps(board, target)[k];
                &&& mismatched(board, target, w.a)
                &&& mismatched(board, target, w.b)
                &&& coord_before(w.a, w.b)
            },
        forall|k: int, l: int|
            0 <= k < l < candidate_swaps(board, target).len() ==> swap_before(
                #[trigger] candidate_swaps(board, target)[k],
                #[trigger] candidate_swaps(board, target)[l],
            ),
        forall|a: Coord, b: Coord|
            #![trigger mismatched(board, target, a), mismatched(board, target, b)]
            mismatched(board, target, a) && mismatched(board, target, b) && a != b
                ==> candidate_swaps(board, target).contains(canonical_swap(a, b)),
{
    let cells = mismatches(board, target);
    let pairs = two_combinations(cells);
    let swaps = candidate_swaps(board, target);
    lemma_mismatches(board, target);
    lemma_pairs_count(cells, 0);
    assert forall|k: int| 0 <= k < swaps.len() implies {
        let w = #[trigger] swaps[k];
        &&& mismatched(board, target, w.a)
        &&& mismatched(board, target, w.b)
        &&& coord_before(w.a, w.b)
    } by {
        lemma_pair_positions(cells, 0, k);
        let (p, q) = pair_positions(cells.len(), 0, k);
        assert(coord_before(cells[p], cells[q]));
    }
    assert forall|k: int, l: int| 0 <= k < l < swaps.len() implies swap_before(
        #[trigger] swaps[k],
        #[trigger] swaps[l],
    ) by {
        lemma_pair_positions(cells, 0, k);
        lemma_pair_positions(cells, 0, l);
        lemma_pair_positions_ascend(cells, 0, k, l);
        let (p, q) = pair_positions(cells.len(), 0, k);
        let (t, u) = pair_positions(cells.len(), 0, l);
        assert(coord_before(cells[p], cells[q]));
        assert(coord_before(cells[t], cells[u]));
        if p < t {
            assert(coord_before(cells[p], cells[t]));
        } else {
            assert(coord_before(cells[q], cells[u]));
        }
    }
    assert forall|a: Coord, b: Coord|
        #![trigger mismatched(board, target, a), mismatched(board, target, b)]
        mismatched(board, target, a) && mismatched(board, target, b) && a != b
        implies swaps.contains(canonical_swap(a, b)) by {
        assert(cells.contains(a) && cells.contains(b));
        let i = choose|i: int| 0 <= i < cells.len() && cells[i] == a;
        let j = choose|j: int| 0 <= j < cells.len() && cells[j] == b;
        let (p, q) = if i < j {
            (i, j)
        } else {
            (j, i)
        };
        assert(coord_before(cells[p], cells[q]));
        let k = lemma_pair_found(cells, 0, p, q);
        lemma_pair_positions(cells, 0, k);
        assert(swaps[k] == canonical_swap(a, b));
    }
}

/// `Itertools::combinations` with `k` = 2 on the coordinates of `coords`,
/// collected: each selection of two items at ascending positions, as a vector
/// of those two items, the selections in lexicographic order of their
/// positions.
#[verifier::external_body]
fn combinations_of_two(coords: Vec<Coord>) -> (pairs: Vec<Vec<Coord>>)
    ensures
        pairs@.len() == two_combinations(coords@).len(),
        forall|k: int|
            0 <= k < pairs@.len() ==> (#[trigger] pairs@[k])@ == two_combinations(coords@)[k],
{
    coords.into_iter().combinations(2).collect()
}

/// The swaps worth trying on `board` on the way to `into`: every two cells
/// that differ from `into`, each pair once, in ascending order. Boards of
/// different shapes are refused as `DimensionMismatch`; a board with exactly
/// one differing cell is reported as `SingleMismatch`, since no exchange of
/// letters leads from it to `into`.
pub fn get_swaps(board: &WaffleBoard, into: &WaffleBoard) -> (r: Result<Vec<Swap>, BoardError>)
    requires
        board.wf(),
        into.wf(),
    ensures
        !same_shape(board@, into@) ==> r is Err && r->Err_0 == BoardError::DimensionMismatch,
        same_shape(board@, into@) && distance(board@, into@) == 1 ==> r is Err && r->Err_0
            == BoardError::SingleMismatch,
        same_shape(board@, into@) && distance(board@, into@) != 1 ==> r is Ok && r->Ok_0@
            == candidate_swaps(board@, into@),
        r is Ok ==> forall|k: int, l: int|
            0 <= k < l < r->Ok_0@.len() ==> swap_before(
                #[trigger] r->Ok_0@[k],
                #[trigger] r->Ok_0@[l],
            ),
        r is Ok ==> forall|a: Coord, b: Coord|
            #![trigger mismatched(board@, into@, a), mismatched(board@, into@, b)]
            mismatched(board@, into@, a) && mismatched(board@, into@, b) && a != b
                ==> r->Ok_0@.contains(canonical_swap(a, b)),
        r is Ok ==> forall|k: int|
            0 <= k < r->Ok_0@.len() ==> mismatched(board@, into@, (#[trigger] r->Ok_0@[k]).a)
                && mismatched(board@, into@, r->Ok_0@[k].b),
{
    let differences = match board.diff(into) {
        Ok(cells) => cells,
        Err(e) => {
            return Err(e);
        },
    };
    if differences.len() == 1 {
        return Err(BoardError::SingleMismatch);
    }
    let ghost wanted = candidate_swaps(board@, into@);
    let pairs = combinations_of_two(differences);
    proof {
        let cells = mismatches(board@, into@);
        assert forall|l: int| 0 <= l < pairs@.len() implies (#[trigger] two_combinations(
            cells,
        )[l]).len() == 2 by {
            lemma_pair_positions(cells, 0, l);
        }
    }
    let mut swaps: Vec<Swap> = Vec::new();
    let mut k: usize = 0;
    while k < pairs.len()
        invariant
            k <= pairs.len(),
            pairs@.len() == wanted.len(),
            wanted == candidate_swaps(board@, into@),
            forall|l: int|
                0 <= l < pairs@.len() ==> (#[trigger] pairs@[l])@ == two_combinations(
                    mismatches(board@, into@),
                )[l],
            forall|l: int|
                0 <= l < pairs@.len() ==> (#[trigger] two_combinations(
                    mismatches(board@, into@),
                )[l]).len() == 2,
            swaps@ == wanted.take(k as int),
        decreases pairs.len() - k,
    {
        let pair = &pairs[k];
        assert(pair@ == two_combinations(mismatches(board@, into@))[k as int]);
        swaps.push(Swap::new(pair[0], pair[1]));
        assert(swaps@ =~= wanted.take(k + 1));
        k += 1;
    }
    proof {
        assert(swaps@ =~= wanted);
        lemma_candidate_swaps(board@, into@);
    }
    Ok(swaps)
}

} // verus!
