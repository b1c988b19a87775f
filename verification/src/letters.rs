//! What swaps do to the letters of a grid and to its distance from a
//! target: counting arguments that the search rests on.

use vstd::prelude::*;

use crate::board::{
    canonical_swap, coord_before, distance, in_grid, lemma_mismatches, letter_at, letters,
    letters_upto, mismatched, mismatches, rectangular, same_shape, swapped, Coord, Grid, Swap,
};
use crate::search_proofs::lemma_swapped_shape;
use vstd::seq_lib::seq_to_set_is_finite;
use vstd::set_lib::lemma_len_subset;

verus! {

/// The cells of `g` that differ from `t`.
pub open spec fn cells_off(g: Grid, t: Grid) -> Set<Coord> {
    Set::new(|c: Coord| mismatched(g, t, c))
}

/// The distance of two grids is the number of cells at which they differ.
pub proof fn lemma_distance_counts_cells(g: Grid, t: Grid)
    requires
        rectangular(g),
        rectangular(t),
        same_shape(g, t),
    ensures
        cells_off(g, t).finite(),
        distance(g, t) == cells_off(g, t).len(),
{
    let s = mismatches(g, t);
    lemma_mismatches(g, t);
    assert(s.no_duplicates()) by {
        assert forall|i: int, j: int| 0 <= i < s.len() && 0 <= j < s.len() && i != j implies s[i]
            != s[j] by {
            if i < j {
                assert(coord_before(s[i], s[j]));
            } else {
                assert(coord_before(s[j], s[i]));
            }
        }
    }
    s.unique_seq_to_set();
    seq_to_set_is_finite(s);
    assert(s.to_set() =~= cells_off(g, t)) by {
        assert forall|c: Coord| s.to_set().contains(c) == cells_off(g, t).contains(c) by {
            if s.contains(c) {
                let i = choose|i: int| 0 <= i < s.len() && s[i] == c;
                assert(mismatched(g, t, s[i]));
            }
            if mismatched(g, t, c) {
                assert(s.contains(c));
            }
        }
    }
}

/// The letter of each cell after a swap of two cells of the grid: each of
/// the two cells has the letter that the other had, every other cell its
/// own.
pub proof fn lemma_swapped_cells(g: Grid, w: Swap, c: Coord)
    requires
        rectangular(g),
        in_grid(g, w.a),
        in_grid(g, w.b),
        in_grid(g, c),
    ensures
        letter_at(swapped(g, w), c) == if c == w.b {
            letter_at(g, w.a)
        } else if c == w.a {
            letter_at(g, w.b)
        } else {
            letter_at(g, c)
        },
{
    assert(g[w.a.row as int].len() == g[0].len());
    assert(g[w.b.row as int].len() == g[0].len());
    assert(g[c.row as int].len() == g[0].len());
}

/// A swap that mends one differing cell with the letter of another
/// differing cell brings the grid nearer to the target.
pub proof fn lemma_swap_mends(g: Grid, t: Grid, w: Swap)
    requires
        rectangular(g),
        rectangular(t),
        same_shape(g, t),
        mismatched(g, t, w.a),
        mismatched(g, t, w.b),
        letter_at(g, w.b) == letter_at(t, w.a) || letter_at(g, w.a) == letter_at(t, w.b),
    ensures
        distance(swapped(g, w), t) < distance(g, t),
{
    let h = swapped(g, w);
    lemma_swapped_shape(g, w);
    lemma_distance_counts_cells(g, t);
    lemma_distance_counts_cells(h, t);
    let mended = if letter_at(g, w.b) == letter_at(t, w.a) {
        w.a
    } else {
        w.b
    };
    let before = cells_off(g, t);
    let after = cells_off(h, t);
    assert(after.subset_of(before.remove(mended))) by {
        assert forall|c: Coord| after.contains(c) implies before.remove(mended).contains(c) by {
            lemma_swapped_cells(g, w, c);
        }
    }
    lemma_len_subset(after, before.remove(mended));
}

/// A swap mends two cells at most: the grid is nearer to the target by no
/// more than 2 after it.
pub proof fn lemma_swap_mends_two(g: Grid, t: Grid, w: Swap)
    requires
        rectangular(g),
        rectangular(t),
        same_shape(g, t),
        in_grid(g, w.a),
        in_grid(g, w.b),
    ensures
        distance(g, t) <= distance(swapped(g, w), t) + 2,
{
    let h = swapped(g, w);
    lemma_swapped_shape(g, w);
    lemma_distance_counts_cells(g, t);
    lemma_distance_counts_cells(h, t);
    let before = cells_off(g, t);
    let after = cells_off(h, t);
    let both = after.insert(w.a).insert(w.b);
    assert(before.subset_of(both)) by {
        assert forall|c: Coord| before.contains(c) implies both.contains(c) by {
            lemma_swapped_cells(g, w, c);
        }
    }
    lemma_len_subset(before, both);
}

/// A swap that brings the grid nearer to the target by 2 exchanges two
/// different cells that both differ from the target, and gives each of them
/// the letter that it lacks.
pub proof fn lemma_two_mended(g: Grid, t: Grid, w: Swap)
    requires
        rectangular(g),
        rectangular(t),
        same_shape(g, t),
        in_grid(g, w.a),
        in_grid(g, w.b),
        distance(swapped(g, w), t) + 2 <= distance(g, t),
    ensures
        w.a != w.b,
        mismatched(g, t, w.a),
        mismatched(g, t, w.b),
        letter_at(g, w.a) == letter_at(t, w.b),
        letter_at(g, w.b) == letter_at(t, w.a),
        distance(swapped(g, w), t) + 2 == distance(g, t),
{
    let h = swapped(g, w);
    lemma_swapped_shape(g, w);
    lemma_swap_mends_two(g, t, w);
    lemma_distance_counts_cells(g, t);
    lemma_distance_counts_cells(h, t);
    let before = cells_off(g, t);
    let after = cells_off(h, t);
    lemma_swapped_cells(g, w, w.a);
    lemma_swapped_cells(g, w, w.b);
    if !(before.contains(w.a) && !after.contains(w.a)) {
        assert(before.subset_of(after.insert(w.b))) by {
            assert forall|c: Coord| before.contains(c) implies after.insert(w.b).contains(c) by {
                lemma_swapped_cells(g, w, c);
            }
        }
        lemma_len_subset(before, after.insert(w.b));
    }
    if !(before.contains(w.b) && !after.contains(w.b)) {
        assert(before.subset_of(after.insert(w.a))) by {
            assert forall|c: Coord| before.contains(c) implies after.insert(w.a).contains(c) by {
                lemma_swapped_cells(g, w, c);
            }
        }
        lemma_len_subset(before, after.insert(w.a));
    }
}

/// A swap of two different cells that gives each of them the letter that it
/// lacks brings the grid nearer to the target by 2.
pub proof fn lemma_both_mended(g: Grid, t: Grid, w: Swap)
    requires
        rectangular(g),
        rectangular(t),
        same_shape(g, t),
        w.a != w.b,
        mismatched(g, t, w.a),
        mismatched(g, t, w.b),
        letter_at(g, w.a) == letter_at(t, w.b),
        letter_at(g, w.b) == letter_at(t, w.a),
    ensures
        distance(swapped(g, w), t) + 2 == distance(g, t),
{
    let h = swapped(g, w);
    lemma_swapped_shape(g, w);
    lemma_distance_counts_cells(g, t);
    lemma_distance_counts_cells(h, t);
    let before = cells_off(g, t);
    let after = cells_off(h, t);
    assert(after =~= before.remove(w.a).remove(w.b)) by {
        assert forall|c: Coord| after.contains(c) == before.remove(w.a).remove(w.b).contains(
            c,
        ) by {
            if in_grid(g, c) {
                lemma_swapped_cells(g, w, c);
            }
        }
    }
}

/// A swap of two cells that both differ from the target brings the grid no
/// farther from it.
pub proof fn lemma_swap_of_wrong_cells(g: Grid, t: Grid, w: Swap)
    requires
        rectangular(g),
        rectangular(t),
        same_shape(g, t),
        mismatched(g, t, w.a),
        mismatched(g, t, w.b),
    ensures
        distance(swapped(g, w), t) <= distance(g, t),
{
    let h = swapped(g, w);
    lemma_swapped_shape(g, w);
    lemma_distance_counts_cells(g, t);
    lemma_distance_counts_cells(h, t);
    let before = cells_off(g, t);
    let after = cells_off(h, t);
    assert(after.subset_of(before)) by {
        assert forall|c: Coord| after.contains(c) implies before.contains(c) by {
            lemma_swapped_cells(g, w, c);
        }
    }
    lemma_len_subset(after, before);
}

/// A swap made twice leaves the grid as it was.
pub proof fn lemma_swapped_twice(g: Grid, w: Swap)
    requires
        rectangular(g),
        in_grid(g, w.a),
        in_grid(g, w.b),
    ensures
        swapped(swapped(g, w), w) == g,
{
    let h = swapped(g, w);
    let back = swapped(h, w);
    lemma_swapped_shape(g, w);
    lemma_swapped_shape(h, w);
    assert(back =~= g) by {
        assert forall|r: int| 0 <= r < g.len() implies back[r] =~= g[r] by {
            assert(g[r].len() == g[0].len());
            assert(back[r].len() == back[0].len());
            assert forall|k: int| 0 <= k < g[r].len() implies back[r][k] == g[r][k] by {
                let c = Coord { row: r as usize, col: k as usize };
                lemma_swapped_cells(h, w, c);
                lemma_swapped_cells(g, w, c);
                lemma_swapped_cells(g, w, w.a);
                lemma_swapped_cells(g, w, w.b);
            }
        }
    }
}

/// In two rows of one length, of which the second has `x` wherever the
/// first has it, the first has `x` no more often than the second, and less
/// often if the second has it at position `k` and the first has not.
pub proof fn lemma_row_count(r1: Seq<char>, r2: Seq<char>, x: char, k: int)
    requires
        r1.len() == r2.len(),
        forall|i: int| 0 <= i < r1.len() && r1[i] == x ==> r2[i] == x,
    ensures
        r1.to_multiset().count(x) + (if 0 <= k < r1.len() && r2[k] == x && r1[k] != x {
            1nat
        } else {
            0nat
        }) <= r2.to_multiset().count(x),
    decreases r1.len(),
{
    broadcast use vstd::seq_lib::group_to_multiset_ensures;

    if r1.len() == 0 {
        assert(r1 =~= r2);
    } else {
        let front1 = r1.drop_last();
        let front2 = r2.drop_last();
        lemma_row_count(front1, front2, x, k);
        assert(r1 =~= front1.push(r1.last()));
        assert(r2 =~= front2.push(r2.last()));
        assert(r1.to_multiset() == front1.to_multiset().insert(r1.last()));
        assert(r2.to_multiset() == front2.to_multiset().insert(r2.last()));
    }
}

/// In two grids of one shape, of which the second has `x` wherever the first
/// has it, the first has `x` no more often than the second in its first `n`
/// rows, and less often if the second has it at the cell `a` of those rows
/// and the first has not.
pub proof fn lemma_letters_count(g: Grid, t: Grid, x: char, n: nat, a: Coord)
    requires
        rectangular(g),
        rectangular(t),
        same_shape(g, t),
        n <= g.len(),
        forall|c: Coord|
            in_grid(g, c) && #[trigger] letter_at(g, c) == x ==> letter_at(t, c) == x,
    ensures
        letters_upto(g, n).count(x) + (if a.row < n && in_grid(g, a) && letter_at(t, a) == x
            && letter_at(g, a) != x {
            1nat
        } else {
            0nat
        }) <= letters_upto(t, n).count(x),
    decreases n,
{
    if n > 0 {
        let m = (n - 1) as nat;
        lemma_letters_count(g, t, x, m, a);
        let r1 = g[m as int];
        let r2 = t[m as int];
        assert(r1.len() == g[0].len() && r2.len() == t[0].len());
        assert forall|i: int| 0 <= i < r1.len() && r1[i] == x implies r2[i] == x by {
            let c = Coord { row: m as usize, col: i as usize };
            assert(letter_at(g, c) == x);
        }
        lemma_row_count(r1, r2, x, if a.row == m { a.col as int } else { -1 });
    }
}

/// Where two grids hold the same letters equally often, the letter that a
/// differing cell `a` lacks stands in another differing cell: the lemma
/// hands back such a cell.
pub proof fn lemma_wanted_letter_waits(g: Grid, t: Grid, a: Coord) -> (b: Coord)
    requires
        rectangular(g),
        rectangular(t),
        same_shape(g, t),
        letters(g) == letters(t),
        mismatched(g, t, a),
    ensures
        mismatched(g, t, b),
        b != a,
        letter_at(g, b) == letter_at(t, a),
{
    let x = letter_at(t, a);
    if forall|c: Coord| in_grid(g, c) && #[trigger] letter_at(g, c) == x ==> letter_at(t, c) == x {
        lemma_letters_count(g, t, x, g.len(), a);
        assert(false);
    }
    choose|c: Coord| in_grid(g, c) && #[trigger] letter_at(g, c) == x && letter_at(t, c) != x
}

/// Two grids that hold the same letters equally often do not differ in
/// exactly one cell.
pub proof fn lemma_never_one_off(g: Grid, t: Grid)
    requires
        rectangular(g),
        rectangular(t),
        same_shape(g, t),
        letters(g) == letters(t),
    ensures
        distance(g, t) != 1,
{
    if distance(g, t) == 1 {
        lemma_mismatches(g, t);
        lemma_distance_counts_cells(g, t);
        let a = mismatches(g, t)[0];
        let b = lemma_wanted_letter_waits(g, t, a);
        let off = cells_off(g, t);
        assert(off.contains(a) && off.contains(b));
        assert(off.remove(a).contains(b));
        assert(off.remove(a).len() == 0);
        assert(off.remove(a) =~= Set::<Coord>::empty());
    }
}

/// The two ways of naming the cells of a swap give one grid.
pub proof fn lemma_swapped_either_way(g: Grid, a: Coord, b: Coord)
    requires
        rectangular(g),
        in_grid(g, a),
        in_grid(g, b),
    ensures
        swapped(g, Swap { a, b }) == swapped(g, Swap { a: b, b: a }),
        swapped(g, canonical_swap(a, b)) == swapped(g, Swap { a, b }),
{
    let h1 = swapped(g, Swap { a, b });
    let h2 = swapped(g, Swap { a: b, b: a });
    assert(g[a.row as int].len() == g[0].len());
    assert(g[b.row as int].len() == g[0].len());
    assert(h1 =~= h2) by {
        assert forall|r: int| 0 <= r < h1.len() implies h1[r] =~= h2[r] by {
            assert(g[r].len() == g[0].len());
        }
    }
}

} // verus!
