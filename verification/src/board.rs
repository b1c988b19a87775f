//! Grids of letters, the coordinates of their cells, and swaps of two cells.

use vstd::prelude::*;

use crate::text::{join_lines, joined, lines_of, split_lines, string_of, texts_of};
use vstd::multiset::Multiset;

verus! {

/// The position of one cell: its row, then its column.
#[derive(Debug, Clone, Copy, PartialEq, Eq, Structural, PartialOrd, Ord, Hash)]
pub struct Coord {
    pub row: usize,
    pub col: usize,
}

/// Row-major order on coordinates: by row, then by column.
pub open spec fn coord_before(a: Coord, b: Coord) -> bool {
    a.row < b.row || (a.row == b.row && a.col < b.col)
}

impl Coord {
    /// Whether `self` comes strictly before `other` in row-major order.
    pub fn before(&self, other: &Coord) -> (r: bool)
        ensures
            r == coord_before(*self, *other),
    {
        self.row < other.row || (self.row == other.row && self.col < other.col)
    }
}

/// An exchange of the letters of two cells. `Swap::new` stores the pair with
/// the earlier coordinate first, so that both orders of naming the two cells
/// give the same value.
#[derive(Debug, Clone, Copy, PartialEq, Eq, Structural, PartialOrd, Ord, Hash)]
pub struct Swap {
    pub a: Coord,
    pub b: Coord,
}

/// The swap of `a` and `b` in canonical form: earlier coordinate first.
pub open spec fn canonical_swap(a: Coord, b: Coord) -> Swap {
    if coord_before(b, a) {
        Swap { a: b, b: a }
    } else {
        Swap { a, b }
    }
}

/// Order on swaps: by the first coordinate, then by the second.
pub open spec fn swap_before(v: Swap, w: Swap) -> bool {
    coord_before(v.a, w.a) || (v.a == w.a && coord_before(v.b, w.b))
}

impl Swap {
    /// The swap of the cells `a` and `b`, whichever is named first.
    pub fn new(a: Coord, b: Coord) -> (w: Swap)
        ensures
            w == canonical_swap(a, b),
            !coord_before(w.b, w.a),
    {
        if b.before(&a) {
            Swap { a: b, b: a }
        } else {
            Swap { a, b }
        }
    }

    /// Whether `self` comes strictly before `other` in the order on swaps.
    pub fn before(&self, other: &Swap) -> (r: bool)
        ensures
            r == swap_before(*self, *other),
    {
        self.a.before(&other.a) || (self.a == other.a && self.b.before(&other.b))
    }
}

/// Naming the two cells in either order gives the same swap.
pub proof fn swap_is_unordered(a: Coord, b: Coord)
    ensures
        canonical_swap(a, b) == canonical_swap(b, a),
{
}

/// What can be wrong with a grid, or with a request made of one.
#[derive(Debug, Clone, Copy, PartialEq, Eq, Structural)]
pub enum BoardError {
    /// The grid has no row.
    Empty,
    /// Two rows of the grid differ in length.
    Ragged,
    /// Two grids that are compared differ in their number of rows or columns.
    DimensionMismatch,
    /// A coordinate lies outside the grid.
    OutOfBounds,
    /// Exactly one cell differs from the target: no swap of two cells can
    /// mend that.
    SingleMismatch,
    /// A grid of words fixes a letter that it cannot hold.
    InvalidBoard,
}

/// The letters of a grid, row by row.
pub type Grid = Seq<Seq<char>>;

/// A grid has at least one row, all its rows have one length, and a machine
/// can count its rows and its columns.
pub open spec fn rectangular(g: Grid) -> bool {
    &&& 0 < g.len() <= usize::MAX
    &&& g[0].len() <= usize::MAX
    &&& forall|r: int| 0 <= r < g.len() ==> #[trigger] g[r].len() == g[0].len()
}

/// Two rectangular grids have the same number of rows and of columns.
pub open spec fn same_shape(a: Grid, b: Grid) -> bool {
    a.len() == b.len() && a[0].len() == b[0].len()
}

/// The cell `c` lies in the grid.
pub open spec fn in_grid(g: Grid, c: Coord) -> bool {
    c.row < g.len() && c.col < g[0].len()
}

/// The letter in the cell `c`.
pub open spec fn letter_at(g: Grid, c: Coord) -> char {
    g[c.row as int][c.col as int]
}

/// The grid with the letter `x` in the cell `c`, and every other cell as it
/// is.
pub open spec fn with_letter(g: Grid, c: Coord, x: char) -> Grid {
    g.update(c.row as int, g[c.row as int].update(c.col as int, x))
}

/// The grid after the letters at the two cells of `w` have changed places.
pub open spec fn swapped(g: Grid, w: Swap) -> Grid {
    with_letter(with_letter(g, w.a, letter_at(g, w.b)), w.b, letter_at(g, w.a))
}

/// The columns among the first `n` at which two rows differ, in ascending
/// order, as coordinates in row `row`.
pub open spec fn row_mismatches(x: Seq<char>, y: Seq<char>, row: usize, n: nat) -> Seq<Coord>
    decreases n,
{
    if n == 0 {
        Seq::empty()
    } else {
        let before = row_mismatches(x, y, row, (n - 1) as nat);
        if x[n - 1] != y[n - 1] {
            before.push(Coord { row, col: (n - 1) as usize })
        } else {
            before
        }
    }
}

/// The cells in the first `n` rows at which two grids differ, in row-major
/// order.
pub open spec fn mismatches_upto(a: Grid, b: Grid, n: nat) -> Seq<Coord>
    decreases n,
{
    if n == 0 {
        Seq::empty()
    } else {
        mismatches_upto(a, b, (n - 1) as nat) + row_mismatches(
            a[n - 1],
            b[n - 1],
            (n - 1) as usize,
            a[n - 1].len(),
        )
    }
}

/// The cells at which two grids of one shape differ, in row-major order.
pub open spec fn mismatches(a: Grid, b: Grid) -> Seq<Coord> {
    mismatches_upto(a, b, a.len())
}

/// The number of cells at which two grids of one shape differ.
pub open spec fn distance(a: Grid, b: Grid) -> nat {
    mismatches(a, b).len()
}

/// The cell `c` lies in both grids and holds different letters in them.
pub open spec fn mismatched(a: Grid, b: Grid, c: Coord) -> bool {
    in_grid(a, c) && letter_at(a, c) != letter_at(b, c)
}

/// `row_mismatches` lists exactly the differing columns below `n`, each
/// once, in ascending order.
pub proof fn lemma_row_mismatches(x: Seq<char>, y: Seq<char>, row: usize, n: nat)
    requires
        n <= x.len(),
        n <= y.len(),
        n <= usize::MAX,
    ensures
        row_mismatches(x, y, row, n).len() <= n,
        forall|i: int|
            0 <= i < row_mismatches(x, y, row, n).len() ==> {
                let c = #[trigger] row_mismatches(x, y, row, n)[i];
                c.row == row && c.col < n && x[c.col as int] != y[c.col as int]
            },
        forall|c: Coord|
            c.row == row && c.col < n && x[c.col as int] != y[c.col as int]
                ==> #[trigger] row_mismatches(x, y, row, n).contains(c),
        forall|i: int, j: int|
            0 <= i < j < row_mismatches(x, y, row, n).len() ==> (#[trigger] row_mismatches(
                x,
                y,
                row,
                n,
            )[i]).col < (#[trigger] row_mismatches(x, y, row, n)[j]).col,
    decreases n,
{
    if n > 0 {
        let m = (n - 1) as nat;
        lemma_row_mismatches(x, y, row, m);
        let before = row_mismatches(x, y, row, m);
        let all = row_mismatches(x, y, row, n);
        assert forall|c: Coord|
            c.row == row && c.col < n && x[c.col as int] != y[c.col as int]
            implies #[trigger] all.contains(c) by {
            if c.col < m {
                assert(before.contains(c));
                let i = choose|i: int| 0 <= i < before.len() && before[i] == c;
                assert(all[i] == c);
            } else {
                assert(all[all.len() - 1] == c);
            }
        }
    }
}

/// `mismatches_upto` lists exactly the differing cells of the first `n`
/// rows, each once, in row-major order.
pub proof fn lemma_mismatches_upto(a: Grid, b: Grid, n: nat)
    requires
        rectangular(a),
        rectangular(b),
        same_shape(a, b),
        n <= a.len(),
    ensures
        mismatches_upto(a, b, n).len() <= n * a[0].len(),
        forall|i: int|
            0 <= i < mismatches_upto(a, b, n).len() ==> {
                let c = #[trigger] mismatches_upto(a, b, n)[i];
                mismatched(a, b, c) && c.row < n
            },
        forall|c: Coord|
            #![trigger mismatched(a, b, c)]
            mismatched(a, b, c) && c.row < n ==> mismatches_upto(a, b, n).contains(c),
        forall|i: int, j: int|
            0 <= i < j < mismatches_upto(a, b, n).len() ==> coord_before(
                #[trigger] mismatches_upto(a, b, n)[i],
                #[trigger] mismatches_upto(a, b, n)[j],
            ),
    decreases n,
{
    if n > 0 {
        let m = (n - 1) as nat;
        let width = a[0].len();
        lemma_mismatches_upto(a, b, m);
        assert(a[m as int].len() == width && b[m as int].len() == width);
        lemma_row_mismatches(a[m as int], b[m as int], m as usize, width);
        let before = mismatches_upto(a, b, m);
        let here = row_mismatches(a[m as int], b[m as int], m as usize, width);
        let all = mismatches_upto(a, b, n);
        assert(all == before + here);
        assert(all.len() <= n * width) by (nonlinear_arith)
            requires
                all.len() == before.len() + here.len(),
                before.len() <= m * width,
                here.len() <= width,
                n == m + 1,
        ;
        assert forall|i: int| 0 <= i < all.len() implies {
            let c = #[trigger] all[i];
            mismatched(a, b, c) && c.row < n
        } by {
            if i >= before.len() {
                assert(all[i] == here[i - before.len()]);
            }
        }
        assert forall|c: Coord|
            #![trigger mismatched(a, b, c)]
            mismatched(a, b, c) && c.row < n implies all.contains(c) by {
            if c.row < m {
                let i = choose|i: int| 0 <= i < before.len() && before[i] == c;
                assert(all[i] == c);
            } else {
                assert(here.contains(c));
                let i = choose|i: int| 0 <= i < here.len() && here[i] == c;
                assert(all[before.len() + i] == c);
            }
        }
        assert forall|i: int, j: int| 0 <= i < j < all.len() implies coord_before(
            #[trigger] all[i],
            #[trigger] all[j],
        ) by {
            if j >= before.len() {
                assert(all[j] == here[j - before.len()]);
                if i >= before.len() {
                    assert(all[i] == here[i - before.len()]);
                }
            }
        }
    }
}

/// The cells at which two grids of one shape differ are listed by
/// `mismatches` exactly, each once, in row-major order. This fixes the list.
pub proof fn lemma_mismatches(a: Grid, b: Grid)
    requires
        rectangular(a),
        rectangular(b),
        same_shape(a, b),
    ensures
        distance(a, b) <= a.len() * a[0].len(),
        forall|i: int|
            0 <= i < mismatches(a, b).len() ==> mismatched(a, b, #[trigger] mismatches(a, b)[i]),
        forall|c: Coord|
            #![trigger mismatched(a, b, c)]
            mismatched(a, b, c) ==> mismatches(a, b).contains(c),
        forall|i: int, j: int|
            0 <= i < j < mismatches(a, b).len() ==> coord_before(
                #[trigger] mismatches(a, b)[i],
                #[trigger] mismatches(a, b)[j],
            ),
{
    lemma_mismatches_upto(a, b, a.len());
}

/// Two grids of one shape are at distance 0 exactly when they are equal.
pub proof fn lemma_distance_zero(a: Grid, b: Grid)
    requires
        rectangular(a),
        rectangular(b),
        same_shape(a, b),
    ensures
        distance(a, b) == 0 <==> a == b,
{
    lemma_mismatches(a, b);
    if distance(a, b) == 0 {
        assert forall|r: int| 0 <= r < a.len() implies a[r] =~= b[r] by {
            assert(a[r].len() == a[0].len() && b[r].len() == b[0].len());
            assert forall|k: int| 0 <= k < a[r].len() implies a[r][k] == b[r][k] by {
                let c = Coord { row: r as usize, col: k as usize };
                if a[r][k] != b[r][k] {
                    assert(mismatched(a, b, c));
                    assert(mismatches(a, b).contains(c));
                }
            }
        }
        assert(a =~= b);
    }
    if a == b && distance(a, b) > 0 {
        assert(mismatched(a, b, mismatches(a, b)[0]));
    }
}

/// The letters in the first `n` rows of a grid, each as often as it occurs.
pub open spec fn letters_upto(g: Grid, n: nat) -> Multiset<char>
    decreases n,
{
    if n == 0 {
        Multiset::empty()
    } else {
        letters_upto(g, (n - 1) as nat).add(g[n - 1].to_multiset())
    }
}

/// The letters of a grid, each as often as it occurs.
pub open spec fn letters(g: Grid) -> Multiset<char> {
    letters_upto(g, g.len())
}

/// A row with one letter replaced, together with the letter that left, has
/// the letters of the row as it was together with the letter that came.
pub proof fn lemma_row_letters(row: Seq<char>, i: int, x: char)
    requires
        0 <= i < row.len(),
    ensures
        row.update(i, x).to_multiset().insert(row[i]) == row.to_multiset().insert(x),
{
    broadcast use vstd::seq_lib::group_to_multiset_ensures;

    let changed = row.update(i, x);
    assert(changed.remove(i) =~= row.remove(i));
    assert(changed.remove(i).to_multiset() == changed.to_multiset().remove(x));
    assert(row.remove(i).to_multiset() == row.to_multiset().remove(row[i]));
    assert(changed[i] == x);
    assert(changed.contains(x));
    assert(row.contains(row[i]));
    assert(changed.to_multiset().insert(row[i]) =~= row.to_multiset().insert(x)) by {
        assert forall|v: char|
            changed.to_multiset().insert(row[i]).count(v) == row.to_multiset().insert(x).count(
                v,
            ) by {
            assert(changed.to_multiset().remove(x).count(v) == row.to_multiset().remove(
                row[i],
            ).count(v));
        }
    }
}

/// What putting a letter into a cell does to the letters of the first `n`
/// rows: nothing above the row of the cell; from that row on, the letter
/// that left is replaced by the letter that came.
proof fn lemma_letters_upto_put(g: Grid, c: Coord, x: char, n: nat)
    requires
        rectangular(g),
        in_grid(g, c),
        n <= g.len(),
    ensures
        n <= c.row ==> letters_upto(with_letter(g, c, x), n) == letters_upto(g, n),
        n > c.row ==> letters_upto(with_letter(g, c, x), n).insert(letter_at(g, c))
            == letters_upto(g, n).insert(x),
    decreases n,
{
    if n > 0 {
        let m = (n - 1) as nat;
        let h = with_letter(g, c, x);
        lemma_letters_upto_put(g, c, x, m);
        assert(g[c.row as int].len() == g[0].len());
        if m == c.row {
            lemma_row_letters(g[m as int], c.col as int, x);
            let before = letters_upto(g, m);
            let old_row = g[m as int].to_multiset();
            let new_row = h[m as int].to_multiset();
            assert(new_row.insert(letter_at(g, c)) == old_row.insert(x));
            assert(before.add(new_row).insert(letter_at(g, c)) =~= before.add(
                new_row.insert(letter_at(g, c)),
            ));
            assert(before.add(old_row).insert(x) =~= before.add(old_row.insert(x)));
        } else if m > c.row {
            let row = g[m as int].to_multiset();
            assert(h[m as int] == g[m as int]);
            assert(letters_upto(h, m).add(row).insert(letter_at(g, c)) =~= letters_upto(
                h,
                m,
            ).insert(letter_at(g, c)).add(row));
            assert(letters_upto(g, m).add(row).insert(x) =~= letters_upto(g, m).insert(x).add(
                row,
            ));
        } else {
            assert(h[m as int] == g[m as int]);
        }
    }
}

/// A swap of two cells changes where letters stand, not which letters the
/// grid holds nor how often.
pub proof fn lemma_swapped_letters(g: Grid, w: Swap)
    requires
        rectangular(g),
        in_grid(g, w.a),
        in_grid(g, w.b),
    ensures
        letters(swapped(g, w)) == letters(g),
{
    let x = letter_at(g, w.a);
    let y = letter_at(g, w.b);
    let h = with_letter(g, w.a, y);
    assert(g[w.a.row as int].len() == g[0].len());
    assert(g[w.b.row as int].len() == g[0].len());
    assert(rectangular(h)) by {
        assert forall|r: int| 0 <= r < h.len() implies (#[trigger] h[r]).len() == h[0].len() by {
            assert(g[r].len() == g[0].len());
        }
    }
    assert(letter_at(h, w.b) == y);
    lemma_letters_upto_put(g, w.a, y, g.len());
    lemma_letters_upto_put(h, w.b, x, h.len());
    let l0 = letters(g);
    let l1 = letters(h);
    let l2 = letters(swapped(g, w));
    assert(l1.insert(x) == l0.insert(y));
    assert(l2.insert(y) == l1.insert(x));
    assert(l2 =~= l0) by {
        assert forall|v: char| l2.count(v) == l0.count(v) by {
            assert(l2.insert(y).count(v) == l0.insert(y).count(v));
        }
    }
}

/// The grid that a vector of rows holds.
pub open spec fn grid_of(rows: Seq<Vec<char>>) -> Grid {
    Seq::new(rows.len(), |r: int| rows[r]@)
}

/// A rectangular grid of letters. A board never changes: every operation
/// that alters letters hands back a new board.
#[derive(Debug, PartialEq, Eq, Hash)]
pub struct WaffleBoard {
    cells: Vec<Vec<char>>,
}

impl View for WaffleBoard {
    type V = Grid;

    /// The letters of the board, row by row.
    closed spec fn view(&self) -> Grid {
        grid_of(self.cells@)
    }
}

/// A copy of a row.
fn copy_row(row: &Vec<char>) -> (copy: Vec<char>)
    ensures
        copy@ == row@,
{
    let mut copy: Vec<char> = Vec::new();
    let mut i: usize = 0;
    while i < row.len()
        invariant
            i <= row.len(),
            copy@ == row@.take(i as int),
        decreases row.len() - i,
    {
        copy.push(row[i]);
        i += 1;
    }
    copy
}

/// Puts the letter `x` into the cell `c`.
fn put(cells: &mut Vec<Vec<char>>, c: Coord, x: char)
    requires
        c.row < old(cells)@.len(),
        c.col < old(cells)@[c.row as int]@.len(),
    ensures
        grid_of(final(cells)@) == with_letter(grid_of(old(cells)@), c, x),
{
    let mut row = copy_row(&cells[c.row]);
    row.set(c.col, x);
    cells.set(c.row, row);
    assert(grid_of(cells@) =~= with_letter(grid_of(old(cells)@), c, x));
}

impl Clone for WaffleBoard {
    /// A board with the same letters.
    fn clone(&self) -> (copy: WaffleBoard)
        ensures
            copy@ == self@,
    {
        let mut cells: Vec<Vec<char>> = Vec::new();
        let mut r: usize = 0;
        while r < self.cells.len()
            invariant
                r <= self.cells.len(),
                cells@.len() == r,
                forall|k: int| 0 <= k < r ==> (#[trigger] cells@[k])@ == self.cells@[k]@,
            decreases self.cells.len() - r,
        {
            cells.push(copy_row(&self.cells[r]));
            r += 1;
        }
        let copy = WaffleBoard { cells };
        assert(copy@ =~= self@);
        copy
    }
}

impl WaffleBoard {
    /// The invariant of a board: its grid is rectangular.
    pub open spec fn wf(&self) -> bool {
        rectangular(self@)
    }

    /// A board with the given rows. It is refused as `Empty` when there is no
    /// row, else as `Ragged` when a row differs in length from the first.
    pub fn from_rows(rows: Vec<Vec<char>>) -> (r: Result<WaffleBoard, BoardError>)
        ensures
            rows@.len() == 0 ==> r == Err::<WaffleBoard, BoardError>(BoardError::Empty),
            rows@.len() > 0 && !rectangular(grid_of(rows@)) ==> r == Err::<
                WaffleBoard,
                BoardError,
            >(BoardError::Ragged),
            rectangular(grid_of(rows@)) ==> r is Ok && r->Ok_0@ == grid_of(rows@) && r->Ok_0.wf(),
    {
        if rows.len() == 0 {
            return Err(BoardError::Empty);
        }
        let width = rows[0].len();
        let mut r: usize = 1;
        while r < rows.len()
            invariant
                1 <= r <= rows.len(),
                width == rows@[0]@.len(),
                forall|k: int| 0 <= k < r ==> (#[trigger] rows@[k])@.len() == width,
            decreases rows.len() - r,
        {
            if rows[r].len() != width {
                assert(grid_of(rows@)[r as int].len() != grid_of(rows@)[0].len());
                return Err(BoardError::Ragged);
            }
            r += 1;
        }
        Ok(WaffleBoard { cells: rows })
    }

    /// The board that a text spells, one row to a line (see `lines_of`) and
    /// one cell to a character. A text without a line is refused as `Empty`,
    /// one whose lines differ in length as `Ragged`.
    pub fn parse(text: &str) -> (r: Result<WaffleBoard, BoardError>)
        ensures
            lines_of(text@).len() == 0 ==> r is Err && r->Err_0 == BoardError::Empty,
            lines_of(text@).len() > 0 && !rectangular(lines_of(text@)) ==> r is Err && r->Err_0
                == BoardError::Ragged,
            rectangular(lines_of(text@)) ==> r is Ok && r->Ok_0@ == lines_of(text@)
                && r->Ok_0.wf(),
    {
        WaffleBoard::from_rows(split_lines(text))
    }

    /// The rows of the board, each on a line of its own.
    pub fn display(&self) -> (text: String)
        ensures
            text@ == joined(self@, seq!['\n']),
    {
        let mut lines: Vec<String> = Vec::new();
        let mut r: usize = 0;
        while r < self.cells.len()
            invariant
                r <= self.cells.len(),
                texts_of(lines@) == self@.take(r as int),
            decreases self.cells.len() - r,
        {
            let ghost before = texts_of(lines@);
            lines.push(string_of(&self.cells[r]));
            assert(texts_of(lines@) =~= before.push(self@[r as int]));
            assert(texts_of(lines@) =~= self@.take(r + 1));
            r += 1;
        }
        proof {
            reveal_strlit("\n");
            assert(self@.take(self.cells.len() as int) =~= self@);
            assert("\n"@ =~= seq!['\n']);
        }
        join_lines(&lines, "\n")
    }

    /// The numbers of rows and of columns.
    pub fn size(&self) -> (s: (usize, usize))
        requires
            self.wf(),
        ensures
            s.0 == self@.len(),
            s.1 == self@[0].len(),
    {
        (self.cells.len(), self.cells[0].len())
    }

    /// The letter of one cell.
    pub fn get(&self, coord: Coord) -> (x: char)
        requires
            self.wf(),
            in_grid(self@, coord),
        ensures
            x == letter_at(self@, coord),
    {
        assert(self@[coord.row as int].len() == self@[0].len());
        self.cells[coord.row][coord.col]
    }

    /// The board after the letters at the two cells of `swap` have changed
    /// places. It is refused as `OutOfBounds` when either cell lies outside
    /// the grid.
    pub fn swap(&self, swap: Swap) -> (r: Result<WaffleBoard, BoardError>)
        requires
            self.wf(),
        ensures
            in_grid(self@, swap.a) && in_grid(self@, swap.b) ==> r is Ok && r->Ok_0@ == swapped(
                self@,
                swap,
            ) && r->Ok_0.wf() && same_shape(r->Ok_0@, self@),
            !(in_grid(self@, swap.a) && in_grid(self@, swap.b)) ==> r is Err && r->Err_0
                == BoardError::OutOfBounds,
    {
        let (height, width) = self.size();
        if !(swap.a.row < height && swap.a.col < width && swap.b.row < height && swap.b.col
            < width) {
            return Err(BoardError::OutOfBounds);
        }
        let x = self.get(swap.a);
        let y = self.get(swap.b);
        let mut next = self.clone();
        assert(forall|r: int| 0 <= r < self@.len() ==> (#[trigger] self@[r]).len() == width);
        put(&mut next.cells, swap.a, y);
        assert(next@ == with_letter(self@, swap.a, y));
        assert(next@.len() == next.cells@.len());
        assert(next@[swap.b.row as int] == next.cells@[swap.b.row as int]@);
        put(&mut next.cells, swap.b, x);
        assert(next@ == swapped(self@, swap));
        assert(rectangular(next@)) by {
            assert forall|r: int| 0 <= r < next@.len() implies (#[trigger] next@[r]).len()
                == next@[0].len() by {
                assert(self@[r].len() == width);
            }
        }
        Ok(next)
    }

    /// The cells at which this board and `other` differ, in row-major order.
    /// Boards of different shapes are refused as `DimensionMismatch`.
    pub fn diff(&self, other: &WaffleBoard) -> (r: Result<Vec<Coord>, BoardError>)
        requires
            self.wf(),
            other.wf(),
        ensures
            same_shape(self@, other@) ==> r is Ok && r->Ok_0@ == mismatches(self@, other@),
            !same_shape(self@, other@) ==> r is Err && r->Err_0 == BoardError::DimensionMismatch,
    {
        let (height, width) = self.size();
        let (other_height, other_width) = other.size();
        if height != other_height || width != other_width {
            return Err(BoardError::DimensionMismatch);
        }
        let mut ret: Vec<Coord> = Vec::new();
        let mut row: usize = 0;
        while row < height
            invariant
                row <= height,
                height == self@.len(),
                width == self@[0].len(),
                self.wf(),
                other.wf(),
                same_shape(self@, other@),
                ret@ == mismatches_upto(self@, other@, row as nat),
            decreases height - row,
        {
            let ghost done = ret@;
            let mut col: usize = 0;
            assert(self@[row as int].len() == width && other@[row as int].len() == width);
            while col < width
                invariant
                    col <= width,
                    row < height,
                    height == self@.len(),
                    width == self@[0].len(),
                    self.wf(),
                    other.wf(),
                    same_shape(self@, other@),
                    self@[row as int].len() == width,
                    other@[row as int].len() == width,
                    ret@ == done + row_mismatches(
                        self@[row as int],
                        other@[row as int],
                        row,
                        col as nat,
                    ),
                decreases width - col,
            {
                let coord = Coord { row, col };
                if self.get(coord) != other.get(coord) {
                    ret.push(coord);
                }
                col += 1;
            }
            row += 1;
        }
        Ok(ret)
    }

    /// The number of cells at which this board and `other` differ: 0 exactly
    /// when the boards are equal. Boards of different shapes are refused as
    /// `DimensionMismatch`.
    pub fn score(&self, other: &WaffleBoard) -> (r: Result<usize, BoardError>)
        requires
            self.wf(),
            other.wf(),
        ensures
            same_shape(self@, other@) ==> r is Ok && r->Ok_0 == distance(self@, other@),
            same_shape(self@, other@) ==> (r->Ok_0 == 0 <==> self@ == other@),
            !same_shape(self@, other@) ==> r is Err && r->Err_0 == BoardError::DimensionMismatch,
    {
        match self.diff(other) {
            Ok(cells) => {
                proof {
                    lemma_distance_zero(self@, other@);
                }
                Ok(cells.len())
            },
            Err(e) => Err(e),
        }
    }

    /// Whether two boards hold the same letters in the same shape.
    pub fn same_as(&self, other: &WaffleBoard) -> (r: bool)
        ensures
            r == (self@ == other@),
    {
        if self.cells.len() != other.cells.len() {
            assert(self@.len() != other@.len());
            return false;
        }
        let mut r: usize = 0;
        while r < self.cells.len()
            invariant
                r <= self.cells.len(),
                self.cells.len() == other.cells.len(),
                forall|k: int| 0 <= k < r ==> self@[k] == other@[k],
            decreases self.cells.len() - r,
        {
            let x = &self.cells[r];
            let y = &other.cells[r];
            assert(self@[r as int] == x@ && other@[r as int] == y@);
            if x.len() != y.len() {
                return false;
            }
            let mut c: usize = 0;
            while c < x.len()
                invariant
                    c <= x.len(),
                    x.len() == y.len(),
                    self@[r as int] == x@,
                    other@[r as int] == y@,
                    forall|k: int| 0 <= k < c ==> x@[k] == y@[k],
                decreases x.len() - c,
            {
                if x[c] != y[c] {
                    assert(x@[c as int] != y@[c as int]);
                    return false;
                }
                c += 1;
            }
            assert(x@ =~= y@);
            r += 1;
        }
        assert(self@ =~= other@);
        true
    }
}

} // verus!
