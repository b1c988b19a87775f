//! Letters fixed at positions of a word, and a board of such rows and
//! columns with a budget of letters still to be placed.

use vstd::prelude::*;

use crate::board::{rectangular, BoardError, Coord, WaffleBoard};
use crate::text::{
    alphanumeric, capital, is_alphanumeric, is_capital, is_uppercase, join_lines, joined, lines_of,
    lower, lowered, string_of, texts_of, unicode_uppercase,
};
use std::collections::HashMap;

verus! {

broadcast use vstd::std_specs::hash::group_hash_axioms;

/// The number of the word that runs along line `cell` of the grid, counted
/// among the words of its direction: words run along the even rows and the
/// even columns only.
pub fn cell_index(cell: usize) -> (r: Option<usize>)
    ensures
        r == word_index(cell),
{
    if cell % 2 == 0 {
        Some(cell / 2)
    } else {
        None
    }
}

/// The number of the word that runs along line `cell` of the grid, if one
/// does: line 0 has word 0, line 2 has word 1, and so on; the odd lines have
/// none.
pub open spec fn word_index(cell: usize) -> Option<usize> {
    if cell % 2 == 0 {
        Some(cell / 2)
    } else {
        None
    }
}

/// The letter that a map fixes at `index`, if it fixes one.
pub open spec fn lookup(m: Map<usize, char>, index: usize) -> Option<char> {
    if m.contains_key(index) {
        Some(m[index])
    } else {
        None
    }
}

/// The letters that a pattern fixes: at each position the character there,
/// unless it is `?`.
pub open spec fn pattern_map(pattern: Seq<char>) -> Map<usize, char> {
    Map::new(
        |i: usize| i < pattern.len() && pattern[i as int] != '?',
        |i: usize| pattern[i as int],
    )
}

/// A word agrees with the fixed letters: at every position of the word where
/// a letter is fixed, the word has that letter.
pub open spec fn agrees(m: Map<usize, char>, word: Seq<char>) -> bool {
    forall|i: usize| i < word.len() && m.contains_key(i) ==> m[i] == word[i as int]
}

/// The letters fixed at some positions of a word.
#[derive(Debug)]
pub struct Constraint {
    constraints: HashMap<usize, char>,
}

impl View for Constraint {
    type V = Map<usize, char>;

    /// The fixed letters, by position.
    closed spec fn view(&self) -> Map<usize, char> {
        self.constraints@
    }
}

impl Clone for Constraint {
    /// A constraint that fixes the same letters.
    fn clone(&self) -> (copy: Constraint)
        ensures
            copy@ == self@,
    {
        Constraint { constraints: self.constraints.clone() }
    }
}

impl Constraint {
    /// No letter fixed.
    pub fn new() -> (c: Constraint)
        ensures
            c@ == Map::<usize, char>::empty(),
    {
        Constraint { constraints: HashMap::new() }
    }

    /// The constraint that a pattern spells out: `?` leaves a position free,
    /// any other character is fixed at its position.
    pub fn from(pattern: &str) -> (c: Constraint)
        ensures
            c@ == pattern_map(pattern@),
    {
        let mut constraints: HashMap<usize, char> = HashMap::new();
        let n = pattern.unicode_len();
        let mut i: usize = 0;
        while i < n
            invariant
                i <= n,
                n == pattern@.len(),
                constraints@ == pattern_map(pattern@.take(i as int)),
            decreases n - i,
        {
            let c = pattern.get_char(i);
            if c != '?' {
                constraints.insert(i, c);
            }
            assert(constraints@ =~= pattern_map(pattern@.take(i + 1)));
            i += 1;
        }
        assert(pattern@.take(n as int) =~= pattern@);
        Constraint { constraints }
    }

    /// This constraint with `val` fixed at `idx` as well, in place of
    /// whatever was fixed there.
    pub fn with(&self, idx: usize, val: char) -> (c: Constraint)
        ensures
            c@ == self@.insert(idx, val),
    {
        let mut constraints = self.constraints.clone();
        constraints.insert(idx, val);
        Constraint { constraints }
    }

    /// Whether `word` has, at each of its positions where a letter is fixed,
    /// that letter.
    pub fn matches(&self, word: &str) -> (ok: bool)
        ensures
            ok == agrees(self@, word@),
    {
        let n = word.unicode_len();
        let mut i: usize = 0;
        while i < n
            invariant
                i <= n,
                n == word@.len(),
                forall|k: usize| k < i && self@.contains_key(k) ==> self@[k] == word@[k as int],
            decreases n - i,
        {
            let c = word.get_char(i);
            match self.constraints.get(&i) {
                Some(expected) => {
                    if *expected != c {
                        return false;
                    }
                },
                None => {},
            }
            i += 1;
        }
        true
    }

    /// The letter fixed at `index`, if one is.
    pub fn get(&self, index: usize) -> (r: Option<char>)
        ensures
            r == lookup(self@, index),
    {
        match self.constraints.get(&index) {
            Some(c) => Some(*c),
            None => None,
        }
    }

    /// The number of positions at which a letter is fixed.
    pub fn num_set(&self) -> (n: usize)
        ensures
            n == self@.len(),
    {
        self.constraints.len()
    }
}

/// A board of words as a value: for each word across and each word down,
/// the letters fixed in it by position; and for each letter still to be
/// placed, how many times.
pub struct BoardView {
    pub rows: Seq<Map<usize, char>>,
    pub cols: Seq<Map<usize, char>>,
    pub unused: Map<char, nat>,
}

impl BoardView {
    /// The number of cells along one side of the grid: the words run through
    /// every second line, the first and the last among them.
    pub open spec fn side(self) -> nat {
        (2 * self.rows.len() - 1) as nat
    }

    /// The letter in the cell at `row` and `col`, if one has been placed. It
    /// is read from the word across where one runs through the cell, else
    /// from the word down; a cell on no word holds no letter.
    pub open spec fn letter(self, row: usize, col: usize) -> Option<char> {
        if row % 2 == 0 {
            lookup(self.rows[row as int / 2], col)
        } else if col % 2 == 0 {
            lookup(self.cols[col as int / 2], row)
        } else {
            None
        }
    }

    /// The word through which `letter` reads the cell exists.
    pub open spec fn reads(self, row: usize, col: usize) -> bool {
        if row % 2 == 0 {
            row / 2 < self.rows.len()
        } else if col % 2 == 0 {
            col / 2 < self.cols.len()
        } else {
            true
        }
    }

    /// The invariant of a board. There are as many words across as down, at
    /// least one, and few enough for a machine to count the cells of a side.
    /// Letters are fixed inside the grid only. Where a word across
    /// and a word down cross, both have the same letter or none. No letter
    /// is left to be placed zero times.
    pub open spec fn wf(self) -> bool {
        &&& self.rows.len() == self.cols.len()
        &&& 1 <= self.rows.len()
        &&& 2 * self.rows.len() <= usize::MAX
        &&& forall|r: int, k: usize|
            0 <= r < self.rows.len() && (#[trigger] self.rows[r].contains_key(k)) ==> k
                < self.side()
        &&& forall|c: int, k: usize|
            0 <= c < self.cols.len() && (#[trigger] self.cols[c].contains_key(k)) ==> k
                < self.side()
        &&& forall|r: int| 0 <= r < self.rows.len() ==> (#[trigger] self.rows[r]).dom().finite()
        &&& forall|c: int| 0 <= c < self.cols.len() ==> (#[trigger] self.cols[c]).dom().finite()
        &&& forall|r: usize, c: usize|
            r < self.rows.len() && c < self.cols.len() ==> #[trigger] lookup(
                self.rows[r as int],
                (2 * c) as usize,
            ) == #[trigger] lookup(self.cols[c as int], (2 * r) as usize)
        &&& forall|x: char| #[trigger] self.unused.contains_key(x) ==> self.unused[x] >= 1
    }

    /// The letter `val` may be asked for the cell at `row` and `col`: the
    /// cell lies in the grid and holds no other letter.
    pub open spec fn accepts(self, row: usize, col: usize, val: char) -> bool {
        &&& row < self.side()
        &&& col < self.side()
        &&& self.letter(row, col) matches Some(cur) ==> cur == val
    }

    /// The board after `val` has been asked for the cell at `row` and `col`.
    /// A cell that holds a letter leaves the board as it is. For an empty
    /// cell the letter is taken from those still to be placed, and fixed in
    /// the word across and the word down that run through the cell; where
    /// the letter is not among them, there is no such board.
    pub open spec fn place(self, row: usize, col: usize, val: char) -> Option<BoardView> {
        if self.letter(row, col) is Some {
            Some(self)
        } else if !self.unused.contains_key(val) {
            None
        } else {
            Some(
                BoardView {
                    rows: if row % 2 == 0 {
                        self.rows.update(
                            row as int / 2,
                            self.rows[row as int / 2].insert(col, val),
                        )
                    } else {
                        self.rows
                    },
                    cols: if col % 2 == 0 {
                        self.cols.update(
                            col as int / 2,
                            self.cols[col as int / 2].insert(row, val),
                        )
                    } else {
                        self.cols
                    },
                    unused: if self.unused[val] == 1 {
                        self.unused.remove(val)
                    } else {
                        self.unused.insert(val, (self.unused[val] - 1) as nat)
                    },
                },
            )
        }
    }
}

/// The cells of row `row`, from the left.
pub open spec fn row_cells(row: usize, side: nat) -> Seq<(usize, usize)> {
    Seq::new(side, |c: int| (row, c as usize))
}

/// The cells of column `col`, from the top.
pub open spec fn col_cells(col: usize, side: nat) -> Seq<(usize, usize)> {
    Seq::new(side, |r: int| (r as usize, col))
}

/// A word that still lacks letters, with its cells.
pub type OpenWord = (Map<usize, char>, Seq<(usize, usize)>);

impl BoardView {
    /// Those of the first `n` words across that lack a letter, each with its
    /// cells.
    pub open spec fn open_rows(self, n: nat) -> Seq<OpenWord>
        decreases n,
    {
        if n == 0 {
            Seq::empty()
        } else {
            let before = self.open_rows((n - 1) as nat);
            if self.rows[n - 1].len() != self.side() {
                before.push((self.rows[n - 1], row_cells((2 * (n - 1)) as usize, self.side())))
            } else {
                before
            }
        }
    }

    /// Those of the first `n` words down that lack a letter, each with its
    /// cells.
    pub open spec fn open_cols(self, n: nat) -> Seq<OpenWord>
        decreases n,
    {
        if n == 0 {
            Seq::empty()
        } else {
            let before = self.open_cols((n - 1) as nat);
            if self.cols[n - 1].len() != self.side() {
                before.push((self.cols[n - 1], col_cells((2 * (n - 1)) as usize, self.side())))
            } else {
                before
            }
        }
    }

    /// The words that lack a letter: those across from the top, then those
    /// down from the left.
    pub open spec fn open_words(self) -> Seq<OpenWord> {
        self.open_rows(self.rows.len()) + self.open_cols(self.cols.len())
    }

    /// Row `row` of the grid as text: the letter of each cell, a blank for a
    /// cell without one.
    pub open spec fn drawn_row(self, row: usize) -> Seq<char> {
        Seq::new(
            self.side(),
            |c: int|
                match self.letter(row, c as usize) {
                    Some(x) => x,
                    None => ' ',
                },
        )
    }

    /// The grid as text, row by row, each row on a line of its own.
    pub open spec fn drawn(self) -> Seq<char> {
        joined(Seq::new(self.side(), |r: int| self.drawn_row(r as usize)), seq!['\n'])
    }
}

/// How often `x` is among the first `n` characters of a text. Letters of
/// the English alphabet and digits count, a capital letter as its small
/// one.
pub open spec fn occurrences(text: Seq<char>, x: char, n: nat) -> nat
    decreases n,
{
    if n == 0 {
        0
    } else {
        occurrences(text, x, (n - 1) as nat) + if is_alphanumeric(text[n - 1]) && lowered(
            text[n - 1],
        ) == x {
            1nat
        } else {
            0nat
        }
    }
}

/// The letters that the first `n` characters of a text provide, each with
/// the number of times it occurs.
pub open spec fn letter_budget(text: Seq<char>, n: nat) -> Map<char, nat> {
    Map::new(|x: char| occurrences(text, x, n) > 0, |x: char| occurrences(text, x, n))
}

/// The board of `words` words across and as many down with no letter fixed,
/// and with `unused` still to be placed.
pub open spec fn blank(words: nat, unused: Map<char, nat>) -> BoardView {
    BoardView {
        rows: Seq::new(words, |i: int| Map::<usize, char>::empty()),
        cols: Seq::new(words, |i: int| Map::<usize, char>::empty()),
        unused,
    }
}

/// The board after the character `c` of a text has been read for the cell at
/// `row` and `col`. A capital letter fixes its small letter there, and the
/// text is refused as `InvalidBoard` where that letter may not be asked for
/// or is not left to be placed. An uppercase letter of another script is
/// refused as `InvalidBoard` too. Any other character changes nothing.
pub open spec fn fix_cell(v: BoardView, row: usize, col: usize, c: char) -> Result<
    BoardView,
    BoardError,
> {
    if is_capital(c) {
        if !v.accepts(row, col, lowered(c)) {
            Err(BoardError::InvalidBoard)
        } else {
            match v.place(row, col, lowered(c)) {
                Some(next) => Ok(next),
                None => Err(BoardError::InvalidBoard),
            }
        }
    } else if c as u32 >= 128 && unicode_uppercase(c) {
        Err(BoardError::InvalidBoard)
    } else {
        Ok(v)
    }
}

/// The board after the first `n` characters of line `row` have been read,
/// from the left; an error once met stays.
pub open spec fn fix_row(
    b: Result<BoardView, BoardError>,
    line: Seq<char>,
    row: usize,
    n: nat,
) -> Result<BoardView, BoardError>
    decreases n,
{
    if n == 0 {
        b
    } else {
        match fix_row(b, line, row, (n - 1) as nat) {
            Ok(v) => fix_cell(v, row, (n - 1) as usize, line[n - 1]),
            Err(e) => Err(e),
        }
    }
}

/// The board after the first `n` lines have been read, from the top.
pub open spec fn fix_rows(b: Result<BoardView, BoardError>, lines: Seq<Seq<char>>, n: nat) -> Result<
    BoardView,
    BoardError,
>
    decreases n,
{
    if n == 0 {
        b
    } else {
        fix_row(
            fix_rows(b, lines, (n - 1) as nat),
            lines[n - 1],
            (n - 1) as usize,
            lines[n - 1].len(),
        )
    }
}

/// The board that a text spells. Its lines are the rows of the grid; a text
/// without a line is refused as `Empty`, one whose lines differ in length as
/// `Ragged`. A line of `w` characters makes for `w / 2 + 1` words across and
/// as many down. The letters and digits of the text are the letters to be
/// placed; then each capital letter is fixed in its cell, which takes it
/// from them.
pub open spec fn parsed(text: Seq<char>) -> Result<BoardView, BoardError> {
    let lines = lines_of(text);
    if lines.len() == 0 {
        Err(BoardError::Empty)
    } else if !rectangular(lines) {
        Err(BoardError::Ragged)
    } else if 2 * (lines[0].len() / 2 + 1) > usize::MAX {
        Err(BoardError::InvalidBoard)
    } else {
        fix_rows(
            Ok(blank(lines[0].len() / 2 + 1, letter_budget(text, text.len()))),
            lines,
            lines.len(),
        )
    }
}

/// An error met while a line is read is the outcome of reading the whole
/// line.
pub proof fn lemma_fix_row_fails(
    b: Result<BoardView, BoardError>,
    line: Seq<char>,
    row: usize,
    n: nat,
    m: nat,
)
    requires
        n <= m,
        fix_row(b, line, row, n) is Err,
    ensures
        fix_row(b, line, row, m) == fix_row(b, line, row, n),
    decreases m,
{
    if m > n {
        lemma_fix_row_fails(b, line, row, n, (m - 1) as nat);
    }
}

/// An error met while the lines are read is the outcome of reading all of
/// them.
pub proof fn lemma_fix_rows_fails(
    b: Result<BoardView, BoardError>,
    lines: Seq<Seq<char>>,
    n: nat,
    m: nat,
)
    requires
        n <= m,
        fix_rows(b, lines, n) is Err,
    ensures
        fix_rows(b, lines, m) == fix_rows(b, lines, n),
    decreases m,
{
    if m > n {
        lemma_fix_rows_fails(b, lines, n, (m - 1) as nat);
        let before = fix_rows(b, lines, (m - 1) as nat);
        lemma_fix_row_fails(before, lines[m - 1], (m - 1) as usize, 0, lines[m - 1].len());
    }
}

/// A letter occurs among `n` characters at most `n` times.
pub proof fn lemma_occurrences_bound(text: Seq<char>, x: char, n: nat)
    ensures
        occurrences(text, x, n) <= n,
    decreases n,
{
    if n > 0 {
        lemma_occurrences_bound(text, x, (n - 1) as nat);
    }
}

/// The words that a vector of constraints with their cells holds.
pub open spec fn word_list(words: Seq<(Constraint, Vec<(usize, usize)>)>) -> Seq<OpenWord> {
    Seq::new(words.len(), |i: int| (words[i].0@, words[i].1@))
}

/// Two letters with one code point are one letter.
pub proof fn lemma_code_points(x: char, y: char)
    ensures
        (x as u32 == y as u32) <==> x == y,
{
}

/// The fixed letters that a vector of constraints holds, word by word.
pub open spec fn words_of(words: Seq<Constraint>) -> Seq<Map<usize, char>> {
    Seq::new(words.len(), |i: int| words[i]@)
}

/// How often each letter may still be placed, read from a table that is
/// keyed by the letters' code points.
pub open spec fn budget_of(unused: Map<u32, usize>) -> Map<char, nat> {
    Map::new(|x: char| unused.contains_key(x as u32), |x: char| unused[x as u32] as nat)
}

/// A square grid in which words run across through every second row and
/// down through every second column, some of their letters fixed, with the
/// letters that are still to be placed.
#[derive(Debug)]
pub struct ConstraintBoard {
    rows: Vec<Constraint>,
    cols: Vec<Constraint>,
    unused: HashMap<u32, usize>,
}

impl View for ConstraintBoard {
    type V = BoardView;

    /// The board as a value.
    closed spec fn view(&self) -> BoardView {
        BoardView {
            rows: words_of(self.rows@),
            cols: words_of(self.cols@),
            unused: budget_of(self.unused@),
        }
    }
}

/// A copy of each constraint.
fn copy_words(words: &Vec<Constraint>) -> (copy: Vec<Constraint>)
    ensures
        words_of(copy@) == words_of(words@),
{
    let mut copy: Vec<Constraint> = Vec::new();
    let mut i: usize = 0;
    while i < words.len()
        invariant
            i <= words.len(),
            copy@.len() == i,
            forall|k: int| 0 <= k < i ==> (#[trigger] copy@[k])@ == words@[k]@,
        decreases words.len() - i,
    {
        copy.push(words[i].clone());
        i += 1;
    }
    assert(words_of(copy@) =~= words_of(words@));
    copy
}

impl Clone for ConstraintBoard {
    /// A board with the same fixed letters and the same letters to place.
    fn clone(&self) -> (copy: ConstraintBoard)
        ensures
            copy@ == self@,
    {
        ConstraintBoard {
            rows: copy_words(&self.rows),
            cols: copy_words(&self.cols),
            unused: self.unused.clone(),
        }
    }
}

impl ConstraintBoard {
    /// The invariant of a board: that of its value.
    pub open spec fn wf(&self) -> bool {
        self@.wf()
    }

    /// The letter in the cell at `row` and `col`, if one has been placed.
    pub fn get(&self, row: usize, col: usize) -> (r: Option<char>)
        requires
            self.wf(),
            self@.reads(row, col),
        ensures
            r == self@.letter(row, col),
    {
        if let Some(row_idx) = cell_index(row) {
            return self.rows[row_idx].get(col);
        }
        if let Some(col_idx) = cell_index(col) {
            return self.cols[col_idx].get(row);
        }
        None
    }

    /// Whether `val` may be asked for the cell at `row` and `col`: whether
    /// the cell lies in the grid and holds no other letter.
    pub fn accepts(&self, row: usize, col: usize, val: char) -> (ok: bool)
        requires
            self.wf(),
        ensures
            ok == self@.accepts(row, col, val),
    {
        assert(self@.rows.len() == self.rows@.len());
        let side = self.rows.len() * 2 - 1;
        if row >= side || col >= side {
            return false;
        }
        match self.get(row, col) {
            Some(cur) => cur == val,
            None => true,
        }
    }

    /// The board with `val` in the cell at `row` and `col`. Where the cell
    /// holds `val` already, that is the board as it is. Else `val` is taken
    /// from the letters still to be placed; where none is left, the answer
    /// is `None`.
    pub fn with(&self, row: usize, col: usize, val: char) -> (r: Option<ConstraintBoard>)
        requires
            self.wf(),
            self@.accepts(row, col, val),
        ensures
            match r {
                Some(next) => self@.place(row, col, val) == Some(next@) && next.wf(),
                None => self@.place(row, col, val) is None,
            },
            r is None <==> self@.letter(row, col) is None && !self@.unused.contains_key(val),
            r is Some && (row % 2 == 0 || col % 2 == 0) ==> r->0@.letter(row, col) == Some(val),
    {
        if let Some(_cur) = self.get(row, col) {
            return Some(self.clone());
        }
        let key = val as u32;
        let remaining = match self.unused.get(&key) {
            None => {
                return None;
            },
            Some(left) => {
                assert(self@.unused.contains_key(val));
                *left - 1
            },
        };
        let mut rows = copy_words(&self.rows);
        let mut cols = copy_words(&self.cols);
        let mut unused = self.unused.clone();
        if remaining == 0 {
            unused.remove(&key);
            assert(unused@ == self.unused@.remove(key));
        } else {
            unused.insert(key, remaining);
            assert(unused@ == self.unused@.insert(key, remaining));
        }
        let ghost left = unused@;
        if let Some(constraint_row) = cell_index(row) {
            let word = rows[constraint_row].with(col, val);
            rows.set(constraint_row, word);
        }
        if let Some(constraint_col) = cell_index(col) {
            let word = cols[constraint_col].with(row, val);
            cols.set(constraint_col, word);
        }
        let next = ConstraintBoard { rows, cols, unused };
        proof {
            let wanted = self@.place(row, col, val)->0;
            assert(next@.rows =~= wanted.rows);
            assert(next@.cols =~= wanted.cols);
            assert(next.unused@ == left);
            assert forall|x: char|
                (#[trigger] next@.unused.contains_key(x)) == wanted.unused.contains_key(x) && (
                next@.unused.contains_key(x) ==> next@.unused[x] == wanted.unused[x]) by {
                lemma_code_points(x, val);
            }
            assert(next@.unused =~= wanted.unused);
            lemma_place_wf(self@, row, col, val);
        }
        Some(next)
    }
}

/// The cells of a row, from the left.
fn cells_across(row: usize, side: usize) -> (cells: Vec<(usize, usize)>)
    ensures
        cells@ == row_cells(row, side as nat),
{
    let mut cells: Vec<(usize, usize)> = Vec::new();
    let mut c: usize = 0;
    while c < side
        invariant
            c <= side,
            cells@ == row_cells(row, c as nat),
        decreases side - c,
    {
        cells.push((row, c));
        assert(cells@ =~= row_cells(row, (c + 1) as nat));
        c += 1;
    }
    cells
}

/// The cells of a column, from the top.
fn cells_down(col: usize, side: usize) -> (cells: Vec<(usize, usize)>)
    ensures
        cells@ == col_cells(col, side as nat),
{
    let mut cells: Vec<(usize, usize)> = Vec::new();
    let mut r: usize = 0;
    while r < side
        invariant
            r <= side,
            cells@ == col_cells(col, r as nat),
        decreases side - r,
    {
        cells.push((r, col));
        assert(cells@ =~= col_cells(col, (r + 1) as nat));
        r += 1;
    }
    cells
}

/// The letters and digits of a text, counted.
fn tally(text: &str) -> (unused: HashMap<u32, usize>)
    ensures
        budget_of(unused@) == letter_budget(text@, text@.len()),
{
    let mut unused: HashMap<u32, usize> = HashMap::new();
    let n = text.unicode_len();
    let mut i: usize = 0;
    assert(budget_of(unused@) =~= letter_budget(text@, 0));
    while i < n
        invariant
            i <= n,
            n == text@.len(),
            budget_of(unused@) == letter_budget(text@, i as nat),
        decreases n - i,
    {
        let c = text.get_char(i);
        let ghost before = unused@;
        if alphanumeric(c) {
            let x = lower(c);
            let key = x as u32;
            let seen = match unused.get(&key) {
                Some(k) => *k,
                None => 0,
            };
            proof {
                lemma_occurrences_bound(text@, x, i as nat);
                assert(budget_of(before).contains_key(x) == before.contains_key(key));
                assert(letter_budget(text@, i as nat).contains_key(x) == before.contains_key(key));
                if before.contains_key(key) {
                    assert(budget_of(before)[x] == letter_budget(text@, i as nat)[x]);
                }
                assert(seen == occurrences(text@, x, i as nat));
            }
            unused.insert(key, seen + 1);
        }
        proof {
            let now = budget_of(unused@);
            let wanted = letter_budget(text@, (i + 1) as nat);
            assert forall|y: char|
                (#[trigger] now.contains_key(y)) == wanted.contains_key(y) && (now.contains_key(
                    y,
                ) ==> now[y] == wanted[y]) by {
                lemma_code_points(y, lowered(c));
                assert(budget_of(before).contains_key(y) == letter_budget(
                    text@,
                    i as nat,
                ).contains_key(y));
                if budget_of(before).contains_key(y) {
                    assert(budget_of(before)[y] == letter_budget(text@, i as nat)[y]);
                }
            }
            assert(now =~= wanted);
        }
        i += 1;
    }
    unused
}

/// As many words as asked for, with no letter fixed.
fn blank_words(n: usize) -> (words: Vec<Constraint>)
    ensures
        words_of(words@) == Seq::new(n as nat, |i: int| Map::<usize, char>::empty()),
{
    let mut words: Vec<Constraint> = Vec::new();
    let mut i: usize = 0;
    while i < n
        invariant
            i <= n,
            words@.len() == i,
            forall|k: int| 0 <= k < i ==> (#[trigger] words@[k])@ == Map::<usize, char>::empty(),
        decreases n - i,
    {
        words.push(Constraint::new());
        i += 1;
    }
    assert(words_of(words@) =~= Seq::new(n as nat, |i: int| Map::<usize, char>::empty()));
    words
}

impl ConstraintBoard {
    /// The board that a text spells: see `parsed`.
    pub fn parse(text: &str) -> (r: Result<ConstraintBoard, BoardError>)
        ensures
            match r {
                Ok(b) => parsed(text@) == Ok::<BoardView, BoardError>(b@) && b.wf(),
                Err(e) => parsed(text@) == Err::<BoardView, BoardError>(e),
            },
    {
        let grid = match WaffleBoard::parse(text) {
            Ok(grid) => grid,
            Err(e) => {
                return Err(e);
            },
        };
        let (height, width) = grid.size();
        if width / 2 + 1 > usize::MAX / 2 {
            return Err(BoardError::InvalidBoard);
        }
        let words = width / 2 + 1;
        let mut board = ConstraintBoard {
            rows: blank_words(words),
            cols: blank_words(words),
            unused: tally(text),
        };
        let ghost lines = lines_of(text@);
        let ghost start = Ok::<BoardView, BoardError>(
            blank(words as nat, letter_budget(text@, text@.len())),
        );
        assert(board@ == start->Ok_0);
        assert(board.wf());
        assert(parsed(text@) == fix_rows(start, lines, lines.len()));
        let mut row: usize = 0;
        while row < height
            invariant
                row <= height,
                grid.wf(),
                grid@ == lines,
                height == lines.len(),
                width == lines[0].len(),
                board.wf(),
                parsed(text@) == fix_rows(start, lines, lines.len()),
                fix_rows(start, lines, row as nat) == Ok::<BoardView, BoardError>(board@),
            decreases height - row,
        {
            let ghost above = fix_rows(start, lines, row as nat);
            let mut col: usize = 0;
            assert(lines[row as int].len() == width);
            while col < width
                invariant
                    col <= width,
                    row < height,
                    grid.wf(),
                    grid@ == lines,
                    height == lines.len(),
                    width == lines[0].len(),
                    lines[row as int].len() == width,
                    board.wf(),
                    parsed(text@) == fix_rows(start, lines, lines.len()),
                    above == fix_rows(start, lines, row as nat),
                    fix_row(above, lines[row as int], row, col as nat) == Ok::<
                        BoardView,
                        BoardError,
                    >(board@),
                decreases width - col,
            {
                let c = grid.get(Coord { row, col });
                let ghost here = fix_row(above, lines[row as int], row, (col + 1) as nat);
                assert(here == fix_cell(board@, row, col, c));
                let mut failed = false;
                if capital(c) {
                    let x = lower(c);
                    if !board.accepts(row, col, x) {
                        failed = true;
                    } else {
                        match board.with(row, col, x) {
                            Some(next) => {
                                board = next;
                            },
                            None => {
                                failed = true;
                            },
                        }
                    }
                } else if c as u32 >= 128 && is_uppercase(c) {
                    failed = true;
                }
                assert(failed ==> here == Err::<BoardView, BoardError>(BoardError::InvalidBoard));
                assert(!failed ==> here == Ok::<BoardView, BoardError>(board@));
                if failed {
                    proof {
                        assert(fix_rows(start, lines, (row + 1) as nat) == fix_row(
                            above,
                            lines[row as int],
                            row,
                            width as nat,
                        ));
                        lemma_fix_row_fails(
                            above,
                            lines[row as int],
                            row,
                            (col + 1) as nat,
                            width as nat,
                        );
                        lemma_fix_rows_fails(start, lines, (row + 1) as nat, height as nat);
                    }
                    return Err(BoardError::InvalidBoard);
                }
                col += 1;
            }
            row += 1;
        }
        Ok(board)
    }

    /// The number of cells along one side of the grid.
    pub fn side(&self) -> (n: usize)
        requires
            self.wf(),
        ensures
            n == self@.side(),
    {
        assert(self@.rows.len() == self.rows@.len());
        self.rows.len() * 2 - 1
    }

    /// The words that still lack a letter, each with the cells it runs
    /// through: the words across from the top, then the words down from the
    /// left.
    pub fn get_all_words(&self) -> (words: Vec<(Constraint, Vec<(usize, usize)>)>)
        requires
            self.wf(),
        ensures
            word_list(words@) == self@.open_words(),
    {
        let len = self.side();
        let mut ret: Vec<(Constraint, Vec<(usize, usize)>)> = Vec::new();
        let mut row: usize = 0;
        while row < self.rows.len()
            invariant
                row <= self.rows.len(),
                self.wf(),
                len == self@.side(),
                word_list(ret@) == self@.open_rows(row as nat),
            decreases self.rows.len() - row,
        {
            let constraint = &self.rows[row];
            assert(self@.rows[row as int] == constraint@);
            if constraint.num_set() != len {
                let ghost before = word_list(ret@);
                ret.push((constraint.clone(), cells_across(row * 2, len)));
                assert(word_list(ret@) =~= before.push(
                    (constraint@, row_cells((2 * row) as usize, len as nat)),
                ));
            }
            row += 1;
        }
        let ghost across = word_list(ret@);
        let mut col: usize = 0;
        while col < self.cols.len()
            invariant
                col <= self.cols.len(),
                self.wf(),
                len == self@.side(),
                across == self@.open_rows(self@.rows.len()),
                word_list(ret@) == across + self@.open_cols(col as nat),
            decreases self.cols.len() - col,
        {
            let constraint = &self.cols[col];
            assert(self@.cols[col as int] == constraint@);
            if constraint.num_set() != len {
                let ghost before = word_list(ret@);
                ret.push((constraint.clone(), cells_down(col * 2, len)));
                assert(word_list(ret@) =~= before.push(
                    (constraint@, col_cells((2 * col) as usize, len as nat)),
                ));
            }
            col += 1;
        }
        ret
    }

    /// The grid as text: a line for each row, in it the letter of each cell
    /// or a blank.
    pub fn to_string(&self) -> (text: String)
        requires
            self.wf(),
        ensures
            text@ == self@.drawn(),
    {
        let len = self.side();
        let mut lines: Vec<String> = Vec::new();
        let mut row: usize = 0;
        while row < len
            invariant
                row <= len,
                self.wf(),
                len == self@.side(),
                texts_of(lines@) == Seq::new(row as nat, |r: int| self@.drawn_row(r as usize)),
            decreases len - row,
        {
            let mut cur_row: Vec<char> = Vec::new();
            let mut col: usize = 0;
            while col < len
                invariant
                    col <= len,
                    row < len,
                    self.wf(),
                    len == self@.side(),
                    cur_row@ == self@.drawn_row(row).take(col as int),
                decreases len - col,
            {
                let cur_cell = match self.get(row, col) {
                    Some(c) => c,
                    None => ' ',
                };
                cur_row.push(cur_cell);
                assert(cur_row@ =~= self@.drawn_row(row).take(col + 1));
                col += 1;
            }
            assert(cur_row@ =~= self@.drawn_row(row));
            let ghost before = texts_of(lines@);
            lines.push(string_of(&cur_row));
            assert(texts_of(lines@) =~= before.push(self@.drawn_row(row)));
            assert(texts_of(lines@) =~= Seq::new(
                (row + 1) as nat,
                |r: int| self@.drawn_row(r as usize),
            ));
            row += 1;
        }
        proof {
            reveal_strlit("\n");
            assert("\n"@ =~= seq!['\n']);
        }
        join_lines(&lines, "\n")
    }
}

/// A letter placed where it may be asked for leaves the board well formed,
/// and is read from its cell afterwards if the cell lies on a word.
pub proof fn lemma_place_wf(v: BoardView, row: usize, col: usize, val: char)
    requires
        v.wf(),
        v.accepts(row, col, val),
        v.place(row, col, val) is Some,
    ensures
        v.place(row, col, val)->0.wf(),
        v.place(row, col, val)->0.rows.len() == v.rows.len(),
        row % 2 == 0 || col % 2 == 0 ==> v.place(row, col, val)->0.letter(row, col) == Some(val),
{
    let next = v.place(row, col, val)->0;
    if v.letter(row, col) is None {
        assert forall|r: usize, c: usize| r < next.rows.len() && c < next.cols.len() implies
            #[trigger] lookup(next.rows[r as int], (2 * c) as usize) == #[trigger] lookup(
            next.cols[c as int],
            (2 * r) as usize,
        ) by {
            assert(lookup(v.rows[r as int], (2 * c) as usize) == lookup(
                v.cols[c as int],
                (2 * r) as usize,
            ));
        }
    }
}

} // verus!
