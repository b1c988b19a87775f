//! Filling a board of words from a list of words: one open word after the
//! other, each with every word of the list that fits.

use vstd::prelude::*;

use crate::constraints::{
    agrees, col_cells, lemma_place_wf, lookup, row_cells, BoardView, ConstraintBoard,
};
use vstd::set_lib::{lemma_len_subset, lemma_subset_equality};

verus! {

/// The board after `val` has been asked for `cell`, if it may be asked for
/// there and is left to be placed.
pub open spec fn place_checked(v: BoardView, cell: (usize, usize), val: char) -> Option<
    BoardView,
> {
    if v.accepts(cell.0, cell.1, val) {
        v.place(cell.0, cell.1, val)
    } else {
        None
    }
}

/// The board after the first `n` letters of `word` have been placed in the
/// first `n` of `cells`, in order; `None` once a letter could not be placed.
pub open spec fn spell(v: BoardView, word: Seq<char>, cells: Seq<(usize, usize)>, n: nat) -> Option<
    BoardView,
>
    decreases n,
{
    if n == 0 {
        Some(v)
    } else {
        match spell(v, word, cells, (n - 1) as nat) {
            Some(b) => place_checked(b, cells[n - 1], word[n - 1]),
            None => None,
        }
    }
}

/// The board after `word` has been written into `cells`, letter by letter.
/// There is none where the word has not as many letters as there are cells,
/// or where one of its letters cannot be placed.
pub open spec fn tried(v: BoardView, word: Seq<char>, cells: Seq<(usize, usize)>) -> Option<
    BoardView,
> {
    if word.len() != cells.len() {
        None
    } else {
        spell(v, word, cells, word.len())
    }
}

/// A letter that could not be placed ends the writing of the word.
pub proof fn lemma_spell_fails(
    v: BoardView,
    word: Seq<char>,
    cells: Seq<(usize, usize)>,
    n: nat,
    m: nat,
)
    requires
        n <= m,
        spell(v, word, cells, n) is None,
    ensures
        spell(v, word, cells, m) is None,
    decreases m,
{
    if m > n {
        lemma_spell_fails(v, word, cells, n, (m - 1) as nat);
    }
}

/// The board with `word` written into the cells `indices`, letter by
/// letter, each letter taken from those still to be placed. The answer is
/// `None` where the word has not as many letters as there are cells, where
/// a cell lies outside the grid or holds another letter, and where a letter
/// is not left to be placed.
pub fn try_word(board: ConstraintBoard, word: &str, indices: &[(usize, usize)]) -> (r: Option<
    ConstraintBoard,
>)
    requires
        board.wf(),
    ensures
        match r {
            Some(next) => tried(board@, word@, indices@) == Some(next@) && next.wf(),
            None => tried(board@, word@, indices@) is None,
        },
{
    let n = word.unicode_len();
    if n != indices.len() {
        return None;
    }
    let mut cur = board;
    let mut i: usize = 0;
    while i < n
        invariant
            i <= n,
            n == word@.len(),
            n == indices@.len(),
            cur.wf(),
            spell(board@, word@, indices@, i as nat) == Some(cur@),
        decreases n - i,
    {
        let c = word.get_char(i);
        let cell = indices[i];
        let mut next: Option<ConstraintBoard> = None;
        if cur.accepts(cell.0, cell.1, c) {
            next = cur.with(cell.0, cell.1, c);
        }
        match next {
            Some(b) => {
                cur = b;
            },
            None => {
                proof {
                    assert(place_checked(cur@, indices@[i as int], word@[i as int]) is None);
                    assert(spell(board@, word@, indices@, (i + 1) as nat) is None);
                    lemma_spell_fails(board@, word@, indices@, (i + 1) as nat, n as nat);
                }
                return None;
            },
        }
        i += 1;
    }
    Some(cur)
}

/// The positions of a word of `side` letters.
pub open spec fn full(side: nat) -> Set<usize> {
    Set::new(|k: usize| k < side)
}

/// A word of `side` letters has `side` positions.
pub proof fn lemma_full_len(side: nat)
    requires
        side <= usize::MAX,
    ensures
        full(side).finite(),
        full(side).len() == side,
    decreases side,
{
    if side == 0 {
        assert(full(side) =~= Set::<usize>::empty());
    } else {
        lemma_full_len((side - 1) as nat);
        assert(full(side) =~= full((side - 1) as nat).insert((side - 1) as usize));
    }
}

/// A word with letters fixed inside it only has a letter at every position
/// exactly when as many letters are fixed as it has positions.
pub proof fn lemma_word_full(m: Map<usize, char>, side: nat)
    requires
        side <= usize::MAX,
        forall|k: usize| m.contains_key(k) ==> k < side,
    ensures
        m.dom().finite(),
        m.len() <= side,
        m.len() == side <==> forall|k: usize| k < side ==> m.contains_key(k),
{
    lemma_full_len(side);
    assert(m.dom().subset_of(full(side)));
    lemma_len_subset(m.dom(), full(side));
    if m.len() == side {
        lemma_subset_equality(m.dom(), full(side));
        assert forall|k: usize| k < side implies m.contains_key(k) by {
            assert(full(side).contains(k));
        }
    }
    if forall|k: usize| k < side ==> m.contains_key(k) {
        assert(m.dom() =~= full(side));
    }
}

/// Every letter fixed in `v` is fixed in `b`, which has as many words.
pub open spec fn grown(v: BoardView, b: BoardView) -> bool {
    &&& b.rows.len() == v.rows.len()
    &&& b.cols.len() == v.cols.len()
    &&& forall|r: int, k: usize|
        0 <= r < v.rows.len() && v.rows[r].contains_key(k) ==> #[trigger] b.rows[r].contains_key(k)
    &&& forall|c: int, k: usize|
        0 <= c < v.cols.len() && v.cols[c].contains_key(k) ==> #[trigger] b.cols[c].contains_key(k)
}

/// Each cell lies on a word: in an even row or in an even column.
pub open spec fn on_words(cells: Seq<(usize, usize)>) -> bool {
    forall|i: int| 0 <= i < cells.len() ==> (#[trigger] cells[i]).0 % 2 == 0 || cells[i].1 % 2 == 0
}

/// Writing letters into cells that lie on words fixes a letter in each of
/// them, and unfixes none.
pub proof fn lemma_spell_grows(
    v: BoardView,
    word: Seq<char>,
    cells: Seq<(usize, usize)>,
    n: nat,
)
    requires
        v.wf(),
        n <= cells.len(),
        on_words(cells),
        spell(v, word, cells, n) is Some,
    ensures
        spell(v, word, cells, n)->0.wf(),
        grown(v, spell(v, word, cells, n)->0),
        forall|i: int|
            0 <= i < n ==> (#[trigger] cells[i]).0 < v.side() && cells[i].1 < v.side() && spell(
                v,
                word,
                cells,
                n,
            )->0.letter(cells[i].0, cells[i].1) is Some,
    decreases n,
{
    if n > 0 {
        let m = (n - 1) as nat;
        if spell(v, word, cells, m) is None {
            lemma_spell_fails(v, word, cells, m, m);
        }
        lemma_spell_grows(v, word, cells, m);
        let b = spell(v, word, cells, m)->0;
        let after = spell(v, word, cells, n)->0;
        let (row, col) = cells[m as int];
        lemma_place_wf(b, row, col, word[m as int]);
        assert(grown(b, after));
        assert(after.letter(row, col) is Some);
        assert forall|i: int| 0 <= i < n implies (#[trigger] cells[i]).0 < v.side() && cells[i].1
            < v.side() && after.letter(cells[i].0, cells[i].1) is Some by {
            if i < m {
                let (r, c) = cells[i];
                assert(b.letter(r, c) is Some);
                if r % 2 == 0 {
                    assert(b.rows[r as int / 2].contains_key(c));
                } else {
                    assert(b.cols[c as int / 2].contains_key(r));
                }
            }
        }
    }
}

/// Growing a board opens no word across: among the first `n`, no more are
/// open than were, and one fewer if word `r0` was open and is not any more.
pub proof fn lemma_open_rows_shrink(v: BoardView, b: BoardView, n: nat, r0: int)
    requires
        v.wf(),
        b.wf(),
        grown(v, b),
        n <= v.rows.len(),
    ensures
        b.open_rows(n).len() + (if 0 <= r0 < n && v.rows[r0].len() != v.side() && b.rows[r0].len()
            == v.side() {
            1nat
        } else {
            0nat
        }) <= v.open_rows(n).len(),
    decreases n,
{
    if n > 0 {
        let m = (n - 1) as nat;
        lemma_open_rows_shrink(v, b, m, r0);
        lemma_word_full(v.rows[m as int], v.side());
        lemma_word_full(b.rows[m as int], v.side());
        if v.rows[m as int].len() == v.side() {
            assert forall|k: usize| k < v.side() implies b.rows[m as int].contains_key(k) by {
                assert(v.rows[m as int].contains_key(k));
            }
        }
    }
}

/// Growing a board opens no word down: as `lemma_open_rows_shrink`.
pub proof fn lemma_open_cols_shrink(v: BoardView, b: BoardView, n: nat, c0: int)
    requires
        v.wf(),
        b.wf(),
        grown(v, b),
        n <= v.cols.len(),
    ensures
        b.open_cols(n).len() + (if 0 <= c0 < n && v.cols[c0].len() != v.side() && b.cols[c0].len()
            == v.side() {
            1nat
        } else {
            0nat
        }) <= v.open_cols(n).len(),
    decreases n,
{
    if n > 0 {
        let m = (n - 1) as nat;
        lemma_open_cols_shrink(v, b, m, c0);
        lemma_word_full(v.cols[m as int], v.side());
        lemma_word_full(b.cols[m as int], v.side());
        if v.cols[m as int].len() == v.side() {
            assert forall|k: usize| k < v.side() implies b.cols[m as int].contains_key(k) by {
                assert(v.cols[m as int].contains_key(k));
            }
        }
    }
}

/// The first open word across among the first `n`, where there is one.
pub proof fn lemma_first_open_row(v: BoardView, n: nat) -> (r0: int)
    requires
        v.open_rows(n).len() > 0,
    ensures
        0 <= r0 < n,
        v.rows[r0].len() != v.side(),
        v.open_rows(n)[0] == (v.rows[r0], row_cells((2 * r0) as usize, v.side())),
    decreases n,
{
    let m = (n - 1) as nat;
    if v.open_rows(m).len() > 0 {
        lemma_first_open_row(v, m)
    } else {
        m as int
    }
}

/// The first open word down among the first `n`, where there is one.
pub proof fn lemma_first_open_col(v: BoardView, n: nat) -> (c0: int)
    requires
        v.open_cols(n).len() > 0,
    ensures
        0 <= c0 < n,
        v.cols[c0].len() != v.side(),
        v.open_cols(n)[0] == (v.cols[c0], col_cells((2 * c0) as usize, v.side())),
    decreases n,
{
    let m = (n - 1) as nat;
    if v.open_cols(m).len() > 0 {
        lemma_first_open_col(v, m)
    } else {
        m as int
    }
}

/// A word written into the cells of the first open word leaves fewer open
/// words than there were.
pub proof fn lemma_first_word_closes(v: BoardView, word: Seq<char>)
    requires
        v.wf(),
        v.open_words().len() > 0,
        tried(v, word, v.open_words()[0].1) is Some,
    ensures
        tried(v, word, v.open_words()[0].1)->0.wf(),
        tried(v, word, v.open_words()[0].1)->0.open_words().len() < v.open_words().len(),
{
    let side = v.side();
    let n = v.rows.len();
    let cells = v.open_words()[0].1;
    let next = tried(v, word, cells)->0;
    if v.open_rows(n).len() > 0 {
        let r0 = lemma_first_open_row(v, n);
        assert(cells == row_cells((2 * r0) as usize, side));
        assert(on_words(cells));
        lemma_spell_grows(v, word, cells, side);
        assert forall|k: usize| k < side implies next.rows[r0].contains_key(k) by {
            assert(cells[k as int] == ((2 * r0) as usize, k));
            assert(next.letter(cells[k as int].0, cells[k as int].1) is Some);
        }
        lemma_word_full(next.rows[r0], side);
        lemma_open_rows_shrink(v, next, n, r0);
        lemma_open_cols_shrink(v, next, n, -1);
    } else {
        let c0 = lemma_first_open_col(v, n);
        assert(v.open_words() =~= v.open_cols(n));
        assert(cells == col_cells((2 * c0) as usize, side));
        assert(on_words(cells));
        lemma_spell_grows(v, word, cells, side);
        assert forall|k: usize| k < side implies next.cols[c0].contains_key(k) by {
            assert(cells[k as int] == (k, (2 * c0) as usize));
            assert(next.letter(cells[k as int].0, cells[k as int].1) is Some);
            if k % 2 == 0 {
                let r = (k / 2) as usize;
                assert(lookup(next.rows[r as int], (2 * c0) as usize) == lookup(
                    next.cols[c0],
                    (2 * r) as usize,
                ));
            }
        }
        lemma_word_full(next.cols[c0], side);
        lemma_open_rows_shrink(v, next, n, -1);
        lemma_open_cols_shrink(v, next, n, c0);
    }
}

/// The boards without an open word that can be made of `v` with the words
/// of `words`. A board without an open word is the only one made of itself.
/// Else the first open word is written with each word of the list that
/// agrees with its fixed letters, in the order of the list, and the boards
/// made of each result follow one another.
pub open spec fn solutions(v: BoardView, words: Seq<Seq<char>>) -> Seq<BoardView>
    decreases v.open_words().len(), 1nat, 0nat,
    when v.wf()
{
    if v.open_words().len() == 0 {
        seq![v]
    } else {
        extensions(v, words, words.len())
    }
}

/// The boards made of `v`, which has an open word, with the first `n` words
/// of the list written into its first open word.
pub open spec fn extensions(v: BoardView, words: Seq<Seq<char>>, n: nat) -> Seq<BoardView>
    decreases v.open_words().len(), 0nat, n,
    when v.wf() && v.open_words().len() > 0
{
    if n == 0 {
        Seq::empty()
    } else {
        let earlier = extensions(v, words, (n - 1) as nat);
        let word = words[n - 1];
        if agrees(v.open_words()[0].0, word) && tried(v, word, v.open_words()[0].1) is Some {
            proof {
                lemma_first_word_closes(v, word);
            }
            earlier + solutions(tried(v, word, v.open_words()[0].1)->0, words)
        } else {
            earlier
        }
    }
}

/// The boards that a vector of boards holds.
pub open spec fn boards_of(boards: Seq<ConstraintBoard>) -> Seq<BoardView> {
    Seq::new(boards.len(), |i: int| boards[i]@)
}

/// The words that a list of strings holds.
pub open spec fn words_of_list(words: Seq<&str>) -> Seq<Seq<char>> {
    Seq::new(words.len(), |i: int| words[i]@)
}

/// Every way to fill the open words of `board` with words of `wordlist`,
/// each as the board that it gives, in the order in which the words are
/// tried: the first open word with the first word of the list that fits
/// comes first.
pub fn find_solutions(board: ConstraintBoard, wordlist: &[&str]) -> (found: Vec<ConstraintBoard>)
    requires
        board.wf(),
    ensures
        boards_of(found@) == solutions(board@, words_of_list(wordlist@)),
        forall|i: int| 0 <= i < found@.len() ==> (#[trigger] found@[i]).wf(),
    decreases board@.open_words().len(),
{
    let ghost words = words_of_list(wordlist@);
    let open = board.get_all_words();
    let mut found: Vec<ConstraintBoard> = Vec::new();
    if open.len() == 0 {
        found.push(board);
        assert(boards_of(found@) =~= seq![board@]);
        return found;
    }
    let constraint = &open[0].0;
    let indices = &open[0].1;
    assert(board@.open_words()[0] == (constraint@, indices@));
    let mut k: usize = 0;
    while k < wordlist.len()
        invariant
            k <= wordlist.len(),
            board.wf(),
            board@.open_words().len() > 0,
            board@.open_words()[0] == (constraint@, indices@),
            words == words_of_list(wordlist@),
            boards_of(found@) == extensions(board@, words, k as nat),
            forall|i: int| 0 <= i < found@.len() ==> (#[trigger] found@[i]).wf(),
        decreases wordlist.len() - k,
    {
        let word = wordlist[k];
        assert(words[k as int] == word@);
        let ghost earlier = boards_of(found@);
        if constraint.matches(word) {
            match try_word(board.clone(), word, indices.as_slice()) {
                Some(next) => {
                    proof {
                        lemma_first_word_closes(board@, word@);
                    }
                    let mut more = find_solutions(next, wordlist);
                    let ghost tail = boards_of(more@);
                    found.append(&mut more);
                    assert(boards_of(found@) =~= earlier + tail);
                },
                None => {},
            }
        }
        k += 1;
    }
    found
}

} // verus!
