//! The pairwise feedback cache: one write-once cell for every pair of a
//! guessed word and a candidate answer, filled on first use and never
//! changed after that.

use crate::correctness::{feedback, is_word, lemma_feedback_of_answer, Correctness};
use crate::dictionary::{all_words, entry_words, Entry};
use crate::pattern::{enumerate_mask, lemma_index_of_all_correct, mask_index, MAX_MASK_ENUM};
use once_cell::sync::OnceCell;
use vstd::prelude::*;

verus! {

/// `once_cell::sync::OnceCell`, a cell that is written at most once. Nothing
/// is known of a cell but what `cell_value` says it holds.
#[verifier::external_type_specification]
#[verifier::external_body]
#[verifier::reject_recursive_types(T)]
pub struct ExOnceCell<T>(OnceCell<T>);

/// What a cell holds: nothing, or the one value it was filled with.
pub uninterp spec fn cell_value(cell: OnceCell<u8>) -> Option<u8>;

/// `once_cell::sync::OnceCell::new`: the cell it returns is empty.
#[verifier::external_body]
fn empty_cell() -> (cell: OnceCell<u8>)
    ensures
        cell_value(cell) is None,
{
    OnceCell::new()
}

/// `once_cell::sync::OnceCell::get_or_init`, with the index of the mask of
/// `guess` against `answer` as the value for an empty cell. A filled cell
/// hands out what it holds and stays as it is; an empty one is filled with
/// that index and hands it out.
#[verifier::external_body]
fn get_enumeration(cell: &mut OnceCell<u8>, answer: &str, guess: &str) -> (index: u8)
    requires
        is_word(answer@),
        is_word(guess@),
    ensures
        cell_value(*final(cell)) == Some(index),
        cell_value(*old(cell)) matches Some(held) ==> index == held,
        cell_value(*old(cell)) is None ==> index == mask_index(feedback(answer@, guess@)),
{
    *cell.get_or_init(|| cachable_enumeration(answer, guess))
}

/// The index of the mask that `guess` earns against `answer`.
pub fn cachable_enumeration(answer: &str, guess: &str) -> (index: u8)
    requires
        is_word(answer@),
        is_word(guess@),
    ensures
        index == mask_index(feedback(answer@, guess@)),
        index < MAX_MASK_ENUM,
{
    enumerate_mask(&Correctness::compute(answer, guess)) as u8
}

/// A word guessed against itself has index 0, the index of the mask of a
/// solved game.
pub proof fn lemma_enumeration_of_answer(word: Seq<char>)
    requires
        is_word(word),
    ensures
        mask_index(feedback(word, word)) == 0,
{
    lemma_feedback_of_answer(word);
    lemma_index_of_all_correct();
}

/// Where the cell for guess `guess_idx` and candidate `candidate_idx` lies in
/// a table of `dimension` rows of `dimension` cells.
pub open spec fn slot(dimension: int, guess_idx: int, candidate_idx: int) -> int {
    guess_idx * dimension + candidate_idx
}

/// Each pair of a row and a place in the row has a slot of its own, inside
/// the table.
proof fn lemma_slot(dimension: int, g1: int, c1: int, g2: int, c2: int)
    by (nonlinear_arith)
    requires
        0 <= g1 < dimension,
        0 <= c1 < dimension,
        0 <= g2 < dimension,
        0 <= c2 < dimension,
    ensures
        0 <= g1 * dimension + c1 < dimension * dimension,
        g1 * dimension + dimension <= dimension * dimension,
        (g1 * dimension + c1 == g2 * dimension + c2) ==> (g1 == g2 && c1 == c2),
{
    if g1 < g2 {
        assert((g1 + 1) * dimension <= g2 * dimension);
    }
    if g2 < g1 {
        assert((g2 + 1) * dimension <= g1 * dimension);
    }
    assert((g1 + 1) * dimension <= dimension * dimension);
}

/// A square table of cells, one row for each word that may be guessed and
/// one cell in it for each word that may be the answer.
pub struct FeedbackCache {
    dimension: usize,
    cells: Vec<OnceCell<u8>>,
}

impl FeedbackCache {
    /// The number of rows, which is also the length of each row.
    pub closed spec fn dimension(&self) -> nat {
        self.dimension as nat
    }

    /// What the cell for a guess and a candidate holds.
    pub closed spec fn held(&self, guess_idx: int, candidate_idx: int) -> Option<u8> {
        cell_value(self.cells@[slot(self.dimension as int, guess_idx, candidate_idx)])
    }

    /// The table has a cell for every pair of words, and every filled cell
    /// holds the index of the mask that its guess earns against its
    /// candidate.
    pub closed spec fn wf(&self, words: Seq<Seq<char>>) -> bool {
        &&& self.dimension == words.len()
        &&& self.cells@.len() == self.dimension * self.dimension
        &&& forall|g: int, c: int|
            0 <= g < self.dimension && 0 <= c < self.dimension ==> (#[trigger] self.held(g, c)
                matches Some(v) ==> v == mask_index(feedback(words[c], words[g])))
    }

    /// A table for `dimension` words with every cell empty.
    pub fn new(dimension: usize) -> (cache: FeedbackCache)
        requires
            dimension * dimension <= usize::MAX,
        ensures
            cache.dimension() == dimension,
            forall|words: Seq<Seq<char>>| words.len() == dimension ==> cache.wf(words),
            forall|g: int, c: int|
                0 <= g < dimension && 0 <= c < dimension ==> cache.held(g, c) is None,
    {
        let size: usize = dimension * dimension;
        let mut cells: Vec<OnceCell<u8>> = Vec::with_capacity(size);
        let mut i: usize = 0;
        while i < size
            invariant
                i <= size,
                cells@.len() == i,
                forall|k: int| 0 <= k < i ==> cell_value(#[trigger] cells@[k]) is None,
            decreases size - i,
        {
            cells.push(empty_cell());
            i += 1;
        }
        let cache = FeedbackCache { dimension, cells };
        proof {
            assert forall|g: int, c: int|
                0 <= g < dimension && 0 <= c < dimension implies #[trigger] cache.held(g, c)
                is None by {
                lemma_slot(dimension as int, g, c, g, c);
            }
        }
        cache
    }

    /// Where the row of the guess `guess_idx` starts among the cells.
    fn get_row(&self, guess_idx: usize) -> (start: usize)
        requires
            guess_idx < self.dimension,
            self.cells@.len() == self.dimension * self.dimension,
        ensures
            start == slot(self.dimension as int, guess_idx as int, 0),
            start + self.dimension <= self.cells@.len(),
    {
        proof {
            lemma_slot(self.dimension as int, guess_idx as int, 0, guess_idx as int, 0);
            assert(self.cells.len() == self.cells@.len());
        }
        guess_idx * self.dimension
    }

    /// The index of the mask that the word at `guess_idx` earns against the
    /// word at `candidate_idx`, computed on the first request for that pair
    /// and kept for the later ones.
    pub fn enumeration(&mut self, words: &Vec<Entry>, guess_idx: usize, candidate_idx: usize) -> (index:
        u8)
        requires
            old(self).wf(entry_words(words@)),
            all_words(words@),
            guess_idx < words@.len(),
            candidate_idx < words@.len(),
        ensures
            final(self).wf(entry_words(words@)),
            final(self).dimension() == old(self).dimension(),
            index == mask_index(
                feedback(words@[candidate_idx as int].word@, words@[guess_idx as int].word@),
            ),
            final(self).held(guess_idx as int, candidate_idx as int) == Some(index),
            forall|g: int, c: int|
                0 <= g < old(self).dimension() && 0 <= c < old(self).dimension() && (g != guess_idx
                    || c != candidate_idx || old(self).held(g, c) is Some) ==> final(self).held(g, c)
                    == #[trigger] old(self).held(g, c),
    {
        let start = self.get_row(guess_idx);
        let ghost dimension = self.dimension as int;
        let ghost before = self.cells@;
        let ghost names = entry_words(words@);
        proof {
            assert(self.cells.len() == self.cells@.len());
            lemma_slot(
                dimension,
                guess_idx as int,
                candidate_idx as int,
                guess_idx as int,
                candidate_idx as int,
            );
            assert(old(self).held(guess_idx as int, candidate_idx as int) matches Some(v) ==> v
                == mask_index(feedback(names[candidate_idx as int], names[guess_idx as int])));
        }
        let cell = &mut self.cells[start + candidate_idx];
        let index = get_enumeration(
            cell,
            words[candidate_idx].word.as_str(),
            words[guess_idx].word.as_str(),
        );
        proof {
            assert forall|g: int, c: int|
                0 <= g < self.dimension && 0 <= c < self.dimension implies (
            #[trigger] self.held(g, c) matches Some(v) ==> v == mask_index(
                feedback(names[c], names[g]),
            )) by {
                lemma_slot(dimension, g, c, guess_idx as int, candidate_idx as int);
                if g != guess_idx || c != candidate_idx {
                    assert(self.cells@[slot(dimension, g, c)] == before[slot(dimension, g, c)]);
                    assert(old(self).held(g, c) == self.held(g, c));
                }
            }
            assert forall|g: int, c: int|
                0 <= g < old(self).dimension() && 0 <= c < old(self).dimension() && (g != guess_idx
                    || c != candidate_idx || old(self).held(g, c) is Some) implies self.held(g, c)
                == #[trigger] old(self).held(g, c) by {
                lemma_slot(dimension, g, c, guess_idx as int, candidate_idx as int);
                if g != guess_idx || c != candidate_idx {
                    assert(self.cells@[slot(dimension, g, c)] == before[slot(dimension, g, c)]);
                }
            }
        }
        index
    }
}

} // verus!
