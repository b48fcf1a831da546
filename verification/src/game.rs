//! The game itself: which words may be guessed, and how a guess is answered.

use crate::correctness::{
    all_correct, feedback, is_letter, is_word, lemma_all_correct_is_answer,
    lemma_feedback_of_answer, letter_codes, word_bytes, Correctness,
};
use crate::dictionary::{all_words, valid_word, Entry};
use crate::guess::Guess;
use std::borrow::Cow;
use std::collections::HashSet;
use vstd::prelude::*;
use vstd::string::StringExecFns;

verus! {

broadcast use vstd::std_specs::hash::group_hash_axioms;

/// Wordle only allows six guesses.
pub const ALLOWED_GUESSES: usize = 6;

/// A game played for its score goes on for longer, so that the scores of slow
/// games are counted rather than cut off.
pub const MAX_TURNS: usize = 32;

/// Where a round stands after a guess.
#[derive(Debug, Clone, Copy, PartialEq, Eq, Structural)]
pub enum Progress {
    /// The guess was the answer. The round took this many guesses.
    Solved(usize),
    /// The guess was recorded, and another may follow.
    Open,
    /// The guess was recorded, and it was the last one allowed.
    Lost,
    /// The guess is no word of the dictionary. Nothing was recorded.
    Rejected,
    /// The round was over before the guess. Nothing was recorded.
    Over,
}

/// What a history records, turn by turn: the word that was guessed and the
/// mask it was answered with.
pub open spec fn record_views(history: Seq<Guess<'static>>) -> Seq<(Seq<char>, Seq<Correctness>)> {
    Seq::new(history.len(), |i: int| (history[i].word@, history[i].mask@))
}

/// Tells whether a mask is that of a solved game.
pub fn is_solved(mask: &[Correctness; 5]) -> (solved: bool)
    ensures
        solved == (mask@ == all_correct()),
{
    let mut i: usize = 0;
    while i < 5
        invariant
            i <= 5,
            forall|k: int| 0 <= k < i ==> mask@[k] == Correctness::Correct,
        decreases 5 - i,
    {
        if mask[i] != Correctness::Correct {
            proof {
                assert(all_correct()[i as int] == Correctness::Correct);
            }
            return false;
        }
        i += 1;
    }
    proof {
        assert(mask@ =~= all_correct());
    }
    true
}

/// One round of the game: the guesses made so far with their masks, and the
/// number of guesses allowed.
pub struct Round {
    history: Vec<Guess<'static>>,
    limit: usize,
}

impl Round {
    /// The guesses made so far, each with its mask.
    pub closed spec fn records(&self) -> Seq<(Seq<char>, Seq<Correctness>)> {
        record_views(self.history@)
    }

    /// The number of guesses allowed.
    pub closed spec fn limit(&self) -> nat {
        self.limit as nat
    }

    /// The round takes no further guess: the answer was found, or the
    /// guesses are used up.
    pub open spec fn is_over(&self) -> bool {
        ||| self.records().len() >= self.limit()
        ||| self.records().len() > 0 && self.records().last().1 == all_correct()
    }

    /// A round of up to `limit` guesses, with none made yet.
    pub fn new(limit: usize) -> (round: Round)
        ensures
            round.records() == Seq::<(Seq<char>, Seq<Correctness>)>::empty(),
            round.limit() == limit,
    {
        let round = Round { history: Vec::new(), limit };
        proof {
            assert(round.records() =~= Seq::<(Seq<char>, Seq<Correctness>)>::empty());
        }
        round
    }

    /// The guesses made so far, each with its mask.
    pub fn history(&self) -> (history: &Vec<Guess<'static>>)
        ensures
            record_views(history@) == self.records(),
    {
        &self.history
    }

    /// Tells whether the round takes no further guess.
    pub fn over(&self) -> (over: bool)
        ensures
            over == self.is_over(),
    {
        let len = self.history.len();
        if len >= self.limit {
            return true;
        }
        if len == 0 {
            return false;
        }
        proof {
            assert(self.records().last() == (
                self.history@[len - 1].word@,
                self.history@[len - 1].mask@,
            ));
        }
        is_solved(&self.history[len - 1].mask)
    }

    /// Takes in a guess and the mask it was answered with. A round that is
    /// over records nothing; any other records the guess, and is solved by a
    /// mask that is all correct and lost when no further guess is allowed.
    pub fn observe(&mut self, guess: String, mask: [Correctness; 5]) -> (progress: Progress)
        ensures
            final(self).limit() == old(self).limit(),
            old(self).is_over() ==> progress == Progress::Over && final(self).records() == old(
                self,
            ).records(),
            !old(self).is_over() ==> {
                &&& final(self).records() == old(self).records().push((guess@, mask@))
                &&& progress == if mask@ == all_correct() {
                    Progress::Solved(final(self).records().len() as usize)
                } else if final(self).records().len() == old(self).limit() {
                    Progress::Lost
                } else {
                    Progress::Open
                }
            },
    {
        if self.over() {
            return Progress::Over;
        }
        let solved = is_solved(&mask);
        let ghost before = self.history@;
        self.history.push(Guess { word: Cow::Owned(guess), mask });
        proof {
            assert(record_views(self.history@) =~= record_views(before).push((guess@, mask@)));
        }
        let turns = self.history.len();
        if solved {
            Progress::Solved(turns)
        } else if turns == self.limit {
            Progress::Lost
        } else {
            Progress::Open
        }
    }
}

/// The place of a letter in the alphabet, from 0 for `a`.
pub open spec fn letter_rank(c: char) -> int {
    c as int - 97
}

/// The number that stands for a word: its letters read as the digits of a
/// number in base 26, the first letter most significant.
pub open spec fn word_code(word: Seq<char>) -> int
    decreases word.len(),
{
    if word.len() == 0 {
        0
    } else {
        26 * word_code(word.drop_last()) + letter_rank(word.last())
    }
}

/// The code of a word, written out letter by letter.
proof fn lemma_word_code_digits(word: Seq<char>)
    requires
        is_word(word),
    ensures
        word_code(word) == 456976 * letter_rank(word[0]) + 17576 * letter_rank(word[1]) + 676
            * letter_rank(word[2]) + 26 * letter_rank(word[3]) + letter_rank(word[4]),
        0 <= word_code(word) < 11881376,
{
    let w4 = word.drop_last();
    let w3 = w4.drop_last();
    let w2 = w3.drop_last();
    let w1 = w2.drop_last();
    let w0 = w1.drop_last();
    assert(w0.len() == 0);
    assert(word_code(w0) == 0);
    assert(word_code(w1) == 26 * word_code(w0) + letter_rank(w1.last()));
    assert(word_code(w2) == 26 * word_code(w1) + letter_rank(w2.last()));
    assert(word_code(w3) == 26 * word_code(w2) + letter_rank(w3.last()));
    assert(word_code(w4) == 26 * word_code(w3) + letter_rank(w4.last()));
    assert(word_code(word) == 26 * word_code(w4) + letter_rank(word.last()));
    assert(is_letter(word[0]) && is_letter(word[1]) && is_letter(word[2]) && is_letter(word[3])
        && is_letter(word[4]));
}

/// Two words with the same code are the same word.
pub proof fn lemma_word_code_injective(a: Seq<char>, b: Seq<char>)
    requires
        is_word(a),
        is_word(b),
        word_code(a) == word_code(b),
    ensures
        a == b,
{
    lemma_word_code_digits(a);
    lemma_word_code_digits(b);
    assert(is_letter(a[0]) && is_letter(a[1]) && is_letter(a[2]) && is_letter(a[3]) && is_letter(
        a[4],
    ));
    assert(is_letter(b[0]) && is_letter(b[1]) && is_letter(b[2]) && is_letter(b[3]) && is_letter(
        b[4],
    ));
    assert(letter_rank(a[4]) == letter_rank(b[4]));
    assert(letter_rank(a[3]) == letter_rank(b[3]));
    assert(letter_rank(a[2]) == letter_rank(b[2]));
    assert(letter_rank(a[1]) == letter_rank(b[1]));
    assert(letter_rank(a[0]) == letter_rank(b[0]));
    assert(a =~= b);
}

/// Computes the code of a word.
pub fn encode_word(word: &str) -> (code: u32)
    requires
        is_word(word@),
    ensures
        code == word_code(word@),
{
    let codes = word_bytes(word);
    let mut code: u32 = 0;
    let mut i: usize = 0;
    while i < 5
        invariant
            i <= 5,
            is_word(word@),
            codes@ == letter_codes(word@),
            code == word_code(word@.take(i as int)),
            code < pow26(i as nat),
        decreases 5 - i,
    {
        proof {
            assert(word@.take(i + 1).drop_last() =~= word@.take(i as int));
            assert(word@.take(i + 1).last() == word@[i as int]);
            assert(is_letter(word@[i as int]));
            reveal_with_fuel(pow26, 6);
        }
        code = code * 26 + (codes[i] - 97) as u32;
        i += 1;
    }
    proof {
        assert(word@.take(5) =~= word@);
    }
    code
}

/// Twenty-six to the power `n`.
pub open spec fn pow26(n: nat) -> nat
    decreases n,
{
    if n == 0 {
        1
    } else {
        26 * pow26((n - 1) as nat)
    }
}

/// The words of some entries, as a set.
pub open spec fn word_set(entries: Seq<Entry>) -> Set<Seq<char>> {
    Set::new(|word: Seq<char>| exists|i: int| 0 <= i < entries.len() && entries[i].word@ == word)
}

/// A game of Wordle over a dictionary.
pub struct Wordle {
    dictionary: HashSet<u32>,
}

impl Wordle {
    /// The words that may be guessed.
    pub closed spec fn words(&self) -> Set<Seq<char>> {
        Set::new(|word: Seq<char>| is_word(word) && self.dictionary@.contains(word_code(word) as u32))
    }

    /// A game in which the words of `dictionary` may be guessed.
    pub fn new(dictionary: &Vec<Entry>) -> (game: Wordle)
        requires
            all_words(dictionary@),
        ensures
            game.words() == word_set(dictionary@),
    {
        let mut codes: HashSet<u32> = HashSet::new();
        let mut i: usize = 0;
        while i < dictionary.len()
            invariant
                i <= dictionary@.len(),
                all_words(dictionary@),
                forall|code: u32|
                    codes@.contains(code) <==> exists|k: int|
                        0 <= k < i && word_code(#[trigger] dictionary@[k].word@) == code,
            decreases dictionary@.len() - i,
        {
            let code = encode_word(dictionary[i].word.as_str());
            let ghost before = codes@;
            codes.insert(code);
            proof {
                assert forall|c: u32| codes@.contains(c) implies exists|k: int|
                    0 <= k < i + 1 && word_code(#[trigger] dictionary@[k].word@) == c by {
                    if c == code {
                        assert(word_code(dictionary@[i as int].word@) == c);
                    } else {
                        assert(before.contains(c));
                        let k = choose|k: int|
                            0 <= k < i && word_code(#[trigger] dictionary@[k].word@) == c;
                        assert(0 <= k < i + 1 && word_code(dictionary@[k].word@) == c);
                    }
                }
                assert forall|c: u32|
                    (exists|k: int|
                        0 <= k < i + 1 && word_code(#[trigger] dictionary@[k].word@)
                            == c) implies codes@.contains(c) by {
                    let k = choose|k: int|
                        0 <= k < i + 1 && word_code(#[trigger] dictionary@[k].word@) == c;
                    if k < i {
                        assert(before.contains(c));
                    }
                }
            }
            i += 1;
        }
        let game = Wordle { dictionary: codes };
        proof {
            assert forall|word: Seq<char>| game.words().contains(word) == word_set(
                dictionary@,
            ).contains(word) by {
                if game.words().contains(word) {
                    lemma_word_code_digits(word);
                    let code = word_code(word) as u32;
                    let k = choose|k: int|
                        0 <= k < dictionary@.len() && word_code(#[trigger] dictionary@[k].word@)
                            == code;
                    lemma_word_code_digits(dictionary@[k].word@);
                    lemma_word_code_injective(dictionary@[k].word@, word);
                }
                if word_set(dictionary@).contains(word) {
                    let k = choose|k: int| 0 <= k < dictionary@.len() && dictionary@[k].word@ == word;
                    lemma_word_code_digits(dictionary@[k].word@);
                    assert(word_code(dictionary@[k].word@) == word_code(word) as u32);
                }
            }
            assert(game.words() =~= word_set(dictionary@));
        }
        game
    }

    /// Tells whether `word` may be guessed.
    pub fn contains(&self, word: &str) -> (listed: bool)
        ensures
            listed == self.words().contains(word@),
    {
        if !valid_word(word) {
            return false;
        }
        let code = encode_word(word);
        self.dictionary.contains(&code)
    }

    /// Answers a guess. A guess that is the answer, or any other word of the
    /// dictionary, is recorded with the mask it earns against `answer`;
    /// nothing else is answered.
    pub fn mark(&self, answer: &str, guess: String) -> (record: Option<Guess<'static>>)
        requires
            is_word(answer@),
        ensures
            record is Some <==> (guess@ == answer@ || self.words().contains(guess@)),
            record matches Some(turn) ==> turn.word@ == guess@ && turn.mask@ == feedback(
                answer@,
                guess@,
            ),
    {
        if !valid_word(guess.as_str()) {
            return None;
        }
        if encode_word(guess.as_str()) != encode_word(answer) && !self.contains(guess.as_str()) {
            proof {
                assert(guess@ != answer@);
            }
            return None;
        }
        proof {
            if word_code(guess@) == word_code(answer@) {
                lemma_word_code_injective(guess@, answer@);
            }
        }
        let mask = Correctness::compute(answer, guess.as_str());
        Some(Guess { word: Cow::Owned(guess), mask })
    }

    /// Plays one guess of a round for `answer`. A round that is over takes
    /// no guess. A guess that is the answer solves the round; any other
    /// guess has to be a word of the dictionary, and is recorded with the
    /// mask it earns.
    pub fn play(&self, round: &mut Round, answer: &str, guess: String) -> (progress: Progress)
        requires
            is_word(answer@),
        ensures
            final(round).limit() == old(round).limit(),
            progress == if old(round).is_over() {
                Progress::Over
            } else if guess@ == answer@ {
                Progress::Solved((old(round).records().len() + 1) as usize)
            } else if !self.words().contains(guess@) {
                Progress::Rejected
            } else if old(round).records().len() + 1 == old(round).limit() {
                Progress::Lost
            } else {
                Progress::Open
            },
            final(round).records() == if progress == Progress::Over || progress
                == Progress::Rejected {
                old(round).records()
            } else {
                old(round).records().push((guess@, feedback(answer@, guess@)))
            },
    {
        if round.over() {
            return Progress::Over;
        }
        let ghost word = guess@;
        match self.mark(answer, guess) {
            Some(record) => {
                proof {
                    if word == answer@ {
                        lemma_feedback_of_answer(word);
                    }
                    if record.mask@ == all_correct() {
                        lemma_all_correct_is_answer(answer@, word);
                    }
                }
                match record.word {
                    Cow::Owned(guessed) => round.observe(guessed, record.mask),
                    Cow::Borrowed(guessed) => round.observe(String::from_str(guessed), record.mask),
                }
            },
            None => Progress::Rejected,
        }
    }
}

} // verus!
