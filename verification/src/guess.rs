//! A guess together with the mask it was answered with.

use crate::correctness::{
    feedback, is_letter, is_word, letter_codes, lemma_unmatched_count_bound, remaining_credit,
    symbol_at, unmatched_count, word_bytes, Correctness,
};
use std::borrow::Cow;
use vstd::prelude::*;

verus! {

/// One turn of the game: the word that was guessed and the mask observed.
pub struct Guess<'a> {
    pub word: Cow<'a, str>,
    pub mask: [Correctness; 5],
}

impl<'a> Guess<'a> {
    /// The guessed word as a string slice.
    pub fn letters(&self) -> (w: &str)
        ensures
            w@ == self.word@,
    {
        match &self.word {
            Cow::Borrowed(b) => b,
            Cow::Owned(o) => o.as_str(),
        }
    }

    /// Decides whether the recorded mask is what this guess would have earned
    /// had `word` been the answer, without computing that mask.
    ///
    /// Positions marked `Correct` must agree with `word` and no others may;
    /// every other letter of the guess then claims the first unused
    /// occurrence in `word`, and has to find one exactly when it is marked
    /// `Misplaced`.
    pub fn matches(&self, word: &str) -> (consistent: bool)
        requires
            is_word(word@),
            is_word(self.word@),
        ensures
            consistent == is_consistent(word@, self.word@, self.mask@),
    {
        let guess = self.letters();
        let word_codes = word_bytes(word);
        let guess_codes = word_bytes(guess);
        let mut used = [false;5];

        // Check Correct letters.
        let mut i: usize = 0;
        while i < 5
            invariant
                i <= 5,
                is_word(word@),
                is_word(guess@),
                guess@ == self.word@,
                word_codes@ == letter_codes(word@),
                guess_codes@ == letter_codes(guess@),
                forall|k: int| 0 <= k < i ==> #[trigger] used@[k] == (word@[k] == guess@[k]),
                forall|k: int| i <= k < 5 ==> !#[trigger] used@[k],
                forall|k: int|
                    0 <= k < i ==> (#[trigger] self.mask@[k] == Correctness::Correct) == (word@[k]
                        == guess@[k]),
            decreases 5 - i,
        {
            let a: u8 = word_codes[i];
            let g: u8 = guess_codes[i];
            proof {
                assert(is_letter(word@[i as int]));
                assert(is_letter(guess@[i as int]));
                assert(feedback(word@, guess@)[i as int] == symbol_at(word@, guess@, i as int));
            }
            if a == g {
                if self.mask[i] != Correctness::Correct {
                    return false;
                }
                used[i] = true;
            } else if self.mask[i] == Correctness::Correct {
                return false;
            }
            i += 1;
        }

        proof {
            assert forall|l: char| is_letter(l) implies free_count(word@, used@, l, 5)
                == remaining_credit(word@, guess@, l, 0) by {
                lemma_free_count_initial(word@, guess@, used@, l, 5);
                lemma_unmatched_count_bound(word@, guess@, l, 5);
            }
        }

        // Check Misplaced letters.
        let mut j: usize = 0;
        while j < 5
            invariant
                j <= 5,
                is_word(word@),
                is_word(guess@),
                guess@ == self.word@,
                guess_codes@ == letter_codes(guess@),
                forall|k: int|
                    0 <= k < 5 ==> (#[trigger] self.mask@[k] == Correctness::Correct) == (word@[k]
                        == guess@[k]),
                forall|k: int|
                    0 <= k < j ==> #[trigger] self.mask@[k] == symbol_at(word@, guess@, k),
                forall|l: char|
                    is_letter(l) ==> #[trigger] free_count(word@, used@, l, 5) == remaining_credit(
                        word@,
                        guess@,
                        l,
                        j as int,
                    ),
            decreases 5 - j,
        {
            let ghost letter = guess@[j as int];
            let ghost before = used@;
            proof {
                assert(is_letter(letter));
                assert(feedback(word@, guess@)[j as int] == symbol_at(word@, guess@, j as int));
            }
            if self.mask[j] != Correctness::Correct {
                let found = Correctness::is_misplaced(guess_codes[j], word, &mut used);
                proof {
                    lemma_first_free(word@, before, letter);
                    assert forall|l: char| is_letter(l) implies #[trigger] free_count(
                        word@,
                        used@,
                        l,
                        5,
                    ) == remaining_credit(word@, guess@, l, j + 1) by {
                        if found {
                            lemma_free_count_claim(
                                word@,
                                before,
                                l,
                                first_free(word@, before, letter as u8, 0),
                                5,
                            );
                        }
                    }
                }
                if found != (self.mask[j] == Correctness::Misplaced) {
                    return false;
                }
            }
            j += 1;
        }

        // The rest will be all correctly Wrong letters.
        proof {
            assert(self.mask@ =~= feedback(word@, guess@));
        }
        true
    }
}

impl Correctness {
    /// Claims the first unused position of `answer` that holds `letter`.
    pub fn is_misplaced(letter: u8, answer: &str, used: &mut [bool; 5]) -> (found: bool)
        requires
            is_word(answer@),
        ensures
            found == (first_free(answer@, old(used)@, letter, 0) < 5),
            final(used)@ == if found {
                old(used)@.update(first_free(answer@, old(used)@, letter, 0), true)
            } else {
                old(used)@
            },
    {
        let bytes = word_bytes(answer);
        let mut i: usize = 0;
        while i < 5
            invariant
                i <= 5,
                is_word(answer@),
                bytes@ == letter_codes(answer@),
                *used == *old(used),
                first_free(answer@, used@, letter, 0) == first_free(answer@, used@, letter, i as int),
            decreases 5 - i,
        {
            if bytes[i] == letter && !used[i] {
                used[i] = true;
                return true;
            }
            i += 1;
        }
        false
    }
}

/// `word` could be the answer, given that `guess` was answered with `mask`.
pub open spec fn is_consistent(word: Seq<char>, guess: Seq<char>, mask: Seq<Correctness>) -> bool {
    feedback(word, guess) == mask
}

/// A guess recorded with the mask it earned against `answer` is consistent
/// with `answer`.
pub proof fn lemma_answer_is_consistent(answer: Seq<char>, guess: Seq<char>)
    ensures
        is_consistent(answer, guess, feedback(answer, guess)),
{
}

/// The first position at or after `from` where `answer` holds `letter` and
/// `used` is not set; the length of `answer` if there is none.
pub open spec fn first_free(answer: Seq<char>, used: Seq<bool>, letter: u8, from: int) -> int
    decreases answer.len() - from,
{
    if from < 0 || from >= answer.len() {
        answer.len() as int
    } else if answer[from] as u8 == letter && !used[from] {
        from
    } else {
        first_free(answer, used, letter, from + 1)
    }
}

/// Number of positions below `n` where `word` holds `letter` and `used` is
/// not set.
spec fn free_count(word: Seq<char>, used: Seq<bool>, letter: char, n: int) -> int
    decreases n,
{
    if n <= 0 {
        0
    } else {
        free_count(word, used, letter, n - 1) + if word[n - 1] == letter && !used[n - 1] {
            1int
        } else {
            0int
        }
    }
}

/// While exactly the matching positions are used, the free occurrences of a
/// letter are its unmatched ones.
proof fn lemma_free_count_initial(
    word: Seq<char>,
    guess: Seq<char>,
    used: Seq<bool>,
    letter: char,
    n: int,
)
    requires
        forall|k: int| 0 <= k < n ==> #[trigger] used[k] == (word[k] == guess[k]),
    ensures
        free_count(word, used, letter, n) == unmatched_count(word, guess, letter, n),
    decreases n,
{
    if n > 0 {
        lemma_free_count_initial(word, guess, used, letter, n - 1);
        assert(used[n - 1] == (word[n - 1] == guess[n - 1]));
    }
}

/// Marking a free position as used takes one from the count of the letter
/// that stands there and leaves every other count as it was.
proof fn lemma_free_count_claim(word: Seq<char>, used: Seq<bool>, letter: char, k: int, n: int)
    requires
        0 <= k < used.len(),
        !used[k],
        n <= used.len(),
    ensures
        free_count(word, used.update(k, true), letter, n) == free_count(word, used, letter, n)
            - if k < n && word[k] == letter {
            1int
        } else {
            0int
        },
    decreases n,
{
    if n > 0 {
        lemma_free_count_claim(word, used, letter, k, n - 1);
    }
}

/// A count of free positions is never negative, is zero when no position
/// below `n` is free, and positive when one is.
proof fn lemma_free_count_sign(word: Seq<char>, used: Seq<bool>, letter: char, n: int)
    ensures
        0 <= free_count(word, used, letter, n),
        (free_count(word, used, letter, n) > 0) == (exists|k: int|
            0 <= k < n && word[k] == letter && !used[k]),
    decreases n,
{
    if n > 0 {
        lemma_free_count_sign(word, used, letter, n - 1);
        if word[n - 1] == letter && !used[n - 1] {
            assert(0 <= n - 1 < n && word[n - 1] == letter && !used[n - 1]);
        } else if free_count(word, used, letter, n - 1) > 0 {
            let k = choose|k: int| 0 <= k < n - 1 && word[k] == letter && !used[k];
            assert(0 <= k < n && word[k] == letter && !used[k]);
        } else {
            assert forall|k: int| 0 <= k < n implies !(word[k] == letter && !used[k]) by {
                if k < n - 1 {
                    assert(!(0 <= k < n - 1 && word[k] == letter && !used[k]));
                }
            }
        }
    }
}

/// What `first_free` returns from `from` on: a free position holding the
/// letter with none before it, or the length when there is none.
proof fn lemma_first_free_from(word: Seq<char>, used: Seq<bool>, letter: u8, from: int)
    requires
        0 <= from <= word.len(),
    ensures
        from <= first_free(word, used, letter, from) <= word.len(),
        first_free(word, used, letter, from) < word.len() ==> word[first_free(
            word,
            used,
            letter,
            from,
        )] as u8 == letter && !used[first_free(word, used, letter, from)],
        forall|k: int|
            from <= k < first_free(word, used, letter, from) ==> !(#[trigger] word[k] as u8
                == letter && !used[k]),
    decreases word.len() - from,
{
    if from < word.len() && !(word[from] as u8 == letter && !used[from]) {
        lemma_first_free_from(word, used, letter, from + 1);
    }
}

/// In a word, a letter has a free position exactly when its count of free
/// positions is positive; the first such position holds that letter.
proof fn lemma_first_free(word: Seq<char>, used: Seq<bool>, letter: char)
    requires
        is_word(word),
        is_letter(letter),
    ensures
        (first_free(word, used, letter as u8, 0) < 5) == (free_count(word, used, letter, 5) > 0),
        0 <= first_free(word, used, letter as u8, 0) <= 5,
        first_free(word, used, letter as u8, 0) < 5 ==> word[first_free(
            word,
            used,
            letter as u8,
            0,
        )] == letter && !used[first_free(word, used, letter as u8, 0)],
{
    lemma_first_free_from(word, used, letter as u8, 0);
    lemma_free_count_sign(word, used, letter, 5);
    let f = first_free(word, used, letter as u8, 0);
    if f < 5 {
        assert(is_letter(word[f]));
        assert(0 <= f < 5 && word[f] == letter && !used[f]);
    } else {
        assert forall|k: int| 0 <= k < 5 implies !(word[k] == letter && !used[k]) by {
            assert(!(word[k] as u8 == letter as u8 && !used[k]));
        }
    }
}

} // verus!
