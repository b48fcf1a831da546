//! Per-letter feedback for a guess against a hidden answer.

use vstd::prelude::*;

verus! {

/// Number of letters in every word of the game.
pub const WORD_LEN: usize = 5;

/// The verdict on one letter of a guess.
#[derive(Debug, Clone, Copy, PartialEq, Eq, Hash, PartialOrd, Ord, Structural)]
pub enum Correctness {
    /// Green
    Correct,
    /// Yellow
    Misplaced,
    /// Gray
    Wrong,
}

/// A lowercase ASCII letter.
pub open spec fn is_letter(c: char) -> bool {
    'a' <= c <= 'z'
}

/// A word of the game: exactly five lowercase ASCII letters.
pub open spec fn is_word(w: Seq<char>) -> bool {
    &&& w.len() == WORD_LEN
    &&& forall|i: int| 0 <= i < w.len() ==> is_letter(#[trigger] w[i])
}

/// Number of positions below `n` at which `a` holds `letter` and `b` holds
/// a different letter.
pub open spec fn unmatched_count(a: Seq<char>, b: Seq<char>, letter: char, n: int) -> int
    decreases n,
{
    if n <= 0 {
        0
    } else {
        unmatched_count(a, b, letter, n - 1) + if a[n - 1] == letter && b[n - 1] != letter {
            1int
        } else {
            0int
        }
    }
}

/// The verdict on position `i` of `guess` when `answer` is the hidden word.
///
/// A letter in its right place is `Correct`. Any other letter is `Misplaced`
/// as long as the answer still has an unmatched occurrence of it that no
/// earlier unmatched position of the guess has claimed, and `Wrong` after that.
pub open spec fn symbol_at(answer: Seq<char>, guess: Seq<char>, i: int) -> Correctness {
    if guess[i] == answer[i] {
        Correctness::Correct
    } else if unmatched_count(guess, answer, guess[i], i) < unmatched_count(
        answer,
        guess,
        guess[i],
        answer.len() as int,
    ) {
        Correctness::Misplaced
    } else {
        Correctness::Wrong
    }
}

/// The mask that `guess` earns against `answer`.
pub open spec fn feedback(answer: Seq<char>, guess: Seq<char>) -> Seq<Correctness> {
    Seq::new(guess.len(), |i: int| symbol_at(answer, guess, i))
}

/// The byte that stands for each letter of `w`.
pub open spec fn letter_codes(w: Seq<char>) -> Seq<u8> {
    Seq::new(w.len(), |i: int| w[i] as u8)
}

/// The bytes of a word: one byte per letter, each between `b'a'` and `b'z'`.
pub fn word_bytes(w: &str) -> (bytes: &[u8])
    requires
        is_word(w@),
    ensures
        bytes@ == letter_codes(w@),
        bytes@.len() == WORD_LEN,
        forall|i: int| 0 <= i < WORD_LEN ==> 97 <= #[trigger] bytes@[i] <= 122,
{
    proof {
        assert(vstd::string::is_ascii(w)) by {
            assert forall|i: int| 0 <= i < w@.len() implies '\0' <= #[trigger] w@[i]
                <= '\u{7f}' by {
                assert(is_letter(w@[i]));
            }
        }
        vstd::string::is_ascii_spec_bytes(w);
        assert forall|i: int| 0 <= i < WORD_LEN implies 97 <= #[trigger] letter_codes(w@)[i]
            <= 122 by {
            assert(is_letter(w@[i]));
        }
    }
    w.as_bytes()
}

impl Correctness {
    /// Computes the mask that `guess` earns against `answer`.
    ///
    /// Letters in their right place are marked first; each remaining letter
    /// of the guess is then credited against the answer's unmatched letters,
    /// left to right, so that no letter of the answer is credited twice.
    pub fn compute(answer: &str, guess: &str) -> (mask: [Correctness; 5])
        requires
            is_word(answer@),
            is_word(guess@),
        ensures
            mask@ == feedback(answer@, guess@),
    {
        let answer_bytes = word_bytes(answer);
        let guess_bytes = word_bytes(guess);
        let mut c = [Correctness::Wrong;5];
        // Unmatched letters of the answer, counted per letter of the alphabet.
        let mut misplaced = [0u8;26];

        // Find all correct letters.
        let mut i: usize = 0;
        while i < 5
            invariant
                i <= 5,
                is_word(answer@),
                is_word(guess@),
                answer_bytes@ == letter_codes(answer@),
                guess_bytes@ == letter_codes(guess@),
                forall|k: int|
                    0 <= k < i ==> #[trigger] c@[k] == if answer@[k] == guess@[k] {
                        Correctness::Correct
                    } else {
                        Correctness::Wrong
                    },
                forall|k: int| i <= k < 5 ==> #[trigger] c@[k] == Correctness::Wrong,
                forall|l: char|
                    is_letter(l) ==> misplaced@[l as int - 97] == #[trigger] unmatched_count(
                        answer@,
                        guess@,
                        l,
                        i as int,
                    ),
            decreases 5 - i,
        {
            let a: u8 = answer_bytes[i];
            let g: u8 = guess_bytes[i];
            proof {
                assert(is_letter(answer@[i as int]));
                assert(is_letter(guess@[i as int]));
                lemma_unmatched_count_bound(answer@, guess@, answer@[i as int], i as int);
            }
            if a == g {
                c[i] = Correctness::Correct;
            } else {
                // If the letter does not match, count it as available.
                let slot: usize = (a - 97) as usize;
                misplaced[slot] = misplaced[slot] + 1;
            }
            proof {
                assert forall|l: char| is_letter(l) implies misplaced@[l as int - 97]
                    == #[trigger] unmatched_count(answer@, guess@, l, i + 1) by {
                    assert(answer_bytes@[i as int] == answer@[i as int] as u8);
                    assert(guess_bytes@[i as int] == guess@[i as int] as u8);
                    assert(unmatched_count(answer@, guess@, l, i as int) >= 0) by {
                        lemma_unmatched_count_bound(answer@, guess@, l, i as int);
                    }
                }
            }
            i += 1;
        }

        // Check all of the non matching letters if they are misplaced.
        let mut j: usize = 0;
        while j < 5
            invariant
                j <= 5,
                is_word(answer@),
                is_word(guess@),
                guess_bytes@ == letter_codes(guess@),
                forall|k: int| 0 <= k < j ==> #[trigger] c@[k] == symbol_at(answer@, guess@, k),
                forall|k: int|
                    j <= k < 5 ==> #[trigger] c@[k] == if answer@[k] == guess@[k] {
                        Correctness::Correct
                    } else {
                        Correctness::Wrong
                    },
                forall|l: char|
                    is_letter(l) ==> misplaced@[l as int - 97] == remaining_credit(
                        answer@,
                        guess@,
                        l,
                        j as int,
                    ),
            decreases 5 - j,
        {
            let g: u8 = guess_bytes[j];
            let slot: usize = (g - 97) as usize;
            proof {
                assert(is_letter(guess@[j as int]));
                assert(misplaced@[slot as int] == remaining_credit(
                    answer@,
                    guess@,
                    guess@[j as int],
                    j as int,
                ));
            }
            // If the letter was guessed wrong and the same letter is still available.
            if c[j] == Correctness::Wrong && misplaced[slot] > 0 {
                c[j] = Correctness::Misplaced;
                misplaced[slot] = misplaced[slot] - 1;
            }
            j += 1;
        }

        c
    }
}

/// The mask of a guess that is the answer itself.
pub open spec fn all_correct() -> Seq<Correctness> {
    Seq::new(WORD_LEN as nat, |i: int| Correctness::Correct)
}

/// Guessing the answer itself earns `Correct` in every position.
pub proof fn lemma_feedback_of_answer(word: Seq<char>)
    requires
        word.len() == WORD_LEN,
    ensures
        feedback(word, word) == all_correct(),
{
    assert(feedback(word, word) =~= all_correct());
}

/// Only the answer itself earns `Correct` in every position.
pub proof fn lemma_all_correct_is_answer(answer: Seq<char>, guess: Seq<char>)
    requires
        answer.len() == WORD_LEN,
        guess.len() == WORD_LEN,
        feedback(answer, guess) == all_correct(),
    ensures
        guess == answer,
{
    assert forall|i: int| 0 <= i < WORD_LEN implies guess[i] == answer[i] by {
        assert(feedback(answer, guess)[i] == symbol_at(answer, guess, i));
        assert(all_correct()[i] == Correctness::Correct);
    }
    assert(guess =~= answer);
}

/// Unmatched occurrences of `letter` in the answer that the first `i`
/// positions of the guess have left unclaimed.
pub open spec fn remaining_credit(answer: Seq<char>, guess: Seq<char>, letter: char, i: int) -> int {
    let spare = unmatched_count(answer, guess, letter, answer.len() as int);
    let claims = unmatched_count(guess, answer, letter, i);
    if claims < spare {
        spare - claims
    } else {
        0
    }
}

/// A count over the first `n` positions lies between 0 and `n`.
pub proof fn lemma_unmatched_count_bound(a: Seq<char>, b: Seq<char>, letter: char, n: int)
    requires
        0 <= n,
    ensures
        0 <= unmatched_count(a, b, letter, n) <= n,
    decreases n,
{
    if n > 0 {
        lemma_unmatched_count_bound(a, b, letter, n - 1);
    }
}

} // verus!
