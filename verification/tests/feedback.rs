use std::borrow::Cow;
use wordle::Correctness::{Correct, Misplaced, Wrong};
use wordle::{mask_of_index, Correctness, Guess};

/// Every word of length five over the first `letters` letters of the alphabet.
fn words_over(letters: u8) -> Vec<String> {
    let mut words = vec![String::new()];
    for _ in 0..5 {
        let mut longer = Vec::new();
        for word in &words {
            for letter in 0..letters {
                let mut next = word.clone();
                next.push((b'a' + letter) as char);
                longer.push(next);
            }
        }
        words = longer;
    }
    words
}

#[test]
fn repeated_letters_matched_in_place() {
    assert_eq!(
        Correctness::compute("aabbb", "aaccc"),
        [Correct, Correct, Wrong, Wrong, Wrong]
    );
}

#[test]
fn repeated_letters_out_of_place() {
    assert_eq!(
        Correctness::compute("aabbb", "ccaac"),
        [Wrong, Wrong, Misplaced, Misplaced, Wrong]
    );
}

#[test]
fn second_copy_of_a_matched_letter_is_wrong() {
    assert_eq!(
        Correctness::compute("abcde", "aacde"),
        [Correct, Wrong, Correct, Correct, Correct]
    );
}

#[test]
fn rotated_word_is_all_misplaced() {
    assert_eq!(
        Correctness::compute("abcde", "bcdea"),
        [Misplaced, Misplaced, Misplaced, Misplaced, Misplaced]
    );
}

#[test]
fn nothing_shared_is_all_wrong() {
    assert_eq!(Correctness::compute("abcde", "fghij"), [Wrong; 5]);
}

#[test]
fn one_copy_in_the_answer_credits_one_copy_of_the_guess() {
    // The answer holds one `e`; the first `e` of the guess claims it.
    assert_eq!(
        Correctness::compute("abcde", "eexyz"),
        [Misplaced, Wrong, Wrong, Wrong, Wrong]
    );
    // A matched copy leaves none for the copy before it.
    assert_eq!(
        Correctness::compute("abcde", "exxxe"),
        [Wrong, Wrong, Wrong, Wrong, Correct]
    );
}

#[test]
fn a_word_against_itself_is_all_correct() {
    for word in ["tares", "crate", "aaaaa", "zzzzz", "abbab", "level"] {
        assert_eq!(Correctness::compute(word, word), [Correct; 5]);
    }
    for word in words_over(3) {
        assert_eq!(Correctness::compute(&word, &word), [Correct; 5]);
    }
}

#[test]
fn only_the_answer_is_all_correct() {
    let words = words_over(2);
    for answer in &words {
        for guess in &words {
            let solved = Correctness::compute(answer, guess) == [Correct; 5];
            assert_eq!(solved, answer == guess);
        }
    }
}

#[test]
fn the_answer_matches_its_own_feedback() {
    let words = words_over(3);
    for answer in &words {
        for guess in &words {
            let record = Guess {
                word: Cow::Borrowed(guess.as_str()),
                mask: Correctness::compute(answer, guess),
            };
            assert!(record.matches(answer));
        }
    }
}

#[test]
fn matches_agrees_with_compute_on_every_mask() {
    let words = words_over(2);
    for word in &words {
        for guess in &words {
            let earned = Correctness::compute(word, guess);
            for index in 0..243 {
                let mask = mask_of_index(index);
                let record = Guess {
                    word: Cow::Borrowed(guess.as_str()),
                    mask,
                };
                assert_eq!(record.matches(word), earned == mask);
            }
        }
    }
}

#[test]
fn matches_agrees_with_compute_on_repeated_letters() {
    let cases = [
        ("aabbb", "aaccc"),
        ("aabbb", "ccaac"),
        ("abcde", "aacde"),
        ("abcde", "bcdea"),
        ("sassy", "glass"),
        ("glass", "sassy"),
        ("llama", "label"),
        ("eerie", "where"),
    ];
    for (word, guess) in cases {
        let earned = Correctness::compute(word, guess);
        for index in 0..243 {
            let mask = mask_of_index(index);
            let record = Guess {
                word: Cow::Owned(guess.to_string()),
                mask,
            };
            assert_eq!(record.matches(word), earned == mask);
        }
    }
}

#[test]
fn is_misplaced_claims_the_first_unused_place() {
    let mut used = [false, false, true, false, false];
    assert!(Correctness::is_misplaced(b'b', "abbba", &mut used));
    assert_eq!(used, [false, true, true, false, false]);
    assert!(Correctness::is_misplaced(b'b', "abbba", &mut used));
    assert_eq!(used, [false, true, true, true, false]);
    assert!(!Correctness::is_misplaced(b'b', "abbba", &mut used));
    assert_eq!(used, [false, true, true, true, false]);
    assert!(!Correctness::is_misplaced(b'z', "abbba", &mut used));
}

#[test]
fn letters_of_a_guess_are_its_word() {
    let owned = Guess {
        word: Cow::Owned("tares".to_string()),
        mask: [Wrong; 5],
    };
    let borrowed = Guess {
        word: Cow::Borrowed("crate"),
        mask: [Wrong; 5],
    };
    assert_eq!(owned.letters(), "tares");
    assert_eq!(borrowed.letters(), "crate");
}
