use std::borrow::Cow;
use wordle::Correctness::{Correct, Misplaced, Wrong};
use wordle::{first_minimum, Correctness, Entry, Guess, Solver, Tuning, Wordle, MAX_TURNS};

fn entries(words: &[(&str, u64)]) -> Vec<Entry> {
    words
        .iter()
        .map(|(word, count)| Entry {
            word: word.to_string(),
            count: *count,
        })
        .collect()
}

fn small_dictionary() -> Vec<Entry> {
    entries(&[
        ("abcde", 40),
        ("tares", 900),
        ("crate", 700),
        ("bcdea", 10),
        ("aacde", 30),
        ("fghij", 5),
        ("edcba", 20),
        ("abcdf", 60),
        ("zzzzz", 1),
        ("aaaaa", 2),
    ])
}

fn candidate_words(solver: &Solver) -> Vec<String> {
    (0..solver.len())
        .map(|pos| solver.candidate(pos).word.clone())
        .collect()
}

fn record(word: &str, mask: [Correctness; 5]) -> Guess<'static> {
    Guess {
        word: Cow::Owned(word.to_string()),
        mask,
    }
}

/// A score as the selector computes it: the entropy of the candidates, the
/// entropy of what a guess would reveal, and the expected number of turns.
fn expected_score(weights: &[f64], outcomes: &[u8], pos: usize, turns: usize) -> f64 {
    let whole: f64 = weights.iter().sum();
    let entropy_left = -weights
        .iter()
        .map(|w| (w / whole) * (w / whole).log2())
        .sum::<f64>();
    let mut totals = [0.0f64; 243];
    for (outcome, weight) in outcomes.iter().zip(weights) {
        totals[*outcome as usize] += weight;
    }
    let revealed = -totals
        .iter()
        .filter(|t| **t != 0.0)
        .map(|t| (t / whole) * (t / whole).log2())
        .sum::<f64>();
    let p = weights[pos] / whole;
    let steps_left = ((entropy_left - revealed) * 3.870 + 3.679).ln();
    p * (turns as f64 + 1.0) + (1.0 - p) * (turns as f64 + steps_left)
}

/// One guess of a selector built on the library: the opener first, then the
/// scored candidate with the least expected number of turns.
fn guess(solver: &mut Solver, history: &[Guess]) -> String {
    if let Some(opener) = solver.begin_turn(history) {
        return opener;
    }
    let total = solver.total_count() as f64;
    let weights: Vec<f64> = (0..solver.len())
        .map(|pos| solver.candidate(pos).count as f64 / total)
        .collect();
    let mut keys = Vec::new();
    for pos in 0..solver.evaluation_limit() {
        let outcomes = solver.outcomes(pos);
        let score = expected_score(&weights, &outcomes, pos, history.len());
        assert!(score >= 0.0);
        keys.push(score.to_bits());
    }
    solver.pick(&keys).expect("some word is left")
}

#[test]
fn new_ranks_the_dictionary_by_count() {
    let solver = Solver::new(small_dictionary());
    assert_eq!(solver.len(), 10);
    assert_eq!(
        candidate_words(&solver),
        [
            "tares", "crate", "abcdf", "abcde", "aacde", "edcba", "bcdea", "fghij", "aaaaa",
            "zzzzz"
        ]
    );
    for pos in 0..solver.len() {
        assert_eq!(solver.stable_index(pos), pos);
    }
    for pos in 1..solver.len() {
        assert!(solver.candidate(pos - 1).count >= solver.candidate(pos).count);
    }
    assert_eq!(solver.total_count(), 1768);
    assert_eq!(solver.opener(), "tares");
}

#[test]
fn new_keeps_every_entry_of_the_dictionary() {
    let solver = Solver::new(entries(&[("aaaaa", 7), ("bbbbb", 7), ("ccccc", 7)]));
    let mut words = candidate_words(&solver);
    words.sort();
    assert_eq!(words, ["aaaaa", "bbbbb", "ccccc"]);
    assert_eq!(solver.total_count(), 21);
}

#[test]
fn an_empty_dictionary_leaves_no_candidate() {
    let mut solver = Solver::new(Vec::new());
    assert_eq!(solver.len(), 0);
    assert_eq!(solver.evaluation_limit(), 0);
    assert_eq!(solver.pick(&Vec::new()), None);
    solver.narrow(&record("tares", [Wrong; 5]));
    assert_eq!(solver.len(), 0);
}

#[test]
fn counts_up_to_the_largest_are_summed() {
    let solver = Solver::new(entries(&[("aaaaa", u64::MAX), ("bbbbb", u64::MAX)]));
    assert_eq!(solver.total_count(), 2 * (u64::MAX as u128));
}

#[test]
fn find_gives_the_stable_index() {
    let solver = Solver::new(small_dictionary());
    assert_eq!(solver.find("tares"), Some(0));
    assert_eq!(solver.find("abcde"), Some(3));
    assert_eq!(solver.find("zzzzz"), Some(9));
    assert_eq!(solver.find("qqqqq"), None);
}

#[test]
fn narrow_keeps_the_words_that_earn_the_mask() {
    let dictionary = small_dictionary();
    for guessed in ["tares", "abcde", "aacde", "qqqqq", "eabcd"] {
        for answer in ["abcde", "crate", "zzzzz", "aaaaa"] {
            let mask = Correctness::compute(answer, guessed);
            let mut solver = Solver::new(small_dictionary());
            let before = candidate_words(&solver);
            solver.narrow(&record(guessed, mask));
            let expected: Vec<String> = before
                .into_iter()
                .filter(|word| Correctness::compute(word, guessed) == mask)
                .collect();
            assert_eq!(candidate_words(&solver), expected);
            assert!(expected.iter().any(|word| word == answer));
            assert!(dictionary.iter().any(|entry| entry.word == answer));
        }
    }
}

#[test]
fn narrow_never_widens_and_keeps_stable_indices() {
    let mut solver = Solver::new(small_dictionary());
    let ranks: Vec<(String, usize)> = (0..solver.len())
        .map(|pos| (solver.candidate(pos).word.clone(), solver.stable_index(pos)))
        .collect();
    let answer = "abcdf";
    for guessed in ["tares", "edcba", "aacde", "abcde"] {
        let before = candidate_words(&solver);
        solver.narrow(&record(guessed, Correctness::compute(answer, guessed)));
        let after = candidate_words(&solver);
        assert!(after.len() <= before.len());
        assert!(after.iter().all(|word| before.contains(word)));
        for pos in 0..solver.len() {
            let word = solver.candidate(pos).word.clone();
            assert!(ranks.contains(&(word, solver.stable_index(pos))));
        }
        for pos in 1..solver.len() {
            assert!(solver.stable_index(pos - 1) < solver.stable_index(pos));
        }
    }
    assert_eq!(candidate_words(&solver), ["abcdf"]);
}

#[test]
fn narrow_by_an_impossible_record_leaves_nothing() {
    let mut solver = Solver::new(small_dictionary());
    // No word earns Correct on every letter of a word that is not listed.
    solver.narrow(&record("qqqqq", [Correct; 5]));
    assert_eq!(solver.len(), 0);
    assert_eq!(solver.pick(&Vec::new()), None);
}

#[test]
fn narrow_by_a_guess_outside_the_dictionary() {
    let mut solver = Solver::new(small_dictionary());
    solver.narrow(&record("eabcd", [Misplaced; 5]));
    assert_eq!(candidate_words(&solver), ["abcde", "bcdea"]);
}

#[test]
fn begin_turn_opens_and_then_narrows() {
    let mut solver = Solver::new(small_dictionary());
    assert_eq!(solver.begin_turn(&[]), Some("tares".to_string()));
    assert_eq!(solver.len(), 10);
    let history = [record("tares", Correctness::compute("abcde", "tares"))];
    assert_eq!(solver.begin_turn(&history), None);
    assert_eq!(candidate_words(&solver), ["abcde", "edcba"]);
}

#[test]
fn tuning_sets_the_opener_and_the_limit() {
    let tuning = Tuning {
        opener: "crate".to_string(),
        divisor: 2,
        floor: 3,
    };
    let mut solver = Solver::with_tuning(small_dictionary(), tuning.clone());
    assert_eq!(solver.opener(), "crate");
    assert_eq!(solver.begin_turn(&[]), Some("crate".to_string()));
    // Half of ten is more than the floor.
    assert_eq!(solver.evaluation_limit(), 5);
    // Half of five is less than the floor.
    let mut five = small_dictionary();
    five.truncate(5);
    assert_eq!(
        Solver::with_tuning(five, tuning.clone()).evaluation_limit(),
        3
    );
    // Never more than there are.
    solver.narrow(&record("tares", Correctness::compute("abcde", "tares")));
    assert_eq!(solver.len(), 2);
    assert_eq!(solver.evaluation_limit(), 2);
}

#[test]
fn a_tuning_needs_a_word_and_positive_numbers() {
    let tuning = |opener: &str, divisor, floor| Tuning {
        opener: opener.to_string(),
        divisor,
        floor,
    };
    assert!(Tuning::default().valid());
    assert!(tuning("crate", 1, 1).valid());
    assert!(!tuning("crate", 0, 20).valid());
    assert!(!tuning("crate", 3, 0).valid());
    assert!(!tuning("crates", 3, 20).valid());
    assert!(!tuning("", 3, 20).valid());
}

#[test]
fn standard_tuning_scores_a_third_but_at_least_twenty() {
    let tuning = Tuning::default();
    assert_eq!(tuning.opener, "tares");
    assert_eq!(tuning.divisor, 3);
    assert_eq!(tuning.floor, 20);

    let mut words = Vec::new();
    for first in b'a'..=b'j' {
        for second in b'a'..=b'j' {
            let word = format!("{}{}aaa", first as char, second as char);
            words.push(Entry { word, count: 1 });
        }
    }
    assert_eq!(Solver::new(words.clone()).evaluation_limit(), 33);
    words.truncate(63);
    assert_eq!(Solver::new(words.clone()).evaluation_limit(), 21);
    words.truncate(61);
    assert_eq!(Solver::new(words.clone()).evaluation_limit(), 20);
    words.truncate(30);
    assert_eq!(Solver::new(words.clone()).evaluation_limit(), 20);
    words.truncate(7);
    assert_eq!(Solver::new(words).evaluation_limit(), 7);
}

#[test]
fn outcomes_are_the_indices_of_the_masks() {
    let mut solver = Solver::new(small_dictionary());
    let words = candidate_words(&solver);
    for pos in 0..solver.len() {
        let row = solver.outcomes(pos);
        assert_eq!(row.len(), words.len());
        for (j, word) in words.iter().enumerate() {
            let mask = Correctness::compute(word, &words[pos]);
            assert_eq!(row[j] as usize, wordle::enumerate_mask(&mask));
        }
        assert_eq!(row[pos], 0);
    }
}

#[test]
fn outcomes_are_the_same_when_asked_again() {
    let mut solver = Solver::new(small_dictionary());
    let first: Vec<Vec<u8>> = (0..solver.len()).map(|pos| solver.outcomes(pos)).collect();
    let again: Vec<Vec<u8>> = (0..solver.len()).map(|pos| solver.outcomes(pos)).collect();
    assert_eq!(first, again);
    // Rows that narrowing has filled serve the scoring that follows.
    solver.narrow(&record("tares", Correctness::compute("abcde", "tares")));
    let words = candidate_words(&solver);
    let row = solver.outcomes(1);
    for (j, word) in words.iter().enumerate() {
        let mask = Correctness::compute(word, &words[1]);
        assert_eq!(row[j] as usize, wordle::enumerate_mask(&mask));
    }
}

#[test]
fn restart_brings_every_candidate_back() {
    let mut solver = Solver::new(small_dictionary());
    let all = candidate_words(&solver);
    solver.narrow(&record("tares", Correctness::compute("abcde", "tares")));
    assert_eq!(solver.len(), 2);
    solver.restart();
    assert_eq!(candidate_words(&solver), all);
    assert_eq!(solver.total_count(), 1768);
    assert_eq!(solver.opener(), "tares");
    solver.narrow(&record("tares", Correctness::compute("crate", "tares")));
    assert_eq!(candidate_words(&solver), ["crate"]);
}

#[test]
fn first_minimum_prefers_the_earlier_of_equal_keys() {
    assert_eq!(first_minimum(&vec![]), None);
    assert_eq!(first_minimum(&vec![9]), Some(0));
    assert_eq!(first_minimum(&vec![5, 3, 8, 3, 4]), Some(1));
    assert_eq!(first_minimum(&vec![2, 2, 2]), Some(0));
    assert_eq!(first_minimum(&vec![7, 6, 5, 4]), Some(3));
    assert_eq!(first_minimum(&vec![u64::MAX, 0]), Some(1));
}

#[test]
fn pick_names_the_candidate_with_the_least_key() {
    let solver = Solver::new(small_dictionary());
    assert_eq!(solver.pick(&vec![4, 1, 1, 3]), Some("crate".to_string()));
    assert_eq!(solver.pick(&vec![4]), Some("tares".to_string()));
    assert_eq!(solver.pick(&vec![]), None);
}

#[test]
fn a_single_candidate_is_guessed_on_the_next_turn() {
    let mut solver = Solver::new(entries(&[("abcde", 12)]));
    let row = solver.outcomes(0);
    // One outcome holds all the weight, so nothing is left to learn.
    assert_eq!(row, [0]);
    let weights = [1.0];
    let whole: f64 = weights.iter().sum();
    let entropy = -weights
        .iter()
        .map(|w: &f64| (w / whole) * (w / whole).log2())
        .sum::<f64>();
    assert_eq!(entropy, 0.0);
    for turns in 0..6 {
        assert_eq!(
            expected_score(&weights, &row, 0, turns),
            turns as f64 + 1.0
        );
    }
}

#[test]
fn a_game_ends_with_the_answer_for_any_opener() {
    let answer = "abcde";
    let game = Wordle::new(&small_dictionary());
    for opener in ["tares", "crate", "abcde", "zzzzz", "fghij", "bcdea", "aaaaa"] {
        let tuning = Tuning {
            opener: opener.to_string(),
            divisor: 3,
            floor: 20,
        };
        let mut solver = Solver::with_tuning(small_dictionary(), tuning);
        let mut history = Vec::new();
        let mut solved = None;
        for turn in 1..=20 {
            let word = guess(&mut solver, &history);
            let turn_record = game.mark(answer, word).expect("a listed word");
            if turn_record.mask == [Correct; 5] {
                assert_eq!(turn_record.letters(), answer);
                solved = Some(turn);
                break;
            }
            history.push(turn_record);
        }
        let turns = solved.expect("solved within twenty turns");
        assert!(turns <= MAX_TURNS);
        if opener == answer {
            assert_eq!(turns, 1);
        }
    }
}

#[test]
fn a_game_ends_with_the_answer_for_an_opener_that_is_not_listed() {
    let answer = "abcde";
    for opener in ["qqqqq", "eabcd", "xyzzy", "decab"] {
        let tuning = Tuning {
            opener: opener.to_string(),
            divisor: 3,
            floor: 20,
        };
        let mut solver = Solver::with_tuning(small_dictionary(), tuning);
        let mut history = Vec::new();
        let mut solved = false;
        for _ in 0..20 {
            let word = guess(&mut solver, &history);
            let mask = Correctness::compute(answer, &word);
            if word == answer {
                assert_eq!(mask, [Correct; 5]);
                solved = true;
                break;
            }
            history.push(Guess {
                word: Cow::Owned(word),
                mask,
            });
        }
        assert!(solved);
    }
}

#[test]
fn every_listed_answer_is_found() {
    let game = Wordle::new(&small_dictionary());
    for entry in small_dictionary() {
        let mut solver = Solver::new(small_dictionary());
        let mut history = Vec::new();
        let mut solved = false;
        for _ in 0..20 {
            let word = guess(&mut solver, &history);
            let turn_record = game.mark(&entry.word, word).expect("a listed word");
            if turn_record.mask == [Correct; 5] {
                solved = true;
                break;
            }
            history.push(turn_record);
        }
        assert!(solved);
    }
}
