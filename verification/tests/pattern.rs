use wordle::Correctness::{Correct, Misplaced, Wrong};
use wordle::{
    cachable_enumeration, enumerate_mask, mask_of_index, Correctness, PackedCorrectness,
    MAX_MASK_ENUM,
};

#[test]
fn there_are_243_masks() {
    assert_eq!(MAX_MASK_ENUM, 243);
}

#[test]
fn index_reads_the_mask_in_base_three() {
    assert_eq!(enumerate_mask(&[Correct; 5]), 0);
    assert_eq!(enumerate_mask(&[Wrong; 5]), 242);
    assert_eq!(enumerate_mask(&[Misplaced; 5]), 121);
    assert_eq!(enumerate_mask(&[Correct, Correct, Correct, Correct, Wrong]), 2);
    assert_eq!(enumerate_mask(&[Misplaced, Correct, Correct, Correct, Correct]), 81);
    assert_eq!(
        enumerate_mask(&[Correct, Misplaced, Wrong, Correct, Misplaced]),
        27 + 18 + 1
    );
}

#[test]
fn mask_of_index_undoes_enumerate_mask() {
    for index in 0..MAX_MASK_ENUM {
        assert_eq!(enumerate_mask(&mask_of_index(index)), index);
    }
    assert_eq!(mask_of_index(0), [Correct; 5]);
    assert_eq!(mask_of_index(242), [Wrong; 5]);
    assert_eq!(
        mask_of_index(46),
        [Correct, Misplaced, Wrong, Correct, Misplaced]
    );
}

#[test]
fn distinct_masks_have_distinct_indices() {
    let all = Correctness::patterns();
    for (i, a) in all.iter().enumerate() {
        for (j, b) in all.iter().enumerate() {
            assert_eq!(a == b, i == j);
            assert_eq!(enumerate_mask(a) == enumerate_mask(b), i == j);
        }
    }
}

#[test]
fn patterns_come_in_dictionary_order() {
    let all = Correctness::patterns();
    assert_eq!(all.len(), 243);
    assert_eq!(all[0], [Correct; 5]);
    assert_eq!(all[1], [Correct, Correct, Correct, Correct, Misplaced]);
    assert_eq!(all[3], [Correct, Correct, Correct, Misplaced, Correct]);
    assert_eq!(all[242], [Wrong; 5]);
    for (index, mask) in all.iter().enumerate() {
        assert_eq!(enumerate_mask(mask), index);
    }
    // The derived order on symbols is Correct < Misplaced < Wrong, and
    // arrays compare position by position.
    for pair in all.windows(2) {
        assert!(pair[0] < pair[1]);
    }
}

#[test]
fn patterns_can_be_listed_again() {
    assert_eq!(Correctness::patterns(), Correctness::patterns());
}

#[test]
fn packing_keeps_the_index() {
    for index in 0..MAX_MASK_ENUM {
        let mask = mask_of_index(index);
        let packed = PackedCorrectness::from(mask);
        assert_eq!(u8::from(packed) as usize, index);
    }
    assert_eq!(u8::from(PackedCorrectness::from([Correct; 5])), 0);
    assert_eq!(u8::from(PackedCorrectness::from([Wrong; 5])), 242);
}

#[test]
fn a_packed_mask_takes_one_byte() {
    assert_eq!(std::mem::size_of::<PackedCorrectness>(), 1);
}

#[test]
fn cachable_enumeration_is_the_index_of_the_feedback() {
    assert_eq!(cachable_enumeration("abcde", "abcde"), 0);
    assert_eq!(cachable_enumeration("abcde", "fghij"), 242);
    assert_eq!(cachable_enumeration("abcde", "bcdea"), 121);
    // [Correct, Wrong, Correct, Correct, Correct]
    assert_eq!(cachable_enumeration("abcde", "aacde"), 2 * 27);
    // [Wrong, Wrong, Misplaced, Misplaced, Wrong]
    assert_eq!(
        cachable_enumeration("aabbb", "ccaac"),
        2 * 81 + 2 * 27 + 9 + 3 + 2
    );
    for (answer, guess) in [("sassy", "glass"), ("eerie", "where"), ("tares", "crate")] {
        assert_eq!(
            cachable_enumeration(answer, guess) as usize,
            enumerate_mask(&Correctness::compute(answer, guess))
        );
    }
}
