//! Words as the dictionary lists them.

use crate::correctness::{is_letter, is_word, letter_codes, word_bytes};
use vstd::prelude::*;
use vstd::string::StringExecFns;

verus! {

/// One line of the dictionary: a word and how often it is used.
#[derive(Debug, Clone)]
pub struct Entry {
    pub word: String,
    pub count: u64,
}

/// The words of a list of entries, in the order of the list.
pub open spec fn entry_words(entries: Seq<Entry>) -> Seq<Seq<char>> {
    Seq::new(entries.len(), |i: int| entries[i].word@)
}

/// Every entry holds a word of the game.
pub open spec fn all_words(entries: Seq<Entry>) -> bool {
    forall|i: int| 0 <= i < entries.len() ==> is_word(#[trigger] entries[i].word@)
}

/// Tells whether `word` is a word of the game: five lowercase ASCII letters.
pub fn valid_word(word: &str) -> (valid: bool)
    ensures
        valid == is_word(word@),
{
    // Five letters take five bytes, and anything else that takes five bytes
    // holds a byte that is no letter.
    if word.unicode_len() != 5 {
        return false;
    }
    let mut i: usize = 0;
    while i < 5
        invariant
            i <= 5,
            word@.len() == 5,
            forall|k: int| 0 <= k < i ==> is_letter(#[trigger] word@[k]),
        decreases 5 - i,
    {
        let c = word.get_char(i);
        if !('a' <= c && c <= 'z') {
            return false;
        }
        i += 1;
    }
    true
}

/// Tells whether two words are the same word.
pub fn same_word(a: &str, b: &str) -> (same: bool)
    requires
        is_word(a@),
        is_word(b@),
    ensures
        same == (a@ == b@),
{
    let a_codes = word_bytes(a);
    let b_codes = word_bytes(b);
    let mut i: usize = 0;
    while i < 5
        invariant
            i <= 5,
            is_word(a@),
            is_word(b@),
            a_codes@ == letter_codes(a@),
            b_codes@ == letter_codes(b@),
            forall|k: int| 0 <= k < i ==> a@[k] == b@[k],
        decreases 5 - i,
    {
        proof {
            assert(is_letter(a@[i as int]));
            assert(is_letter(b@[i as int]));
        }
        if a_codes[i] != b_codes[i] {
            return false;
        }
        i += 1;
    }
    proof {
        assert(a@ =~= b@);
    }
    true
}

/// A decimal digit.
pub open spec fn is_digit(c: char) -> bool {
    '0' <= c <= '9'
}

/// The number that a sequence of decimal digits writes.
pub open spec fn decimal_value(digits: Seq<char>) -> nat
    decreases digits.len(),
{
    if digits.len() == 0 {
        0
    } else {
        10 * decimal_value(digits.drop_last()) + (digits.last() as int - 48) as nat
    }
}

/// The count that a text writes: digits only, at least one of them, with or
/// without a plus sign in front, and no more than a count can hold.
pub open spec fn count_of(text: Seq<char>) -> Option<u64> {
    if text.len() > 0 && text[0] == '+' {
        digits_count(text.skip(1))
    } else {
        digits_count(text)
    }
}

/// The count that digits write: there is at least one of them, and the
/// number is no more than a count can hold.
pub open spec fn digits_count(digits: Seq<char>) -> Option<u64> {
    if digits.len() > 0 && (forall|i: int| 0 <= i < digits.len() ==> is_digit(#[trigger] digits[i]))
        && decimal_value(digits) <= u64::MAX {
        Some(decimal_value(digits) as u64)
    } else {
        None
    }
}

/// The word and the count that a line of the dictionary holds: a word, one
/// space and a count, and nothing else.
pub open spec fn entry_of(line: Seq<char>) -> Option<(Seq<char>, u64)> {
    if line.len() >= 6 && is_word(line.take(5)) && line[5] == ' ' && count_of(line.skip(6))
        is Some {
        Some((line.take(5), count_of(line.skip(6)).unwrap()))
    } else {
        None
    }
}

/// Digits that continue a number do not make it smaller.
proof fn lemma_decimal_value_grows(digits: Seq<char>, k: int)
    requires
        0 <= k <= digits.len(),
        forall|i: int| 0 <= i < digits.len() ==> is_digit(#[trigger] digits[i]),
    ensures
        decimal_value(digits.take(k)) <= decimal_value(digits),
    decreases digits.len() - k,
{
    if k < digits.len() {
        lemma_decimal_value_grows(digits, k + 1);
        assert(digits.take(k + 1).drop_last() =~= digits.take(k));
        assert(is_digit(digits[k]));
        assert(digits.take(k + 1).last() == digits[k]);
    } else {
        assert(digits.take(k) =~= digits);
    }
}

/// Reads the count that the characters of `line` from `from` on write.
fn parse_count(line: &str, from: usize) -> (count: Option<u64>)
    requires
        from <= line@.len(),
    ensures
        count == count_of(line@.skip(from as int)),
{
    let len = line.unicode_len();
    let ghost text = line@.skip(from as int);
    let mut start = from;
    if start < len && line.get_char(start) == '+' {
        start = start + 1;
    }
    let ghost digits = line@.skip(start as int);
    proof {
        if start > from {
            assert(text[0] == '+');
            assert(text.skip(1) =~= digits);
        } else if text.len() > 0 {
            assert(text[0] == line@[from as int]);
        }
    }
    if start == len {
        return None;
    }
    assert(count_of(text) == digits_count(digits));
    let mut value: u64 = 0;
    let mut i: usize = start;
    while i < len
        invariant
            start <= i <= len,
            len == line@.len(),
            digits == line@.skip(start as int),
            count_of(line@.skip(from as int)) == digits_count(digits),
            forall|k: int| 0 <= k < i - start ==> is_digit(#[trigger] digits[k]),
            value == decimal_value(digits.take(i - start)),
        decreases len - i,
    {
        let c = line.get_char(i);
        proof {
            assert(digits[i - start] == c);
            assert(digits.take(i - start + 1).drop_last() =~= digits.take(i - start));
            assert(digits.take(i - start + 1).last() == c);
        }
        if !('0' <= c && c <= '9') {
            return None;
        }
        let digit = (c as u8 - 48) as u64;
        if value > (u64::MAX - digit) / 10 {
            proof {
                if forall|k: int| 0 <= k < digits.len() ==> is_digit(#[trigger] digits[k]) {
                    lemma_decimal_value_grows(digits, i - start + 1);
                }
            }
            return None;
        }
        value = value * 10 + digit;
        i += 1;
    }
    proof {
        assert(digits.take(len - start) =~= digits);
    }
    Some(value)
}

/// Reads one line of the dictionary: a word, one space and the word's count.
/// Any other line gives nothing.
pub fn parse_entry(line: &str) -> (entry: Option<Entry>)
    ensures
        match entry {
            Some(e) => entry_of(line@) == Some((e.word@, e.count)),
            None => entry_of(line@) is None,
        },
{
    if line.unicode_len() < 6 {
        return None;
    }
    let word = line.substring_char(0, 5);
    if !valid_word(word) || line.get_char(5) != ' ' {
        return None;
    }
    match parse_count(line, 6) {
        Some(count) => Some(Entry { word: String::from_str(word), count }),
        None => None,
    }
}

} // verus!
