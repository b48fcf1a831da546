//! Masks as a player types them: one of the letters C, M and W for each
//! letter of the guess, in either case, with blanks anywhere.

use crate::correctness::Correctness;
use vstd::prelude::*;

verus! {

/// Why typed input is no mask.
#[derive(Debug, Clone, Copy, PartialEq, Eq, Structural)]
pub enum MaskError {
    /// Without its blanks the input does not take exactly five bytes.
    WrongLength,
    /// The input holds this character, which is none of C, M and W.
    Unrecognized(char),
}

/// Whether `char::is_whitespace` holds of a character: whether Unicode gives
/// it the property `White_Space`.
pub uninterp spec fn white_space(c: char) -> bool;

/// `char::is_whitespace`.
#[verifier::external_body]
fn is_blank(c: char) -> (blank: bool)
    ensures
        blank == white_space(c),
{
    c.is_whitespace()
}

/// The upper case of an ASCII letter; any other character itself.
pub open spec fn ascii_upper(c: char) -> char {
    if 'a' <= c <= 'z' {
        ((c as u8 - 32) as u8) as char
    } else {
        c
    }
}

/// The number of bytes that a character takes in UTF-8.
pub open spec fn utf8_width(c: char) -> nat {
    if (c as u32) < 0x80 {
        1
    } else if (c as u32) < 0x800 {
        2
    } else if (c as u32) < 0x10000 {
        3
    } else {
        4
    }
}

/// The number of bytes that a sequence of characters takes in UTF-8.
pub open spec fn utf8_len(chars: Seq<char>) -> nat
    decreases chars.len(),
{
    if chars.len() == 0 {
        0
    } else {
        utf8_len(chars.drop_last()) + utf8_width(chars.last())
    }
}

/// What is left of the input when the blanks are taken out and the letters
/// are put into upper case.
pub open spec fn typed_codes(input: Seq<char>) -> Seq<char>
    decreases input.len(),
{
    if input.len() == 0 {
        Seq::empty()
    } else if white_space(input.last()) {
        typed_codes(input.drop_last())
    } else {
        typed_codes(input.drop_last()).push(ascii_upper(input.last()))
    }
}

/// The symbol that a typed code stands for.
pub open spec fn code_symbol(c: char) -> Option<Correctness> {
    if c == 'C' {
        Some(Correctness::Correct)
    } else if c == 'M' {
        Some(Correctness::Misplaced)
    } else if c == 'W' {
        Some(Correctness::Wrong)
    } else {
        None
    }
}

/// The first place at or after `from` whose code stands for no symbol; the
/// number of codes if there is none.
pub open spec fn first_unknown(codes: Seq<char>, from: int) -> int
    decreases codes.len() - from,
{
    if from < 0 || from >= codes.len() {
        codes.len() as int
    } else if code_symbol(codes[from]) is None {
        from
    } else {
        first_unknown(codes, from + 1)
    }
}

/// The mask that a sequence of codes writes, if they take five bytes and
/// each of them stands for a symbol. The length is judged first; of several
/// unknown codes the first is the one named.
pub open spec fn codes_mask(codes: Seq<char>) -> Result<Seq<Correctness>, MaskError> {
    if utf8_len(codes) != 5 {
        Err(MaskError::WrongLength)
    } else if first_unknown(codes, 0) < codes.len() {
        Err(MaskError::Unrecognized(codes[first_unknown(codes, 0)]))
    } else {
        Ok(Seq::new(codes.len(), |i: int| code_symbol(codes[i]).unwrap()))
    }
}

/// What typed input means: the mask that its codes write.
pub open spec fn typed_mask(input: Seq<char>) -> Result<Seq<Correctness>, MaskError> {
    codes_mask(typed_codes(input))
}

/// A sequence of characters takes at least one byte for each of them.
proof fn lemma_utf8_len_bound(chars: Seq<char>)
    ensures
        chars.len() <= utf8_len(chars),
    decreases chars.len(),
{
    if chars.len() > 0 {
        lemma_utf8_len_bound(chars.drop_last());
    }
}

/// A sequence of characters takes at least as many bytes as any of its
/// beginnings.
proof fn lemma_utf8_len_grows(chars: Seq<char>, k: int)
    requires
        0 <= k <= chars.len(),
    ensures
        utf8_len(chars.take(k)) <= utf8_len(chars),
    decreases chars.len() - k,
{
    if k < chars.len() {
        lemma_utf8_len_grows(chars, k + 1);
        assert(chars.take(k + 1).drop_last() =~= chars.take(k));
    } else {
        assert(chars.take(k) =~= chars);
    }
}

/// What `first_unknown` returns from `from` on.
proof fn lemma_first_unknown(codes: Seq<char>, from: int)
    requires
        0 <= from <= codes.len(),
    ensures
        from <= first_unknown(codes, from) <= codes.len(),
        first_unknown(codes, from) < codes.len() ==> code_symbol(
            codes[first_unknown(codes, from)],
        ) is None,
        forall|k: int|
            from <= k < first_unknown(codes, from) ==> code_symbol(#[trigger] codes[k]) is Some,
    decreases codes.len() - from,
{
    if from < codes.len() && code_symbol(codes[from]) is Some {
        lemma_first_unknown(codes, from + 1);
    }
}

/// Recognised codes take one byte each.
proof fn lemma_known_codes_len(codes: Seq<char>)
    requires
        forall|k: int| 0 <= k < codes.len() ==> code_symbol(#[trigger] codes[k]) is Some,
    ensures
        utf8_len(codes) == codes.len(),
    decreases codes.len(),
{
    if codes.len() > 0 {
        assert(code_symbol(codes[codes.len() - 1]) is Some);
        assert forall|k: int| 0 <= k < codes.drop_last().len() implies code_symbol(
            #[trigger] codes.drop_last()[k],
        ) is Some by {
            assert(codes.drop_last()[k] == codes[k]);
        }
        lemma_known_codes_len(codes.drop_last());
    }
}

/// The upper case of an ASCII letter; any other character itself.
fn to_upper(c: char) -> (upper: char)
    ensures
        upper == ascii_upper(c),
{
    if 'a' <= c && c <= 'z' {
        ((c as u8) - 32) as char
    } else {
        c
    }
}

/// The number of bytes that `c` takes in UTF-8.
fn width_of(c: char) -> (width: usize)
    ensures
        width == utf8_width(c),
{
    let code = c as u32;
    if code < 0x80 {
        1
    } else if code < 0x800 {
        2
    } else if code < 0x10000 {
        3
    } else {
        4
    }
}

/// The symbol that a typed code stands for.
fn symbol_of(c: char) -> (symbol: Option<Correctness>)
    ensures
        symbol == code_symbol(c),
{
    if c == 'C' {
        Some(Correctness::Correct)
    } else if c == 'M' {
        Some(Correctness::Misplaced)
    } else if c == 'W' {
        Some(Correctness::Wrong)
    } else {
        None
    }
}

/// Reads the mask that a sequence of codes writes.
pub fn parse_codes(codes: &Vec<char>) -> (mask: Result<[Correctness; 5], MaskError>)
    ensures
        match mask {
            Ok(symbols) => codes_mask(codes@) == Ok::<Seq<Correctness>, MaskError>(symbols@),
            Err(error) => codes_mask(codes@) == Err::<Seq<Correctness>, MaskError>(error),
        },
{
    // The bytes that the codes take, counted no further than is needed to
    // tell five from more.
    let mut bytes: usize = 0;
    let mut i: usize = 0;
    while i < codes.len() && bytes <= 5
        invariant
            i <= codes@.len(),
            bytes <= 9,
            bytes == utf8_len(codes@.take(i as int)),
        decreases codes@.len() - i,
    {
        proof {
            assert(codes@.take(i + 1).drop_last() =~= codes@.take(i as int));
            assert(codes@.take(i + 1).last() == codes@[i as int]);
        }
        bytes = bytes + width_of(codes[i]);
        i += 1;
    }
    proof {
        lemma_utf8_len_grows(codes@, i as int);
        if i == codes@.len() {
            assert(codes@.take(i as int) =~= codes@);
        }
        lemma_utf8_len_bound(codes@);
        lemma_first_unknown(codes@, 0);
    }
    if bytes != 5 {
        return Err(MaskError::WrongLength);
    }
    let mut symbols = [Correctness::Wrong;5];
    let mut k: usize = 0;
    while k < codes.len()
        invariant
            k <= codes@.len() <= 5,
            utf8_len(codes@) == 5,
            forall|j: int| 0 <= j < k ==> code_symbol(#[trigger] codes@[j]) == Some(symbols@[j]),
            first_unknown(codes@, 0) == first_unknown(codes@, k as int),
        decreases codes@.len() - k,
    {
        match symbol_of(codes[k]) {
            Some(symbol) => {
                symbols[k] = symbol;
            },
            None => {
                return Err(MaskError::Unrecognized(codes[k]));
            },
        }
        k += 1;
    }
    proof {
        lemma_known_codes_len(codes@);
        assert(symbols@ =~= Seq::new(codes@.len(), |i: int| code_symbol(codes@[i]).unwrap()));
    }
    Ok(symbols)
}

/// The codes of what a player typed: the blanks are taken out and the
/// letters are put into upper case.
pub fn read_codes(input: &str) -> (codes: Vec<char>)
    ensures
        codes@ == typed_codes(input@),
{
    let len = input.unicode_len();
    let mut codes: Vec<char> = Vec::new();
    let mut i: usize = 0;
    while i < len
        invariant
            i <= len,
            len == input@.len(),
            codes@ == typed_codes(input@.take(i as int)),
        decreases len - i,
    {
        let c = input.get_char(i);
        proof {
            assert(input@.take(i + 1).drop_last() =~= input@.take(i as int));
            assert(input@.take(i + 1).last() == c);
        }
        if !is_blank(c) {
            codes.push(to_upper(c));
        }
        i += 1;
    }
    proof {
        assert(input@.take(len as int) =~= input@);
    }
    codes
}

/// Reads a mask from what a player typed.
pub fn parse_mask(input: &str) -> (mask: Result<[Correctness; 5], MaskError>)
    ensures
        match mask {
            Ok(symbols) => typed_mask(input@) == Ok::<Seq<Correctness>, MaskError>(symbols@),
            Err(error) => typed_mask(input@) == Err::<Seq<Correctness>, MaskError>(error),
        },
{
    let codes = read_codes(input);
    parse_codes(&codes)
}

} // verus!
