//! Masks as integers: a base-3 code with the first position most significant.

use crate::correctness::{all_correct, Correctness};
use vstd::prelude::*;

verus! {

/// Number of distinct masks.
pub const MAX_MASK_ENUM: usize = 3 * 3 * 3 * 3 * 3;

/// The base-3 digit that stands for a symbol.
pub open spec fn digit(c: Correctness) -> nat {
    match c {
        Correctness::Correct => 0,
        Correctness::Misplaced => 1,
        Correctness::Wrong => 2,
    }
}

/// The symbol that a base-3 digit stands for.
pub open spec fn symbol(d: int) -> Correctness {
    if d == 0 {
        Correctness::Correct
    } else if d == 1 {
        Correctness::Misplaced
    } else {
        Correctness::Wrong
    }
}

/// The integer whose base-3 digits, most significant first, are the symbols
/// of `mask`.
pub open spec fn mask_index(mask: Seq<Correctness>) -> nat
    decreases mask.len(),
{
    if mask.len() == 0 {
        0
    } else {
        3 * mask_index(mask.drop_last()) + digit(mask.last())
    }
}

/// The mask of five symbols whose index is `index`.
pub open spec fn index_mask(index: nat) -> Seq<Correctness> {
    seq![
        symbol(index as int / 81 % 3),
        symbol(index as int / 27 % 3),
        symbol(index as int / 9 % 3),
        symbol(index as int / 3 % 3),
        symbol(index as int % 3),
    ]
}

/// The index of a mask of five symbols, written out digit by digit.
pub proof fn lemma_mask_index_digits(mask: Seq<Correctness>)
    requires
        mask.len() == 5,
    ensures
        mask_index(mask) == 81 * digit(mask[0]) + 27 * digit(mask[1]) + 9 * digit(mask[2]) + 3
            * digit(mask[3]) + digit(mask[4]),
        mask_index(mask) < MAX_MASK_ENUM,
{
    let m4 = mask.drop_last();
    let m3 = m4.drop_last();
    let m2 = m3.drop_last();
    let m1 = m2.drop_last();
    let m0 = m1.drop_last();
    assert(m0.len() == 0);
    assert(mask_index(m0) == 0);
    assert(mask_index(m1) == 3 * mask_index(m0) + digit(m1.last()));
    assert(mask_index(m2) == 3 * mask_index(m1) + digit(m2.last()));
    assert(mask_index(m3) == 3 * mask_index(m2) + digit(m3.last()));
    assert(mask_index(m4) == 3 * mask_index(m3) + digit(m4.last()));
    assert(mask_index(mask) == 3 * mask_index(m4) + digit(mask.last()));
}

/// Every mask of five symbols is the mask of its own index.
pub proof fn lemma_index_mask_of_mask_index(mask: Seq<Correctness>)
    requires
        mask.len() == 5,
    ensures
        index_mask(mask_index(mask)) == mask,
{
    lemma_mask_index_digits(mask);
    assert(index_mask(mask_index(mask)) =~= mask);
}

/// Every index below 243 is the index of its own mask.
pub proof fn lemma_mask_index_of_index_mask(index: nat)
    requires
        index < MAX_MASK_ENUM,
    ensures
        index_mask(index).len() == 5,
        mask_index(index_mask(index)) == index,
{
    let m = index_mask(index);
    lemma_mask_index_digits(m);
    lemma_base3_digits(index as int);
    assert(digit(m[0]) == index as int / 81 % 3);
    assert(digit(m[1]) == index as int / 27 % 3);
    assert(digit(m[2]) == index as int / 9 % 3);
    assert(digit(m[3]) == index as int / 3 % 3);
    assert(digit(m[4]) == index as int % 3);
}

/// A number below 243 is the sum of its five base-3 digits, each weighted by
/// its power of three.
proof fn lemma_base3_digits(n: int)
    requires
        0 <= n < 243,
    ensures
        n == 81 * (n / 81 % 3) + 27 * (n / 27 % 3) + 9 * (n / 9 % 3) + 3 * (n / 3 % 3) + n % 3,
{
    let q1 = n / 3;
    let q2 = n / 9;
    let q3 = n / 27;
    let q4 = n / 81;
    assert(q2 == q1 / 3);
    assert(q3 == q2 / 3);
    assert(q4 == q3 / 3);
    assert(q4 < 3);
}

/// The mask of a solved game has index 0.
pub proof fn lemma_index_of_all_correct()
    ensures
        mask_index(all_correct()) == 0,
{
    lemma_mask_index_digits(all_correct());
}

/// Two masks of five symbols with the same index are the same mask.
pub proof fn lemma_mask_index_injective(a: Seq<Correctness>, b: Seq<Correctness>)
    requires
        a.len() == 5,
        b.len() == 5,
        mask_index(a) == mask_index(b),
    ensures
        a == b,
{
    lemma_index_mask_of_mask_index(a);
    lemma_index_mask_of_mask_index(b);
}

/// `a` comes before `b` in the dictionary order in which `Correct` precedes
/// `Misplaced` and `Misplaced` precedes `Wrong`.
pub open spec fn mask_precedes(a: Seq<Correctness>, b: Seq<Correctness>) -> bool {
    exists|k: int|
        0 <= k < a.len() && k < b.len() && digit(#[trigger] a[k]) < digit(b[k]) && forall|j: int|
            0 <= j < k ==> a[j] == b[j]
}

/// Counting indices upward walks the masks in dictionary order.
pub proof fn lemma_index_order_is_mask_order(a: Seq<Correctness>, b: Seq<Correctness>)
    requires
        a.len() == 5,
        b.len() == 5,
    ensures
        (mask_index(a) < mask_index(b)) == mask_precedes(a, b),
{
    lemma_mask_index_digits(a);
    lemma_mask_index_digits(b);
    if mask_precedes(a, b) {
        let k = choose|k: int|
            0 <= k < a.len() && k < b.len() && digit(#[trigger] a[k]) < digit(b[k]) && forall|
                j: int,
            |
                0 <= j < k ==> a[j] == b[j];
        assert(forall|j: int| 0 <= j < k ==> a[j] == b[j]);
        if k >= 1 {
            assert(a[0] == b[0]);
        }
        if k >= 2 {
            assert(a[1] == b[1]);
        }
        if k >= 3 {
            assert(a[2] == b[2]);
        }
        if k >= 4 {
            assert(a[3] == b[3]);
        }
    } else if mask_index(a) < mask_index(b) {
        let k: int = if a[0] != b[0] {
            0
        } else if a[1] != b[1] {
            1
        } else if a[2] != b[2] {
            2
        } else if a[3] != b[3] {
            3
        } else {
            4
        };
        assert(digit(a[k]) < digit(b[k]));
        assert(forall|j: int| 0 <= j < k ==> a[j] == b[j]);
        assert(mask_precedes(a, b));
    }
}

/// The integer that stands for one symbol.
fn symbol_digit(c: Correctness) -> (d: usize)
    ensures
        d == digit(c),
{
    match c {
        Correctness::Correct => 0,
        Correctness::Misplaced => 1,
        Correctness::Wrong => 2,
    }
}

/// The symbol that stands at a digit; `d` is below 3.
fn digit_symbol(d: usize) -> (c: Correctness)
    requires
        d < 3,
    ensures
        c == symbol(d as int),
        digit(c) == d,
{
    if d == 0 {
        Correctness::Correct
    } else if d == 1 {
        Correctness::Misplaced
    } else {
        Correctness::Wrong
    }
}

/// Packs a mask into its index.
pub fn enumerate_mask(mask: &[Correctness; 5]) -> (index: usize)
    ensures
        index == mask_index(mask@),
        index < MAX_MASK_ENUM,
{
    let mut acc: usize = 0;
    let mut i: usize = 0;
    while i < 5
        invariant
            i <= 5,
            acc == mask_index(mask@.take(i as int)),
            acc < pow3(i as nat),
        decreases 5 - i,
    {
        proof {
            let longer = mask@.take(i + 1);
            assert(longer.drop_last() =~= mask@.take(i as int));
            assert(longer.last() == mask@[i as int]);
            reveal_with_fuel(pow3, 6);
        }
        acc = acc * 3 + symbol_digit(mask[i]);
        i += 1;
    }
    proof {
        assert(mask@.take(5) =~= mask@);
        reveal_with_fuel(pow3, 6);
    }
    acc
}

/// Three to the power `n`.
pub open spec fn pow3(n: nat) -> nat
    decreases n,
{
    if n == 0 {
        1
    } else {
        3 * pow3((n - 1) as nat)
    }
}

/// Unpacks an index into the mask it stands for.
pub fn mask_of_index(index: usize) -> (mask: [Correctness; 5])
    requires
        index < MAX_MASK_ENUM,
    ensures
        mask@ == index_mask(index as nat),
        mask_index(mask@) == index,
{
    let mask = [
        digit_symbol(index / 81 % 3),
        digit_symbol(index / 27 % 3),
        digit_symbol(index / 9 % 3),
        digit_symbol(index / 3 % 3),
        digit_symbol(index % 3),
    ];
    proof {
        assert(mask@ =~= index_mask(index as nat));
        lemma_mask_index_of_index_mask(index as nat);
    }
    mask
}

impl Correctness {
    /// All 243 masks, in dictionary order: the mask at position `i` is the
    /// one whose index is `i`.
    pub fn patterns() -> (all: Vec<[Correctness; 5]>)
        ensures
            all@.len() == MAX_MASK_ENUM,
            forall|i: int| 0 <= i < MAX_MASK_ENUM ==> (#[trigger] all@[i])@ == index_mask(i as nat),
    {
        let mut all: Vec<[Correctness; 5]> = Vec::new();
        let mut index: usize = 0;
        while index < MAX_MASK_ENUM
            invariant
                index <= MAX_MASK_ENUM,
                all@.len() == index,
                forall|i: int| 0 <= i < index ==> (#[trigger] all@[i])@ == index_mask(i as nat),
            decreases MAX_MASK_ENUM - index,
        {
            all.push(mask_of_index(index));
            index += 1;
        }
        all
    }
}

/// A mask packed into a single byte: its index plus one, which is never
/// zero, so that zero is free to stand for an absent mask.
#[derive(Debug, Copy, Clone)]
pub struct PackedCorrectness(u8);

impl PackedCorrectness {
    /// The byte holds the mask's index plus one.
    #[verifier::type_invariant]
    spec fn in_range(self) -> bool {
        1 <= self.0 <= MAX_MASK_ENUM
    }

    /// The index of the mask that is packed here.
    pub closed spec fn index(self) -> nat {
        (self.0 - 1) as nat
    }

    /// The value that packs the mask with index `index`.
    pub closed spec fn of_index(index: nat) -> PackedCorrectness {
        PackedCorrectness((index + 1) as u8)
    }

    /// Packing keeps the index, for every index a mask can have.
    pub proof fn lemma_index_of_index(index: nat)
        requires
            index < MAX_MASK_ENUM,
        ensures
            Self::of_index(index).index() == index,
    {
    }
}

impl From<[Correctness; 5]> for PackedCorrectness {
    fn from(c: [Correctness; 5]) -> (packed: Self) {
        let index = enumerate_mask(&c);
        PackedCorrectness((index + 1) as u8)
    }
}

impl vstd::std_specs::convert::FromSpecImpl<[Correctness; 5]> for PackedCorrectness {
    open spec fn obeys_from_spec() -> bool {
        true
    }

    open spec fn from_spec(c: [Correctness; 5]) -> Self {
        PackedCorrectness::of_index(mask_index(c@))
    }
}

impl From<PackedCorrectness> for u8 {
    fn from(this: PackedCorrectness) -> (index: u8) {
        proof {
            use_type_invariant(&this);
        }
        this.0 - 1
    }
}

impl vstd::std_specs::convert::FromSpecImpl<PackedCorrectness> for u8 {
    open spec fn obeys_from_spec() -> bool {
        true
    }

    open spec fn from_spec(this: PackedCorrectness) -> u8 {
        this.index() as u8
    }
}

} // verus!
