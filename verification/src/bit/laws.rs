//! What holds of every bit range.

use crate::arch::word::{Word, WORD_BITS};
use crate::bit::{bit_range, low_bits_words, ApBig};
use crate::magnitude::{lemma_bit_position, lemma_word_base, lemma_word_weight, word_base, word_weight};
use crate::ubig::{lemma_canonical_unique, ReprView, UBig};
use vstd::arithmetic::div_mod::{
    lemma_basic_div, lemma_div_denominator, lemma_div_multiples_vanish_fancy, lemma_mod_bound,
    lemma_mod_breakdown, lemma_mod_mod, lemma_small_mod,
};
use vstd::arithmetic::power2::{
    lemma2_to64, lemma_pow2_adds, lemma_pow2_pos, lemma_pow2_strictly_increases, pow2,
};
use vstd::prelude::*;

verus! {

/// Bit `i` of `value`, bit 0 being the least significant.
pub open spec fn bit(value: nat, i: nat) -> bool {
    (value / pow2(i)) % 2 == 1
}

/// Word `i` of `value`, word 0 being the least significant.
pub open spec fn word_of(value: nat, i: nat) -> nat {
    (value / word_weight(i)) % word_base()
}

/// Dropping `i` bits from the low `n` bits of a number leaves the low
/// `n - i` bits of the number without its `i` lowest.
pub proof fn lemma_low_bits_shifted(value: nat, n: nat, i: nat)
    requires
        i <= n,
    ensures
        (value % pow2(n)) / pow2(i) == (value / pow2(i)) % pow2((n - i) as nat),
{
    let low = pow2(i) as int;
    let high = pow2((n - i) as nat) as int;
    lemma_pow2_pos(i);
    lemma_pow2_pos((n - i) as nat);
    lemma_pow2_adds(i, (n - i) as nat);
    lemma_mod_breakdown(value as int, low, high);
    lemma_mod_bound(value as int, low);
    lemma_div_multiples_vanish_fancy((value as int / low) % high, value as int % low, low);
}

/// The range is the bit string of the value restricted to positions
/// `down..=up`: its bit `i` is bit `down + i` of the value where that lies in
/// the range, and is not set beyond.
pub proof fn lemma_range_bits(value: nat, up: nat, down: nat, i: nat)
    requires
        down <= up + 1,
    ensures
        bit(bit_range(value, up, down), i) == (down + i <= up && bit(value, down + i)),
{
    let len = (up + 1 - down) as nat;
    let shifted = value / pow2(down);
    let slice = bit_range(value, up, down);
    lemma_pow2_pos(down);
    lemma_pow2_pos(i);
    lemma_pow2_pos(len);
    lemma2_to64();
    if i < len {
        lemma_low_bits_shifted(shifted, len, i);
        // One bit of headroom is left above bit `i`, so the lowest bit of
        // what remains is that of the shifted value.
        lemma_pow2_adds(1, (len - i - 1) as nat);
        lemma_pow2_pos((len - i - 1) as nat);
        lemma_mod_mod((shifted / pow2(i)) as int, 2, pow2((len - i - 1) as nat) as int);
        lemma_div_denominator(value as int, pow2(down) as int, pow2(i) as int);
        lemma_pow2_adds(down, i);
    } else {
        lemma_mod_bound(shifted as int, pow2(len) as int);
        if i > len {
            lemma_pow2_strictly_increases(len, i);
        }
        lemma_basic_div(slice as int, pow2(i) as int);
    }
}

/// An empty range is zero, whatever the value.
pub proof fn lemma_range_empty(value: nat, up: nat)
    ensures
        bit_range(value, up, up + 1) == 0,
{
    lemma2_to64();
}

/// The range of all the bits of a word is the word.
pub proof fn lemma_range_whole_word(word: Word)
    ensures
        bit_range(word as nat, (WORD_BITS - 1) as nat, 0) == word as nat,
{
    lemma2_to64();
    lemma_word_base();
    lemma_small_mod(word as nat, word_base());
}

/// A range whose length is a whole number of words takes whole words: each
/// of its words, the most significant among them, is that word of the
/// shifted value bit for bit, and there is nothing above them.
pub proof fn lemma_range_word_boundary(value: nat, up: nat, down: nat, i: nat)
    requires
        down <= up + 1,
        (up + 1 - down) % WORD_BITS as int == 0,
    ensures
        word_of(bit_range(value, up, down), i) == (if i < (up + 1 - down) / WORD_BITS as int {
            word_of(value / pow2(down), i)
        } else {
            0
        }),
{
    let len = (up + 1 - down) as nat;
    let count = len / WORD_BITS as nat;
    let shifted = value / pow2(down);
    let slice = bit_range(value, up, down);
    lemma_bit_position(len);
    lemma_pow2_pos(len);
    lemma_word_weight(i);
    lemma_word_base();
    if i < count {
        lemma_low_bits_shifted(shifted, len, WORD_BITS as nat * i);
        let above = (WORD_BITS as nat * (count - i - 1)) as nat;
        assert(len - WORD_BITS as nat * i == WORD_BITS as nat + above);
        lemma_pow2_adds(WORD_BITS as nat, above);
        lemma_pow2_pos(above);
        lemma_mod_mod((shifted / word_weight(i)) as int, word_base() as int, pow2(above) as int);
    } else {
        lemma_mod_bound(shifted as int, pow2(len) as int);
        if i > count {
            lemma_pow2_strictly_increases(len, WORD_BITS as nat * i);
        }
        lemma_basic_div(slice as int, word_weight(i) as int);
    }
}

/// Keeping a whole number of words masks none of them: every word that is
/// left is the one that was there.
pub proof fn lemma_low_bits_words_boundary(words: Seq<Word>, len: nat)
    requires
        len % WORD_BITS as nat == 0,
    ensures
        low_bits_words(words, len).len() == (if words.len() <= len / WORD_BITS as nat {
            words.len()
        } else {
            len / WORD_BITS as nat
        }),
        forall|i: int|
            0 <= i < low_bits_words(words, len).len() ==> low_bits_words(words, len)[i] == words[i],
{
}

/// The range depends on the number alone, not on how the operand is stored:
/// whatever forms two operands have, if they stand for the same number then
/// their canonical ranges are stored alike.
pub proof fn lemma_range_representation_transparent(
    a: ReprView,
    b: ReprView,
    range_a: ReprView,
    range_b: ReprView,
    up: nat,
    down: nat,
)
    requires
        a.value() == b.value(),
        range_a.is_canonical(),
        range_b.is_canonical(),
        range_a.value() == bit_range(a.value(), up, down),
        range_b.value() == bit_range(b.value(), up, down),
    ensures
        range_a == range_b,
{
    lemma_canonical_unique(range_a, range_b);
}

/// The range of a word and the range of the big integer that stands for the
/// same number are the same number, and the latter is stored as that word.
pub proof fn lemma_range_same_for_word_and_big(
    word: Word,
    big: UBig,
    range_word: Word,
    range_big: UBig,
    up: nat,
    down: nat,
)
    requires
        big.magnitude() == word.magnitude(),
        range_word.magnitude() == bit_range(word.magnitude(), up, down),
        range_big.magnitude() == bit_range(big.magnitude(), up, down),
        range_big.representation().is_canonical(),
    ensures
        range_big.magnitude() == range_word.magnitude(),
        range_big.representation() == ReprView::Small(range_word),
{
    lemma_canonical_unique(range_big.representation(), ReprView::Small(range_word));
}

} // verus!
