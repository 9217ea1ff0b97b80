//! Words of the wide profile.

use vstd::arithmetic::div_mod::lemma_mod_bound;
use vstd::arithmetic::mul::lemma_mul_strict_inequality;
use vstd::arithmetic::power2::{
    lemma2_to64, lemma2_to64_rest, lemma_pow2_adds, lemma_pow2_pos, pow2,
};
use vstd::bits::{
    lemma_u64_low_bits_mask_is_mod, lemma_u64_pow2_no_overflow, lemma_u64_shl_is_mul,
    lemma_u64_shr_is_div, low_bits_mask,
};
use vstd::prelude::*;

verus! {

/// Machine word.
pub type Word = u64;

/// Number of bits in a machine word.
pub const WORD_BITS: usize = 64;

/// Signed machine word.
pub type SignedWord = i64;

/// Double machine word.
pub type DoubleWord = u128;

/// A word holds exactly the numbers below `2^WORD_BITS`.
pub proof fn lemma_word_limit()
    ensures
        Word::MAX as nat + 1 == pow2(WORD_BITS as nat),
{
    lemma2_to64();
    lemma2_to64_rest();
}

/// A double word holds the product of two words plus a third word, so a
/// multiply-and-carry step never overflows.
pub proof fn lemma_double_word_holds_product(a: Word, b: Word, carry: Word)
    ensures
        a * b + carry <= DoubleWord::MAX,
{
    assert(a * b <= Word::MAX * Word::MAX) by (nonlinear_arith)
        requires
            0 <= a <= Word::MAX,
            0 <= b <= Word::MAX,
    ;
}

/// The low half of a double word is its remainder by `2^WORD_BITS`, the high
/// half its quotient.
pub proof fn lemma_double_word_split(t: DoubleWord)
    ensures
        (t & (Word::MAX as DoubleWord)) as nat == t as nat % pow2(WORD_BITS as nat),
        (t >> WORD_BITS) as nat == t as nat / pow2(WORD_BITS as nat),
{
    lemma_word_limit();
    assert(t & 0xffff_ffff_ffff_ffffu128 == t % 0x1_0000_0000_0000_0000u128) by (bit_vector);
    assert(t >> 64usize == t / 0x1_0000_0000_0000_0000u128) by (bit_vector);
}

/// Shifting a word right by `shift` bits divides it by `2^shift`.
pub proof fn lemma_shr_is_div(x: Word, shift: usize)
    requires
        shift < WORD_BITS,
    ensures
        (x >> shift) as nat == x as nat / pow2(shift as nat),
{
    lemma_u64_shr_is_div(x, shift as u64);
}

/// `(1 << n) - 1` keeps exactly the low `n` bits: masking with it is the
/// remainder by `2^n`.
pub proof fn lemma_low_mask(x: Word, n: usize)
    requires
        n < WORD_BITS,
    ensures
        ((1 as Word) << n) as nat == pow2(n as nat),
        (x & ((((1 as Word) << n) - 1) as Word)) as nat == x as nat % pow2(n as nat),
{
    lemma_u64_pow2_no_overflow(n as nat);
    lemma_u64_shl_is_mul(1, n as u64);
    assert((((1 as Word) << n) - 1) as Word == low_bits_mask(n as nat) as Word);
    lemma_u64_low_bits_mask_is_mod(x, n as nat);
}

/// For `0 < shift < WORD_BITS`, the word made of the high bits of `lo` and the
/// low `shift` bits of `hi` is `lo / 2^shift + (hi % 2^shift) * 2^(WORD_BITS - shift)`.
pub proof fn lemma_funnel_shift(lo: Word, hi: Word, shift: usize)
    requires
        0 < shift < WORD_BITS,
    ensures
        ((lo >> shift) | (hi << ((WORD_BITS - shift) as usize))) as nat == lo as nat / pow2(
            shift as nat,
        ) + (hi as nat % pow2(shift as nat)) * pow2((WORD_BITS - shift) as nat),
{
    let s = shift as u64;
    let up = (64 - s) as u64;
    let kept = hi & (((1u64 << s) - 1) as u64);
    assert((lo >> s) | (hi << up) == (lo >> s) + (kept << up)) by (bit_vector)
        requires
            0 < s < 64,
            up == 64 - s,
            kept == hi & (((1u64 << s) - 1) as u64),
    ;
    lemma_shr_is_div(lo, shift);
    lemma_low_mask(hi, shift);
    // The kept bits, moved up, still fit in a word.
    lemma_pow2_pos(shift as nat);
    lemma_mod_bound(hi as int, pow2(shift as nat) as int);
    lemma_pow2_adds(shift as nat, up as nat);
    lemma_word_limit();
    lemma_pow2_pos(up as nat);
    lemma_mul_strict_inequality(kept as int, pow2(shift as nat) as int, pow2(up as nat) as int);
    lemma_u64_shl_is_mul(kept, up);
}

} // verus!
