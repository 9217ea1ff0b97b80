//! Shift right by a number of bits.

use crate::arch::word::{lemma_funnel_shift, lemma_shr_is_div, Word, WORD_BITS};
use crate::buffer::Buffer;
use crate::magnitude::{
    lemma_bit_position, lemma_value_bound, lemma_value_take_skip, lemma_word_base,
    lemma_word_weight, lemma_word_weight_monotonic, word_base, word_weight, words_value,
};
use crate::ubig::{Repr, UBig};
use core::ops::Shr;
use vstd::arithmetic::div_mod::{
    lemma_basic_div, lemma_div_denominator, lemma_fundamental_div_mod,
    lemma_hoist_over_denominator, lemma_mod_bound, lemma_mod_multiples_vanish,
};
use vstd::arithmetic::power2::{
    lemma2_to64, lemma_pow2_adds, lemma_pow2_pos, lemma_pow2_strictly_increases, pow2,
};
use vstd::prelude::*;
use vstd::std_specs::ops::ShrSpecImpl;

verus! {

/// Word `i` of `words` shifted right by `shift < WORD_BITS` bits: the high
/// bits of word `i`, and above them the low `shift` bits of word `i + 1`.
pub open spec fn shifted_word(words: Seq<Word>, i: int, shift: nat) -> nat {
    let low = words[i] as nat / pow2(shift);
    let high = if i + 1 < words.len() {
        words[i + 1] as nat % pow2(shift)
    } else {
        0
    };
    low + high * pow2((WORD_BITS as nat - shift) as nat)
}

/// `words` shifted right by `shift < WORD_BITS` bits.
pub open spec fn shifted_words(words: Seq<Word>, shift: nat) -> Seq<Word> {
    Seq::new(words.len(), |i: int| shifted_word(words, i, shift) as Word)
}

/// `words` shifted right by any number of bits: whole words are dropped
/// first, and what is left is shifted by the remaining bits.
pub open spec fn shr_words_spec(words: Seq<Word>, bits: nat) -> Seq<Word> {
    let skip = bits / WORD_BITS as nat;
    if skip >= words.len() {
        Seq::empty()
    } else {
        shifted_words(words.skip(skip as int), bits % WORD_BITS as nat)
    }
}

/// A shifted word fits in a word.
pub proof fn lemma_shifted_word_fits(words: Seq<Word>, i: int, shift: nat)
    requires
        0 <= i < words.len(),
        shift < WORD_BITS,
    ensures
        shifted_word(words, i, shift) <= Word::MAX,
{
    let p = pow2(shift);
    let q = pow2((WORD_BITS as nat - shift) as nat);
    let low = words[i] as nat / p;
    let high = if i + 1 < words.len() {
        words[i + 1] as nat % p
    } else {
        0
    };
    lemma_word_base();
    lemma_pow2_pos(shift);
    lemma_pow2_pos((WORD_BITS as nat - shift) as nat);
    lemma_pow2_adds(shift, (WORD_BITS as nat - shift) as nat);
    if i + 1 < words.len() {
        lemma_mod_bound(words[i + 1] as int, p as int);
    }
    // low < q, because low * p <= words[i] < p * q.
    lemma_fundamental_div_mod(words[i] as int, p as int);
    assert(low < q) by (nonlinear_arith)
        requires
            p * low <= words[i],
            words[i] < p * q,
            p > 0,
    ;
    assert(low + high * q < p * q) by (nonlinear_arith)
        requires
            low < q,
            high + 1 <= p,
    ;
}

/// Shifting the words right by `shift` bits divides the value by `2^shift`.
pub proof fn lemma_shifted_words_value(words: Seq<Word>, shift: nat)
    requires
        shift < WORD_BITS,
    ensures
        words_value(shifted_words(words, shift)) == words_value(words) / pow2(shift),
    decreases words.len(),
{
    let p = pow2(shift);
    let q = pow2((WORD_BITS as nat - shift) as nat);
    let shifted = shifted_words(words, shift);
    lemma_pow2_pos(shift);
    lemma_pow2_adds(shift, (WORD_BITS as nat - shift) as nat);
    if words.len() == 0 {
        lemma_basic_div(0, p as int);
    } else {
        let rest = words.skip(1);
        let above = words_value(rest);
        assert(shifted.skip(1) =~= shifted_words(rest, shift)) by {
            assert forall|i: int| 0 <= i < rest.len() implies shifted_word(words, i + 1, shift)
                == shifted_word(rest, i, shift) by {}
        }
        lemma_shifted_words_value(rest, shift);
        lemma_shifted_word_fits(words, 0, shift);
        // The bits that come down into word 0 are the low bits of all that
        // lies above it.
        let high = if words.len() > 1 {
            words[1] as nat % p
        } else {
            0
        };
        assert(high == above % p) by {
            if words.len() > 1 {
                let beyond = words_value(rest.skip(1));
                assert(word_base() * beyond == p * (q * beyond)) by (nonlinear_arith)
                    requires
                        word_base() == p * q,
                ;
                lemma_mod_multiples_vanish((q * beyond) as int, words[1] as int, p as int);
            } else {
                lemma_basic_div(0, p as int);
                lemma_fundamental_div_mod(0, p as int);
            }
        }
        lemma_fundamental_div_mod(above as int, p as int);
        let low = words[0] as nat / p;
        assert(low + high * q + word_base() * (above / p) == low + q * above) by (nonlinear_arith)
            requires
                word_base() == p * q,
                above == p * (above / p) + high,
        ;
        assert(words[0] + word_base() * above == words[0] + (q * above) * p) by (nonlinear_arith)
            requires
                word_base() == p * q,
        ;
        lemma_hoist_over_denominator(words[0] as int, (q * above) as int, p);
    }
}

/// The words of `words` shifted right by `bits` bits, not trimmed.
pub fn shr_words(words: &Buffer, bits: usize) -> (shifted: Buffer)
    ensures
        shifted.value() == words.value() / pow2(bits as nat),
        shifted@ == shr_words_spec(words@, bits as nat),
{
    let skip = bits / WORD_BITS;
    let shift = bits % WORD_BITS;
    let len = words.len();
    let ghost value = words.value();
    proof {
        lemma_bit_position(bits as nat);
        lemma_pow2_pos(bits as nat);
        lemma_pow2_pos(shift as nat);
        lemma_pow2_adds(WORD_BITS as nat * skip as nat, shift as nat);
    }
    if skip >= len {
        proof {
            lemma_value_bound(words@);
            lemma_word_weight_monotonic(len as nat, skip as nat);
            if shift > 0 {
                lemma_pow2_strictly_increases(WORD_BITS as nat * skip as nat, bits as nat);
            }
            lemma_basic_div(value as int, pow2(bits as nat) as int);
        }
        return Buffer::allocate(0);
    }
    let ghost high = words@.skip(skip as int);
    let mut shifted = Buffer::allocate(len - skip);
    let mut i = skip;
    while i < len
        invariant
            skip <= i <= len,
            len == words@.len(),
            shift < WORD_BITS,
            high == words@.skip(skip as int),
            shifted@ == shifted_words(high, shift as nat).take(i - skip),
        decreases len - i,
    {
        let low = words.get(i);
        let word = if shift == 0 {
            proof {
                lemma2_to64();
            }
            low
        } else {
            let above = if i + 1 < len {
                words.get(i + 1)
            } else {
                0
            };
            proof {
                lemma_funnel_shift(low, above, shift);
                lemma_pow2_pos(shift as nat);
                lemma_basic_div(0, pow2(shift as nat) as int);
                lemma_fundamental_div_mod(0, pow2(shift as nat) as int);
            }
            (low >> shift) | (above << (WORD_BITS - shift))
        };
        assert(word as nat == shifted_word(high, i - skip, shift as nat));
        shifted.push(word);
        i += 1;
        assert(shifted@ =~= shifted_words(high, shift as nat).take(i - skip));
    }
    proof {
        assert(shifted@ =~= shifted_words(high, shift as nat));
        lemma_shifted_words_value(high, shift as nat);
        lemma_value_take_skip(words@, skip as nat);
        lemma_word_weight(skip as nat);
        lemma_div_denominator(value as int, word_weight(skip as nat) as int, pow2(shift as nat) as int);
    }
    shifted
}

/// No function of a big integer gives the shifted one: a contract cannot
/// build a buffer from words. What `shr` returns is stated by its own
/// `ensures`, over views.
impl ShrSpecImpl<usize> for &UBig {
    open spec fn obeys_shr_spec() -> bool {
        false
    }

    open spec fn shr_req(self, rhs: usize) -> bool {
        true
    }

    open spec fn shr_spec(self, rhs: usize) -> UBig {
        arbitrary()
    }
}

impl Shr<usize> for &UBig {
    type Output = UBig;

    /// `self` without its `rhs` least-significant bits: `self / 2^rhs`.
    fn shr(self, rhs: usize) -> (shifted: UBig)
        ensures
            shifted@ == self@ / pow2(rhs as nat),
            shifted.representation().is_canonical(),
    {
        match self.repr() {
            Repr::Small(word) => {
                if rhs >= WORD_BITS {
                    proof {
                        lemma_word_base();
                        if rhs > WORD_BITS {
                            lemma_pow2_strictly_increases(WORD_BITS as nat, rhs as nat);
                        }
                        lemma_basic_div(*word as int, pow2(rhs as nat) as int);
                    }
                    UBig::from_word(0)
                } else {
                    proof {
                        lemma_shr_is_div(*word, rhs);
                    }
                    UBig::from_word(*word >> rhs)
                }
            },
            Repr::Large(buffer) => UBig::from(shr_words(buffer, rhs)),
        }
    }
}

} // verus!
