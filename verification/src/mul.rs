//! Multiplication by a word.

use crate::arch::word::{
    lemma_double_word_holds_product, lemma_double_word_split, DoubleWord, Word, WORD_BITS,
};
use crate::buffer::Buffer;
use crate::magnitude::{
    lemma_value_bound, lemma_value_push, lemma_word_base, lemma_word_weight, word_base, word_weight, words_value,
};
use vstd::arithmetic::div_mod::{lemma_div_is_ordered, lemma_div_multiples_vanish, lemma_fundamental_div_mod};
use vstd::prelude::*;

verus! {

/// Multiplies the number in `words` by `factor` and adds `addend` to it.
///
/// The buffer grows by one word exactly when the result does not fit in the
/// words that it had; it is not trimmed.
pub fn mul_add_word_in_place(words: &mut Buffer, factor: Word, addend: Word)
    ensures
        final(words).value() == old(words).value() * factor + addend,
        final(words)@.len() == old(words)@.len() + (if final(words).value() < word_weight(
            old(words)@.len(),
        ) {
            0nat
        } else {
            1nat
        }),
{
    let len = words.len();
    let mut carry: Word = addend;
    let mut i: usize = 0;
    proof {
        lemma_word_weight(0);
        assert(words@.take(0) =~= Seq::<Word>::empty());
        assert(words_value(words@.take(0)) * factor == 0) by (nonlinear_arith)
            requires
                words_value(words@.take(0)) == 0,
        ;
    }
    while i < len
        invariant
            i <= len,
            len == words@.len(),
            len == old(words)@.len(),
            words@.skip(i as int) == old(words)@.skip(i as int),
            words_value(words@.take(i as int)) + carry * word_weight(i as nat) == words_value(
                old(words)@.take(i as int),
            ) * factor + addend,
        decreases len - i,
    {
        let word = words.get(i);
        assert(word == old(words)@.skip(i as int)[0]);
        proof {
            lemma_double_word_holds_product(word, factor, carry);
        }
        let total: DoubleWord = word as DoubleWord * factor as DoubleWord + carry as DoubleWord;
        proof {
            lemma_word_base();
            lemma_double_word_split(total);
            let base = word_base() as int;
            assert(total <= (base - 1) * base) by (nonlinear_arith)
                requires
                    total == word * factor + carry,
                    word <= base - 1,
                    factor <= base - 1,
                    carry <= base - 1,
            ;
            lemma_div_is_ordered(total as int, (base - 1) * base, base);
            assert((base - 1) * base == base * (base - 1)) by (nonlinear_arith);
            lemma_div_multiples_vanish(base - 1, base);
            lemma_fundamental_div_mod(total as int, base);
        }
        let low = (total & (Word::MAX as DoubleWord)) as Word;
        let high = (total >> WORD_BITS) as Word;
        let ghost before = words@;
        words.set(i, low);
        proof {
            let done = before.take(i as int);
            let done_old = old(words)@.take(i as int);
            assert(words@.take(i + 1) =~= done.push(low));
            assert(old(words)@.take(i + 1) =~= done_old.push(word));
            assert(words@.skip(i + 1) =~= before.skip(i as int).skip(1));
            assert(old(words)@.skip(i + 1) =~= old(words)@.skip(i as int).skip(1));
            lemma_value_push(done, low);
            lemma_value_push(done_old, word);
            lemma_word_weight(i as nat);
            let weight = word_weight(i as nat) as int;
            let base = word_base() as int;
            let value = words_value(done) as int;
            let value_old = words_value(done_old) as int;
            assert(value + low * weight + high * (base * weight) == (value_old + word * weight)
                * factor + addend) by (nonlinear_arith)
                requires
                    value + carry * weight == value_old * factor + addend,
                    word * factor + carry == base * high + low,
            ;
        }
        carry = high;
        i += 1;
    }
    proof {
        assert(words@.take(len as int) =~= words@);
        assert(old(words)@.take(len as int) =~= old(words)@);
        lemma_value_push(words@, carry);
        lemma_value_bound(words@);
        let weight = word_weight(len as nat);
        assert(carry >= 1 ==> carry * weight >= weight) by (nonlinear_arith);
    }
    if carry != 0 {
        words.push(carry);
    }
}

} // verus!
