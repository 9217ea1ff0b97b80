//! The number that a sequence of words stands for.
//!
//! Words are little-endian: the word at index `i` has weight
//! `2^(WORD_BITS * i)`. Contracts throughout the crate are stated over
//! [`words_value`]; the lemmas here relate it to the operations that the
//! algorithms perform on sequences.

use crate::arch::word::{lemma_word_limit, Word, WORD_BITS};
use vstd::arithmetic::div_mod::{
    lemma_fundamental_div_mod, lemma_fundamental_div_mod_converse, lemma_mod_bound,
};
use vstd::arithmetic::power2::{
    lemma2_to64, lemma_pow2_adds, lemma_pow2_pos, lemma_pow2_strictly_increases, pow2,
};
use vstd::prelude::*;

verus! {

/// The radix of the representation: `2^WORD_BITS`.
pub open spec fn word_base() -> nat {
    pow2(WORD_BITS as nat)
}

/// The weight of the word at index `k`: `2^(WORD_BITS * k)`.
pub open spec fn word_weight(k: nat) -> nat {
    pow2(WORD_BITS as nat * k)
}

/// The number that the little-endian sequence `words` stands for.
pub open spec fn words_value(words: Seq<Word>) -> nat
    decreases words.len(),
{
    if words.len() == 0 {
        0
    } else {
        words[0] as nat + word_base() * words_value(words.skip(1))
    }
}

/// Whether `words` has no superfluous most-significant zero word. The empty
/// sequence is the trimmed form of zero.
pub open spec fn is_trimmed(words: Seq<Word>) -> bool {
    words.len() > 0 ==> words.last() != 0
}

/// `words` without its most-significant zero words.
pub open spec fn trim(words: Seq<Word>) -> Seq<Word>
    decreases words.len(),
{
    if words.len() > 0 && words.last() == 0 {
        trim(words.drop_last())
    } else {
        words
    }
}

/// Every word is below the radix, and the radix is what a word cannot hold.
pub proof fn lemma_word_base()
    ensures
        word_base() == Word::MAX as nat + 1,
        word_base() >= 2,
{
    lemma_word_limit();
}

/// A bit position splits into the index of its word and its place in that
/// word.
pub proof fn lemma_bit_position(position: nat)
    ensures
        position == WORD_BITS as nat * (position / WORD_BITS as nat) + position % WORD_BITS as nat,
        position % (WORD_BITS as nat) < (WORD_BITS as nat),
{
    lemma_fundamental_div_mod(position as int, WORD_BITS as int);
    lemma_mod_bound(position as int, WORD_BITS as int);
}

/// Weights are positive, start at one and grow by the radix.
pub proof fn lemma_word_weight(k: nat)
    ensures
        word_weight(k) > 0,
        word_weight(0) == 1,
        word_weight(k + 1) == word_base() * word_weight(k),
{
    lemma_pow2_pos(WORD_BITS as nat * k);
    lemma2_to64();
    lemma_pow2_adds(WORD_BITS as nat, WORD_BITS as nat * k);
    assert(WORD_BITS as nat * (k + 1) == WORD_BITS as nat + WORD_BITS as nat * k);
}

/// A single word stands for itself.
pub proof fn lemma_value_single(word: Word)
    ensures
        words_value(seq![word]) == word as nat,
{
    let s = seq![word];
    assert(s.skip(1) =~= Seq::<Word>::empty());
    assert(words_value(s.skip(1)) == 0);
    assert(word_base() * 0 == 0);
}

/// Appending a most-significant word adds it with the weight of its index.
pub proof fn lemma_value_push(words: Seq<Word>, word: Word)
    ensures
        words_value(words.push(word)) == words_value(words) + word as nat * word_weight(
            words.len(),
        ),
    decreases words.len(),
{
    let n = words.len();
    let pushed = words.push(word);
    lemma_word_weight(0);
    if n == 0 {
        assert(pushed =~= seq![word]);
        lemma_value_single(word);
        assert(word as nat * 1 == word as nat);
    } else {
        let rest = words.skip(1);
        assert(pushed.skip(1) =~= rest.push(word));
        lemma_value_push(rest, word);
        lemma_word_weight((n - 1) as nat);
        let b = word_base();
        let v = words_value(rest);
        let w = word as nat;
        let p = word_weight((n - 1) as nat);
        assert(b * (v + w * p) == b * v + w * (b * p)) by (nonlinear_arith);
        assert(pushed[0] == words[0]);
        assert(words_value(pushed) == words[0] as nat + b * words_value(rest.push(word)));
    }
}

/// A sequence of `n` words stands for a number below `2^(WORD_BITS * n)`.
pub proof fn lemma_value_bound(words: Seq<Word>)
    ensures
        words_value(words) < word_weight(words.len()),
    decreases words.len(),
{
    let n = words.len();
    lemma_word_weight(0);
    if n > 0 {
        let rest = words.skip(1);
        lemma_value_bound(rest);
        lemma_word_weight((n - 1) as nat);
        lemma_word_base();
        let b = word_base();
        let v = words_value(rest);
        let p = word_weight((n - 1) as nat);
        assert(b * v <= b * p - b) by (nonlinear_arith)
            requires
                v + 1 <= p,
                b > 0,
        ;
    }
}

/// The value splits at any index into the low words and the weighted high
/// words.
pub proof fn lemma_value_split(words: Seq<Word>, k: nat)
    requires
        k <= words.len(),
    ensures
        words_value(words) == words_value(words.take(k as int)) + word_weight(k) * words_value(
            words.skip(k as int),
        ),
    decreases k,
{
    lemma_word_weight(0);
    if k == 0 {
        assert(words.take(0) =~= Seq::<Word>::empty());
        assert(words.skip(0) =~= words);
        assert(1 * words_value(words) == words_value(words));
    } else {
        let rest = words.skip(1);
        let low = words.take(k as int);
        assert(low.skip(1) =~= rest.take(k - 1));
        assert(words.skip(k as int) =~= rest.skip(k - 1));
        lemma_value_split(rest, (k - 1) as nat);
        lemma_word_weight((k - 1) as nat);
        let b = word_base();
        let lo = words_value(rest.take(k - 1));
        let hi = words_value(rest.skip(k - 1));
        let p = word_weight((k - 1) as nat);
        assert(b * (lo + p * hi) == b * lo + (b * p) * hi) by (nonlinear_arith);
    }
}

/// Keeping the low `k` words is the remainder by `2^(WORD_BITS * k)`;
/// dropping them is the quotient.
pub proof fn lemma_value_take_skip(words: Seq<Word>, k: nat)
    requires
        k <= words.len(),
    ensures
        words_value(words.take(k as int)) == words_value(words) % word_weight(k),
        words_value(words.skip(k as int)) == words_value(words) / word_weight(k),
{
    lemma_value_split(words, k);
    lemma_value_bound(words.take(k as int));
    lemma_word_weight(k);
    let d = word_weight(k);
    let q = words_value(words.skip(k as int));
    let r = words_value(words.take(k as int));
    assert(d * q == q * d) by (nonlinear_arith);
    lemma_fundamental_div_mod_converse(words_value(words) as int, d as int, q as int, r as int);
}

/// Weights grow with the index.
pub proof fn lemma_word_weight_monotonic(j: nat, k: nat)
    requires
        j <= k,
    ensures
        word_weight(j) <= word_weight(k),
{
    if j < k {
        lemma_pow2_strictly_increases(WORD_BITS as nat * j, WORD_BITS as nat * k);
    }
}

/// Trimming gives the trimmed prefix that stands for the same number; the
/// words it drops are zero.
pub proof fn lemma_trim(words: Seq<Word>)
    ensures
        is_trimmed(trim(words)),
        words_value(trim(words)) == words_value(words),
        trim(words).len() <= words.len(),
        trim(words) == words.take(trim(words).len() as int),
        forall|i: int| trim(words).len() <= i < words.len() ==> words[i] == 0,
        is_trimmed(words) ==> trim(words) == words,
    decreases words.len(),
{
    if words.len() > 0 && words.last() == 0 {
        let init = words.drop_last();
        lemma_trim(init);
        assert(init.push(0) =~= words);
        lemma_value_push(init, 0);
        assert(trim(words) =~= words.take(trim(words).len() as int));
    } else {
        assert(words.take(words.len() as int) =~= words);
    }
}

/// A non-empty sequence whose top word is not zero stands for at least the
/// weight of that word.
pub proof fn lemma_value_lower_bound(words: Seq<Word>)
    requires
        words.len() > 0,
        words.last() != 0,
    ensures
        words_value(words) >= word_weight((words.len() - 1) as nat),
{
    let init = words.drop_last();
    let top = words.last();
    assert(init.push(top) =~= words);
    lemma_value_push(init, top);
    let p = word_weight(init.len());
    assert(top as nat * p >= p) by (nonlinear_arith)
        requires
            top >= 1,
    ;
}

/// Two sequences of the same length that stand for the same number are the
/// same sequence.
pub proof fn lemma_value_injective(a: Seq<Word>, b: Seq<Word>)
    requires
        a.len() == b.len(),
        words_value(a) == words_value(b),
    ensures
        a == b,
    decreases a.len(),
{
    if a.len() > 0 {
        lemma_word_base();
        let base = word_base() as int;
        let va = words_value(a.skip(1)) as int;
        let vb = words_value(b.skip(1)) as int;
        assert(base * va == va * base && base * vb == vb * base) by (nonlinear_arith);
        lemma_fundamental_div_mod_converse(words_value(a) as int, base, va, a[0] as int);
        lemma_fundamental_div_mod_converse(words_value(b) as int, base, vb, b[0] as int);
        lemma_value_injective(a.skip(1), b.skip(1));
        assert forall|i: int| 0 <= i < a.len() implies a[i] == b[i] by {
            if i > 0 {
                assert(a[i] == a.skip(1)[i - 1]);
                assert(b[i] == b.skip(1)[i - 1]);
            }
        }
    }
    assert(a =~= b);
}

/// A number has exactly one trimmed representation.
pub proof fn lemma_trimmed_unique(a: Seq<Word>, b: Seq<Word>)
    requires
        is_trimmed(a),
        is_trimmed(b),
        words_value(a) == words_value(b),
    ensures
        a == b,
{
    lemma_value_bound(a);
    lemma_value_bound(b);
    if a.len() < b.len() {
        lemma_value_lower_bound(b);
        lemma_word_weight_monotonic(a.len(), (b.len() - 1) as nat);
    } else if b.len() < a.len() {
        lemma_value_lower_bound(a);
        lemma_word_weight_monotonic(b.len(), (a.len() - 1) as nat);
    }
    lemma_value_injective(a, b);
}

} // verus!
