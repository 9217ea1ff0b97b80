//! Bit ranges of big integers.

pub mod laws;

use crate::arch::word::{lemma_low_mask, lemma_shr_is_div, Word};
use crate::buffer::Buffer;
use crate::magnitude::{
    is_trimmed, lemma_bit_position, lemma_value_bound, lemma_value_push, lemma_value_take_skip,
    lemma_word_base, lemma_word_weight, lemma_word_weight_monotonic, trim, word_base, word_weight,
    words_value,
};
use crate::ubig::{lemma_canonical_small, Repr, UBig};
use core::ops::{Range, Shr};
use std::borrow::Cow;
use vstd::arithmetic::div_mod::{
    lemma_basic_div, lemma_mod_bound, lemma_mod_breakdown, lemma_mod_multiples_vanish,
    lemma_small_mod,
};
use vstd::arithmetic::power2::{
    lemma2_to64, lemma_pow2_adds, lemma_pow2_pos, lemma_pow2_strictly_increases, pow2,
};
use vstd::prelude::*;
use vstd::std_specs::convert::FromSpecImpl;

verus! {

/// Number of bits in a machine word.
pub const WORD_BITS: usize = crate::arch::word::WORD_BITS;

/// A window onto the words of a buffer, from word `start` up to but not
/// including word `end`.
///
/// A view borrows its buffer or owns it. A narrower view made from it shares
/// a borrowed buffer, and takes a copy of an owned one. Its view is the
/// sequence of words in the window.
pub struct Ap<'a> {
    inner: Cow<'a, Buffer>,
    range: Range<usize>,
}

impl<'a> View for Ap<'a> {
    type V = Seq<Word>;

    open spec fn view(&self) -> Seq<Word> {
        self.buffer().subrange(self.start() as int, self.end() as int)
    }
}

impl Ap<'_> {
    /// The words of the whole buffer under the view.
    pub closed spec fn buffer(&self) -> Seq<Word> {
        self.inner@
    }

    /// The index in the buffer of the first word in the window.
    pub closed spec fn start(&self) -> nat {
        self.range.start as nat
    }

    /// The index in the buffer of the first word past the window.
    pub closed spec fn end(&self) -> nat {
        self.range.end as nat
    }

    /// Whether the view borrows its buffer, rather than owning it.
    pub closed spec fn borrows(&self) -> bool {
        self.inner is Borrowed
    }

    /// Whether the window lies within the buffer. Every view does.
    pub open spec fn in_bounds(&self) -> bool {
        self.start() <= self.end() <= self.buffer().len()
    }

    /// The index in the buffer of the last word in the window. For an empty
    /// window this is one less than [`Ap::down`], so a view whose window ends
    /// at word 0 has none.
    pub fn up(&self) -> (up: usize)
        requires
            self.end() > 0,
        ensures
            up == self.end() - 1,
    {
        self.range.end - 1
    }

    /// The index in the buffer of the first word in the window.
    pub fn down(&self) -> (down: usize)
        ensures
            down == self.start(),
    {
        self.range.start
    }

    /// Whether the view borrows its buffer, rather than owning it.
    pub fn is_borrowed(&self) -> (borrowed: bool)
        ensures
            borrowed == self.borrows(),
    {
        match &self.inner {
            Cow::Borrowed(_) => true,
            Cow::Owned(_) => false,
        }
    }

    /// The number of words in the window.
    pub fn len(&self) -> (len: usize)
        ensures
            len == self@.len(),
            self.in_bounds(),
    {
        proof {
            use_type_invariant(self);
        }
        self.range.end - self.range.start
    }

    /// The word at `index` of the window.
    pub fn word(&self, index: usize) -> (word: Word)
        requires
            index < self@.len(),
        ensures
            word == self@[index as int],
    {
        proof {
            use_type_invariant(self);
        }
        match &self.inner {
            Cow::Borrowed(buffer) => buffer.get(self.range.start + index),
            Cow::Owned(buffer) => buffer.get(self.range.start + index),
        }
    }
}

impl<'a> Ap<'a> {
    #[verifier::type_invariant]
    spec fn within_buffer(&self) -> bool {
        self.range.start <= self.range.end <= self.inner@.len()
    }

    /// The narrower view of words `down..=up` of this window, both counted
    /// from the window's first word. With `down == up + 1` it is empty.
    ///
    /// The range must lie within the window, and must not be inverted.
    pub fn range(&self, up: usize, down: usize) -> (view: Ap<'a>)
        requires
            down <= up + 1,
            self.start() + up < self.end(),
        ensures
            view.buffer() == self.buffer(),
            view.borrows() == self.borrows(),
            view.start() == self.start() + down,
            view.end() == self.start() + up + 1,
            view.in_bounds(),
            view@ == self@.subrange(down as int, up + 1),
    {
        proof {
            use_type_invariant(self);
        }
        let down = down + self.down();
        let up = up + self.down();
        let inner = match &self.inner {
            Cow::Borrowed(buffer) => Cow::Borrowed(*buffer),
            Cow::Owned(buffer) => Cow::Owned(buffer.clone()),
        };
        let view = Ap { inner, range: down..up + 1 };
        assert(view@ =~= self@.subrange(down as int - self.start(), up + 1 - self.start()));
        view
    }
}

impl<'a> FromSpecImpl<&'a Buffer> for Ap<'a> {
    open spec fn obeys_from_spec() -> bool {
        true
    }

    closed spec fn from_spec(buffer: &'a Buffer) -> Ap<'a> {
        Ap { inner: Cow::Borrowed(buffer), range: 0..buffer@.len() as usize }
    }
}

impl<'a> From<&'a Buffer> for Ap<'a> {
    /// The view of all of `buffer`, which it borrows.
    fn from(buffer: &'a Buffer) -> (view: Ap<'a>)
        ensures
            view.borrows(),
            view.buffer() == buffer@,
            view.start() == 0,
            view.end() == buffer@.len(),
            view@ == buffer@,
    {
        let view = Ap { inner: Cow::Borrowed(buffer), range: 0..buffer.len() };
        assert(view@ =~= buffer@);
        view
    }
}

impl<'a> FromSpecImpl<Buffer> for Ap<'a> {
    open spec fn obeys_from_spec() -> bool {
        true
    }

    closed spec fn from_spec(buffer: Buffer) -> Ap<'a> {
        Ap { inner: Cow::Owned(buffer), range: 0..buffer@.len() as usize }
    }
}

impl<'a> From<Buffer> for Ap<'a> {
    /// The view of all of `buffer`, which it owns.
    fn from(buffer: Buffer) -> (view: Ap<'a>)
        ensures
            !view.borrows(),
            view.buffer() == buffer@,
            view.start() == 0,
            view.end() == buffer@.len(),
            view@ == buffer@,
    {
        let view = Ap { range: 0..buffer.len(), inner: Cow::Owned(buffer) };
        assert(view@ =~= buffer@);
        view
    }
}

/// The number formed by bits `down..=up` of `value`, bit `down` becoming the
/// least significant: `(value >> down) mod 2^(up - down + 1)`. With
/// `down == up + 1` the range is empty and the number is zero.
pub open spec fn bit_range(value: nat, up: nat, down: nat) -> nat
    recommends
        down <= up + 1,
{
    (value / pow2(down)) % pow2((up + 1 - down) as nat)
}

/// Extraction of a bit range, for every type that stands for a natural
/// number.
pub trait ApBig: Sized {
    /// The number that `self` stands for.
    spec fn magnitude(&self) -> nat;

    /// Bits `down..=up` of `self`, counted from the least-significant bit 0,
    /// as a number of its own. Bits beyond the most-significant bit of `self`
    /// are zero. With `down == up + 1` the result is zero.
    fn range(&self, up: usize, down: usize) -> (slice: Self)
        requires
            down <= up + 1 <= usize::MAX,
        ensures
            slice.magnitude() == bit_range(self.magnitude(), up as nat, down as nat),
            down == up + 1 ==> slice.magnitude() == 0,
    ;
}

/// The low `len` bits of `word`; all of it when `len` is `WORD_BITS` or more.
pub fn low_bits(word: Word, len: usize) -> (low: Word)
    ensures
        low as nat == word as nat % pow2(len as nat),
{
    if len >= WORD_BITS {
        proof {
            lemma_word_base();
            if len > WORD_BITS {
                lemma_pow2_strictly_increases(WORD_BITS as nat, len as nat);
            }
            lemma_small_mod(word as nat, pow2(len as nat));
        }
        word
    } else {
        proof {
            lemma_low_mask(word, len);
            lemma_pow2_pos(len as nat);
        }
        let one: Word = 1;
        word & ((one << len) - 1)
    }
}

impl ApBig for Word {
    open spec fn magnitude(&self) -> nat {
        *self as nat
    }

    fn range(&self, up: usize, down: usize) -> (slice: Word) {
        proof {
            lemma_pow2_pos(down as nat);
            lemma_pow2_pos((up + 1 - down) as nat);
            lemma_word_base();
        }
        if down >= WORD_BITS {
            proof {
                if down > WORD_BITS {
                    lemma_pow2_strictly_increases(WORD_BITS as nat, down as nat);
                }
                lemma_basic_div(*self as int, pow2(down as nat) as int);
                lemma_small_mod(0, pow2((up + 1 - down) as nat));
            }
            0
        } else {
            proof {
                lemma_shr_is_div(*self, down);
                lemma2_to64();
            }
            let len = up + 1 - down;
            low_bits(*self >> down, len)
        }
    }
}

impl ApBig for UBig {
    open spec fn magnitude(&self) -> nat {
        self@
    }

    /// The result is canonical: it is stored inline exactly when it fits in
    /// one word, and a buffer never ends in a zero word.
    fn range(&self, up: usize, down: usize) -> (slice: UBig)
        ensures
            slice.representation().is_canonical(),
            slice.representation() is Small <==> slice@ < word_base(),
    {
        let shifted = self.shr(down);
        let len = up + 1 - down;
        let slice = match shifted.into_repr() {
            Repr::Small(word) => UBig::from_word(low_bits(word, len)),
            Repr::Large(mut large) => {
                truncate_in_place(&mut large, len);
                UBig::from(large)
            },
        };
        proof {
            lemma2_to64();
            lemma_canonical_small(slice.representation());
        }
        slice
    }
}

/// The words that are left of `words` when only its low `len` bits are kept:
/// whole words below bit `len` stay as they are, and the word that bit `len`
/// falls into keeps its low `len % WORD_BITS` bits. When `len` is a multiple
/// of `WORD_BITS` no word is masked.
pub open spec fn low_bits_words(words: Seq<Word>, len: nat) -> Seq<Word> {
    let full = len / WORD_BITS as nat;
    let rest = len % WORD_BITS as nat;
    if words.len() <= full {
        words
    } else if rest == 0 {
        words.take(full as int)
    } else {
        words.take(full as int).push((words[full as int] as nat % pow2(rest)) as Word)
    }
}

/// Keeping the low `len` bits of the words is the remainder by `2^len`.
pub proof fn lemma_low_bits_words_value(words: Seq<Word>, len: nat)
    ensures
        words_value(low_bits_words(words, len)) == words_value(words) % pow2(len),
{
    let full = len / WORD_BITS as nat;
    let rest = len % WORD_BITS as nat;
    let value = words_value(words);
    lemma_bit_position(len);
    lemma_pow2_pos(len);
    if words.len() <= full {
        lemma_value_bound(words);
        lemma_word_weight_monotonic(words.len(), full);
        if rest > 0 {
            lemma_pow2_strictly_increases(WORD_BITS as nat * full, len);
        }
        lemma_small_mod(value, pow2(len));
    } else if rest == 0 {
        lemma_value_take_skip(words, full);
    } else {
        let low = words.take(full as int);
        let high = words.skip(full as int);
        let top = words[full as int] as nat;
        let kept = top % pow2(rest);
        let weight = word_weight(full);
        lemma_word_weight(full);
        lemma_word_base();
        lemma_pow2_pos(rest);
        lemma_mod_bound(top as int, pow2(rest) as int);
        lemma_pow2_strictly_increases(rest, WORD_BITS as nat);
        lemma_value_push(low, kept as Word);
        lemma_value_take_skip(words, full);
        assert(words_value(low_bits_words(words, len)) == words_value(low) + kept * weight);
        // The remainder by 2^len is the low words plus the remainder of the
        // high part by 2^rest.
        lemma_pow2_adds(WORD_BITS as nat * full, rest);
        lemma_mod_breakdown(value as int, weight as int, pow2(rest) as int);
        assert(value % pow2(len) == weight * (words_value(high) % pow2(rest)) + words_value(low));
        // Of the high part only its lowest word counts.
        let above = words_value(high.skip(1));
        assert(words_value(high) == top + word_base() * above);
        lemma_pow2_adds(rest, (WORD_BITS as nat - rest) as nat);
        let lift = pow2((WORD_BITS as nat - rest) as nat);
        assert(word_base() * above == pow2(rest) * (lift * above)) by (nonlinear_arith)
            requires
                word_base() == pow2(rest) * lift,
        ;
        lemma_mod_multiples_vanish((lift * above) as int, top as int, pow2(rest) as int);
        assert(words_value(high) % pow2(rest) == kept);
        assert(kept * weight == weight * kept) by (nonlinear_arith);
    }
}

/// Shortens `words` to the low `len` bits of its value and trims it.
///
/// When `len` is a multiple of `WORD_BITS`, the most-significant word that is
/// kept stays as it is: only a word that bit `len` falls into is masked.
pub fn truncate_in_place(words: &mut Buffer, len: usize)
    ensures
        final(words).value() == old(words).value() % pow2(len as nat),
        is_trimmed(final(words)@),
        final(words)@ == trim(low_bits_words(old(words)@, len as nat)),
{
    let rest = len % WORD_BITS;
    let len_words = len / WORD_BITS + if rest == 0 { 0 } else { 1 };
    if rest != 0 && words.len() >= len_words {
        let top = words.get(len_words - 1);
        proof {
            lemma_low_mask(top, rest);
            lemma_pow2_pos(rest as nat);
        }
        let one: Word = 1;
        let mask = (one << rest) - 1;
        words.set(len_words - 1, top & mask);
    }
    words.truncate(len_words);
    assert(words@ =~= low_bits_words(old(words)@, len as nat));
    proof {
        lemma_low_bits_words_value(old(words)@, len as nat);
    }
    words.pop_leading_zeros();
}

} // verus!
