//! The active word profile.

pub use crate::arch::generic_64_bit::word::{
    lemma_double_word_holds_product, lemma_double_word_split, lemma_funnel_shift,
    lemma_low_mask, lemma_shr_is_div, lemma_word_limit, DoubleWord, SignedWord, Word, WORD_BITS,
};
