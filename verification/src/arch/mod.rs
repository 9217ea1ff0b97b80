//! Machine word profiles.
//!
//! A profile fixes the word type, its width, its signed counterpart and a
//! double-width type, together with the facts that tie the word's bit
//! operations to arithmetic. Exactly one profile is active: the one that
//! `word` re-exports. Everything else in the crate is written against that
//! re-export only.

pub mod generic_32_bit;
pub mod generic_64_bit;
pub mod word;
