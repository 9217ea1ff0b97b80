//! Bit-range extraction for arbitrary-precision unsigned integers.
//!
//! A big integer is a little-endian sequence of machine words. This crate
//! extracts a contiguous run of bits `[down, up]` from such an integer and
//! returns it as a new, canonical integer. Every function carries a contract
//! over the mathematical value of its operands.

pub mod arch;
pub mod bit;
pub mod buffer;
pub mod magnitude;
pub mod mul;
pub mod parse;
pub mod shift;
pub mod ubig;

pub use crate::bit::WORD_BITS;
pub use crate::ubig::UBig;
