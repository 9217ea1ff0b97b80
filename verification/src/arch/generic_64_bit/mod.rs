//! The wide profile: 64-bit words.

pub mod word;
