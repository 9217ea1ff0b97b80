//! The narrow profile: 32-bit words.

pub mod word;
