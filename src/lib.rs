//! Run-length encoding of byte sequences.
//!
//! An encoded stream is a flat sequence of pairs: each pair is a value byte
//! followed by a count byte in `1..=255`, and stands for `count` copies of
//! `value`.

pub mod codec;
pub mod config;
