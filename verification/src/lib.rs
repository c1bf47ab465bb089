//! First-appearance label encoding.
//!
//! A label encoder maps every distinct value of an input sequence to a small
//! integer code: the first distinct value seen gets `0`, the second gets `1`,
//! and so on, and every later occurrence of a value reuses the code of its
//! first occurrence.  The encoding is a pure function of the input sequence;
//! no mapping survives a call.

pub mod encoding;
pub mod laws;
