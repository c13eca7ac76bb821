//! Decoder for the LZ4 block format.
//!
//! A block is a run of sequences. Each sequence opens with a token byte, carries a run of
//! literal bytes and, except for the last one, a match: a back-reference into the bytes
//! already produced (or into an external dictionary that logically precedes them).
//!
//! [`format`] holds the mathematical model of the format and [`decompress`] the decoder that
//! is proved to compute it. [`laws`] holds theorems about the model, and [`block`] the proof
//! that decoding undoes encoding.

pub mod backref;
pub mod block;
pub mod bytes;
pub mod decompress;
pub mod error;
pub mod format;
pub mod history;
pub mod laws;
pub mod reader;
pub mod sink;
