//! A lossless codec for byte streams dominated by runs of `0x00` and `0xFF`.
//!
//! `compress` turns runs into two-byte records and passes other bytes through;
//! `decompress` is its exact inverse and rejects malformed streams with an
//! [`Error`]. The first four bytes of every compressed stream are complemented.
pub mod decoder;
pub mod encoder;
pub mod laws;
pub mod wire;

pub use decoder::decompress;
pub use encoder::compress;
pub use wire::{Error, MAX_FF_RUN, MAX_ZERO_RUN};
