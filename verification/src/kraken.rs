//! An interoperable Kraken byte stream.

use vstd::prelude::*;

pub mod array_laws;
pub mod arrays;
pub mod bit_laws;
pub mod bits;
pub mod cursor;
pub mod decoder;
pub mod encoder;
pub mod huffman;
pub mod huffman_codes;
pub mod huffman_encoder;
pub mod huffman_laws;
pub mod lz;
pub mod lz_encoder;
pub mod lz_laws;
pub mod lz_plan_laws;
pub mod readers;
pub mod side_laws;
pub mod stream_laws;
pub mod tables;
pub mod tans;
pub mod tans_encoder;
pub mod tans_laws;
pub mod tans_weights;
pub mod writers;

pub use decoder::decode;
pub use encoder::encode;

verus! {

/// Reports malformed or unsupported Kraken streams.
#[derive(Debug, PartialEq, Eq, Structural, Clone, Copy)]
pub enum KrakenError {
    /// The encoded stream ended before the declared output was complete.
    Truncated { offset: usize },
    /// A block header does not identify a supported Kraken block.
    InvalidHeader { offset: usize },
    /// The stream uses a compressed quantum that is not supported.
    UnsupportedQuantum { offset: usize },
    /// A compressed quantum or inner chunk violates the format grammar.
    InvalidQuantum { offset: usize },
    /// A byte-array entropy envelope violates the format grammar.
    InvalidArray { offset: usize },
    /// The decoder produced a different amount of data than requested.
    TrailingData { offset: usize },
}

} // verus!
