//! A streaming DEFLATE block encoder.
//!
//! The encoder consumes arbitrary byte input and produces a conformant
//! DEFLATE bitstream: a sequence of blocks, each encoded as raw (stored),
//! fixed-Huffman, or dynamic-Huffman. It is meant to sit underneath
//! container formats (gzip, zlib) that add their own headers and checksums.

pub mod bits;
pub mod symbol;
pub mod lz77;
pub mod encode;

pub use encode::{BlockType, EncodeOptions, Encoder};
