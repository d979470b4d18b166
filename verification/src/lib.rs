//! Lossless compression of byte sequences with Huffman codes.
//!
//! `encode::encode_data` turns the bytes into a decode tree, a payload of
//! bits behind its padding, and the pad count; `decode::decode` walks the
//! tree along the payload and gives the bytes back. `wire` holds the two as
//! functions from bytes to bytes, with the container format between them.
//!
//! The stages of encoding are modules of their own: `frequency` counts the
//! byte values and orders the leaves, `forest` merges them into the tree,
//! `codes` derives the codewords. `laws` states what holds of encoding and
//! decoding together.

pub mod bits;
pub mod codes;
pub mod decode;
pub mod encode;
pub mod error;
pub mod forest;
pub mod frequency;
pub mod laws;
pub mod tree_util;
pub mod wire;
