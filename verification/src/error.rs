//! What encoding and decoding can report instead of a result.

use vstd::prelude::*;

verus! {

/// The conditions under which no result is given.
#[derive(Debug, Clone, Copy, PartialEq, Eq, Structural)]
pub enum CodecError {
    /// The input to encode holds no byte, so there is no symbol to build a
    /// tree from.
    EmptyInput,
    /// The tree to decode with is empty, or one of its nodes has exactly one
    /// child or a child outside the tree.
    MalformedTree,
    /// The payload is not a sequence of whole codewords: its last
    /// `unconsumed` bits belong to no codeword.
    TruncatedOrInvalidPayload { unconsumed: usize },
    /// The bytes of a container end before its header, its tree or its pad
    /// count is complete.
    TruncatedContainer,
    /// The pad count of a container is above 7 or above the number of bits
    /// in its payload.
    InvalidPadCount,
}

} // verus!
