//! Why a header block cannot be decoded.

use vstd::prelude::*;

verus! {

/// What a header block that stops too early lacks.
#[derive(Clone, Copy, Debug, PartialEq, Eq, Structural)]
pub enum NeedMore {
    /// The block ends where a representation should go on.
    UnexpectedEndOfStream,
    /// The block ends inside an integer.
    IntegerUnderflow,
    /// The block ends inside a string.
    StringUnderflow,
}

/// Why a header block could not be decoded.
#[derive(Clone, Copy, Debug, PartialEq, Eq, Structural)]
pub enum DecoderError {
    /// An index points past both tables.
    InvalidTableIndex,
    /// A string is not the Huffman code of any bytes.
    InvalidHuffmanCode,
    /// A name or a value holds what it must not.
    InvalidUtf8,
    /// A name starts with a colon and names no pseudo-header.
    InvalidPseudoheader,
    /// A table size update is out of bounds, or out of place.
    InvalidMaxDynamicSize,
    /// An integer takes more than five bytes.
    IntegerOverflow,
    /// The block stops too early.
    NeedMore(NeedMore),
}

} // verus!
