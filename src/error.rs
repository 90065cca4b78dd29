use vstd::prelude::*;

verus! {

/// Why decoding stopped. Every error is final: the data after it is not read.
#[derive(Debug, Clone, Copy, PartialEq, Eq, Structural)]
pub enum DecodeError {
    /// The data does not begin with the start-of-image marker.
    NotJpeg,
    /// A segment runs past the end of the data.
    Truncated,
    /// No code of the Huffman table matches the next bits.
    BadHuffmanCode,
    /// The entropy-coded bits ran out in the middle of a sample.
    OutOfBits,
    /// A Huffman table maps a code to a magnitude category above 16.
    BadCategory,
    /// A component has no Huffman table, or its table holds no code.
    MissingTable,
    /// The frame or scan header describes an image that cannot be decoded.
    BadHeader,
    /// A scan starts before any frame header.
    MissingFrame,
    /// A marker that this decoder does not handle.
    UnsupportedMarker(u16),
}

} // verus!
