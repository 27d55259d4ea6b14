//! A symbol-frequency compressor built on a canonical Huffman prefix code.
//!
//! `encoder::encode` turns text into a self-describing binary artifact:
//! a header carrying the per-symbol code table, followed by a bit-packed
//! payload.  `decoder::decode` reconstructs the original text from such an
//! artifact, rejecting malformed input with a typed error.

use vstd::prelude::*;

pub mod bits;
pub mod decoder;
pub mod encoder;
pub mod huffman_tree;
pub mod laws;

verus! {

/// The four signature bytes that open every artifact: ASCII "CCHF".
pub open spec fn sig_bytes() -> Seq<u8> {
    seq![0x43u8, 0x43u8, 0x48u8, 0x46u8]
}

/// The failures that encoding or decoding can report.
#[derive(Clone, Copy, Debug, PartialEq, Eq, Structural)]
pub enum HuffError {
    /// The first four bytes of the input do not match the expected marker.
    InvalidSignature,
    /// A read required more bytes than remained in the input.
    UnexpectedEndOfInput,
    /// A symbol-table entry's four bytes do not form a unicode scalar value.
    InvalidCodepoint,
    /// The payload bits do not end exactly on a code-table entry.
    IncompleteCode,
    /// A symbol of the text is absent from the code table.
    UnknownSymbol,
}

} // verus!
