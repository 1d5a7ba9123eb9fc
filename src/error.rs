//! The failures of the codecs, one variant per kind.
use vstd::prelude::*;

verus! {

/// Why an encode or a decode failed.
#[derive(Debug, Clone, Copy, PartialEq, Eq, Structural)]
pub enum CodecError {
    InvalidBase64,
    CapacityOverflow,
    InvalidHuffmanTable,
    TruncatedInput,
    InvalidToken,
    UnrepresentableNumber,
    InvalidTag,
    UnsupportedVersion,
    InvalidReference,
    StringTooLarge,
    TooLarge,
    RecursionLimit,
    PayloadTooLarge,
    InvalidKey,
    DeflateFailure,
}

impl CodecError {
    /// A one-line description of the failure.
    pub fn message(&self) -> &'static str {
        match self {
            CodecError::InvalidBase64 => "failed to decode base64",
            CodecError::CapacityOverflow => "cannot calculate capacity without overflowing",
            CodecError::InvalidHuffmanTable => "invalid Huffman code table",
            CodecError::TruncatedInput => "unexpected end of input",
            CodecError::InvalidToken => "invalid token",
            CodecError::UnrepresentableNumber => "the number cannot be represented",
            CodecError::InvalidTag => "invalid tag",
            CodecError::UnsupportedVersion => "unsupported serialization version",
            CodecError::InvalidReference => "invalid reference",
            CodecError::StringTooLarge => "string is too large",
            CodecError::TooLarge => "too large: 2^24 items or more, or 2^24 different strings",
            CodecError::RecursionLimit => "recursion limit exceeded",
            CodecError::PayloadTooLarge => "compressed data is too large",
            CodecError::InvalidKey => "map key can't be null",
            CodecError::DeflateFailure => "failed to DEFLATE or INFLATE",
        }
    }
}

} // verus!
