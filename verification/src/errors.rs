//! What can go wrong while decoding or encoding.

use vstd::prelude::*;
use crate::reader::ReadError;

verus! {

/// Why a message could not be decoded or a term could not be encoded.
#[derive(Debug, Clone, PartialEq, Eq)]
pub enum CodecError {
    /// The message does not start with the version byte 131.
    UnsupportedETFVersion,
    /// A compressed message inflated to another length than it declares.
    CompressedSizeMismatch,
    /// The input ended before the term did.
    ReadError(ReadError),
    /// A term starts with a byte that is no tag.
    UnknownTermTagByte { b: u8 },
    /// An option has a value that is not one of those it can take.
    BadOptions { txt: String },
    /// An integer does not fit the four-byte form.
    IntegerEncodingRange { i: i64 },
    /// A float, given by its bit pattern, is an infinity or not a number.
    NonFiniteFloat { bits: u64 },
    /// The compressed part of a message is no zlib stream.
    IOError,
    /// Text is not UTF-8.
    EncodingError,
    /// An atom's name takes more than 65535 bytes.
    AtomTooLong,
    /// A length or a count does not fit the field that announces it.
    LengthOutOfRange,
    /// The term has no encoding.
    UnsupportedTerm,
}

pub type CodecResult<T> = Result<T, CodecError>;

impl vstd::std_specs::convert::FromSpecImpl<ReadError> for CodecError {
    open spec fn obeys_from_spec() -> bool {
        true
    }

    open spec fn from_spec(err: ReadError) -> Self {
        CodecError::ReadError(err)
    }
}

impl From<ReadError> for CodecError {
    fn from(err: ReadError) -> (r: Self) {
        CodecError::ReadError(err)
    }
}

/// The error for an input that ended too soon.
pub open spec fn truncated() -> CodecError {
    CodecError::ReadError(ReadError::BufferTooShort)
}

} // verus!
