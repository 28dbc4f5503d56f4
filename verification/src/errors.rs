//! Typed errors for decoding and for path resolution.

use vstd::prelude::*;

verus! {

/// Why a byte buffer could not be decoded into a tree.
#[derive(Clone, Copy, Debug, PartialEq, Eq, Structural)]
pub enum DecodeError {
    /// The input buffer is not valid UTF-8 text.
    EncodingError,
    /// A length field is not a well-formed non-negative decimal integer.
    MalformedLengthPrefix,
    /// A declared token length runs past the end of the buffer.
    TruncatedInput,
    /// A group is left unterminated, the root group marker is missing, or a
    /// structural marker stands where a key or a value is expected.
    UnexpectedEndOfInput,
}

/// Why a path lookup over a decoded tree failed.
#[derive(Clone, Copy, Debug, PartialEq, Eq, Structural)]
pub enum PathError {
    /// A path segment names a key that is absent from the addressed group.
    PathNotFound,
    /// The traversal expected a group but found a scalar, or the value at the
    /// end of the path is not of the requested variant.
    TypeMismatch,
}

} // verus!
