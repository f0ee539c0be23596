use vstd::prelude::*;

verus! {

/// Why a message could not be decoded or encoded.
#[derive(Debug, Clone, Copy, PartialEq, Eq)]
pub enum Error {
    /// The input ended before a declared length was satisfied.
    UnexpectedEnd,
    /// The bytes of an atom are not valid UTF-8.
    InvalidUtf8,
    /// The first byte is not the format's version marker.
    UnknownFormatVersion(u8),
    /// A tag byte names no known term type.
    UnknownTermType(u8),
    /// A length does not fit in the widest length field of its term type.
    TooLarge,
}

pub type Result<T> = core::result::Result<T, Error>;

} // verus!
