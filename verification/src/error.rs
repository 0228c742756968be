//! The ways in which decoding can fail.

use vstd::prelude::*;

verus! {

/// Why a binary blob was refused.
#[derive(Debug, Clone, Copy, PartialEq, Eq, Structural)]
pub enum DecodeError {
    /// The blob ends before the data that its own prefixes announce.
    Truncated,
    /// Bytes are left over after the data that the prefixes announce.
    TrailingBytes,
    /// A text field is not well-formed UTF-8.
    InvalidText,
    /// A key occurs a second time.
    DuplicateKey,
    /// A byte that should open a field, or a field's content, is not what
    /// the format asks for at that place.
    Malformed,
}

/// Says that a text is not the JSON form of a record: it is no JSON
/// object, or a field is missing, is there twice, is unknown or holds a
/// value of another type.
#[derive(Debug, Clone, Copy, PartialEq, Eq, Structural)]
pub struct ParseError;

/// A buffer that should hold exactly `expected` items holds `actual`.
#[derive(Debug, Clone, Copy, PartialEq, Eq, Structural)]
pub struct SizeMismatchError {
    pub expected: usize,
    pub actual: usize,
}

} // verus!
