//! The ways in which decoding can fail.

use vstd::prelude::*;

verus! {

/// Why a sequence of bytes is not one bencode object.
///
/// A decode call reports at most one error, the first that it meets, and
/// returns no partial tree.
#[derive(Clone, Copy, Debug, PartialEq, Eq, Structural, Hash)]
pub enum DecodeError {
    /// The input ended where an object had to start.
    ObjectNotFound,
    /// The byte at the start of an object is none of `d`, `i`, `l` or a digit.
    UnexpectedByte,
    /// The digits of an integer are not followed by `e`.
    MalformedInteger,
    /// An integer is well formed but lies outside the 64-bit signed range.
    IntegerOverflow,
    /// The length digits of a string are not followed by `:`.
    MalformedString,
    /// A string declares more bytes than the input still holds.
    LengthMismatch,
    /// The body of a list is not followed by `e`.
    MalformedList,
    /// The body of a dictionary is not followed by `e`.
    MalformedDict,
    /// An object stands where a dictionary key must, and it is not a string.
    InvalidDictKey,
}

impl DecodeError {
    /// Whether the error was found by looking at a byte without consuming it.
    ///
    /// The decoder has then already pulled that byte out of its source, so
    /// the byte is gone from the source although it belongs to no object.
    pub open spec fn found_by_lookahead(self) -> bool {
        match self {
            DecodeError::UnexpectedByte
            | DecodeError::MalformedInteger
            | DecodeError::MalformedString
            | DecodeError::MalformedList
            | DecodeError::MalformedDict => true,
            _ => false,
        }
    }

    /// A short description of the error, for people.
    pub fn message(&self) -> (text: &'static str)
        ensures
            text == self.message_text(),
    {
        match self {
            DecodeError::ObjectNotFound => "BenObject not found",
            DecodeError::UnexpectedByte => "unexpected byte at the start of an object",
            DecodeError::MalformedInteger => "parsing integer failed: expected 'e'",
            DecodeError::IntegerOverflow => "parsing integer failed: value out of range",
            DecodeError::MalformedString => "parsing string failed: expected ':'",
            DecodeError::LengthMismatch => "parsing string failed: length mismatches",
            DecodeError::MalformedList => "parsing list failed: expected 'e'",
            DecodeError::MalformedDict => "parsing dict failed: expected 'e'",
            DecodeError::InvalidDictKey => "parsing dict failed: key is not a string",
        }
    }

    /// The text that [`DecodeError::message`] returns.
    pub open spec fn message_text(self) -> &'static str {
        match self {
            DecodeError::ObjectNotFound => "BenObject not found",
            DecodeError::UnexpectedByte => "unexpected byte at the start of an object",
            DecodeError::MalformedInteger => "parsing integer failed: expected 'e'",
            DecodeError::IntegerOverflow => "parsing integer failed: value out of range",
            DecodeError::MalformedString => "parsing string failed: expected ':'",
            DecodeError::LengthMismatch => "parsing string failed: length mismatches",
            DecodeError::MalformedList => "parsing list failed: expected 'e'",
            DecodeError::MalformedDict => "parsing dict failed: expected 'e'",
            DecodeError::InvalidDictKey => "parsing dict failed: key is not a string",
        }
    }
}

} // verus!
