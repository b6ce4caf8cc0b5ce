//! Decoding of bencode, the self-describing serialization used by BitTorrent
//! metadata, into a dynamically typed document tree.
//!
//! The format has four kinds of object: signed integers (`i42e`), byte strings
//! with a decimal length prefix (`4:spam`), lists (`l...e`) and dictionaries
//! (`d...e`). [`BenObject::decode`] reads exactly one object from a source of
//! bytes and returns it, or the first error it meets.
//!
//! The decoder is permissive where the format's canonical form is strict:
//! an integer or a length may have leading zeros or no digit at all (which
//! reads as zero), and the keys of a dictionary may come in any order, a
//! later one replacing an earlier one. It is strict about size: an integer
//! outside the 64-bit signed range is an error, never a wrapped value.
//!
//! The executable functions are verified against contracts. The contracts
//! are written over [`BenValue`], the mathematical value that a
//! [`BenObject`] stands for, and over the rules of the format in
//! [`grammar`]; [`laws`] holds what is proved of those rules for every
//! input. One function is believed and not verified: the call into `std`
//! that turns bytes into text for display, in [`bytestring`].

pub mod bytestring;
pub mod decoder;
pub mod dict;
pub mod error;
pub mod grammar;
pub mod laws;
pub mod object;
pub mod value;

pub use bytestring::{ByteString, ToByteString};
pub use dict::BenDict;
pub use error::DecodeError;
pub use object::BenObject;
pub use value::BenValue;
