//! Byte strings: the one string type of the format, also used for keys.

use vstd::prelude::*;
use vstd::std_specs::cmp::PartialEqSpecImpl;
use vstd::string::{StrSliceExecFns, StringSliceAdditionalSpecFns};

verus! {

/// An owned sequence of bytes, not necessarily valid text.
///
/// Its meaning is the sequence of its bytes and nothing else: equality and
/// hashing go by the raw bytes, never by a reading of them as text.
#[derive(Debug, Hash)]
pub struct ByteString(pub Vec<u8>);

impl View for ByteString {
    type V = Seq<u8>;

    open spec fn view(&self) -> Seq<u8> {
        self.0@
    }
}

/// The text that bytes show as: they are read as UTF-8, and each stretch
/// that is no valid UTF-8 gives the replacement character U+FFFD. The text
/// is for people to look at. It does not tell byte strings apart, since
/// different bytes can show as the same text.
pub uninterp spec fn lossy_text(bytes: Seq<u8>) -> Seq<char>;

/// Calls `String::from_utf8_lossy` and takes the text as a `String` of its
/// own. The contract only gives the result its name, [`lossy_text`]: the
/// same bytes always show as the same text.
#[verifier::external_body]
fn utf8_lossy(bytes: &Vec<u8>) -> (text: String)
    ensures
        text@ == lossy_text(bytes@),
{
    String::from_utf8_lossy(bytes).into_owned()
}

impl ByteString {
    /// The bytes as text for people to look at, see [`lossy_text`].
    pub fn to_string(&self) -> (text: String)
        ensures
            text@ == lossy_text(self@),
    {
        utf8_lossy(&self.0)
    }
}

impl PartialEq for ByteString {
    /// Two byte strings are equal when they hold the same bytes.
    fn eq(&self, other: &ByteString) -> (same: bool) {
        let same = self.0 == other.0;
        proof {
            if same {
                assert(self.0@ =~= other.0@);
            }
        }
        same
    }
}

impl PartialEqSpecImpl for ByteString {
    open spec fn obeys_eq_spec() -> bool {
        true
    }

    open spec fn eq_spec(&self, other: &ByteString) -> bool {
        self@ == other@
    }
}

impl Eq for ByteString {

}

/// Conversion into a [`ByteString`].
pub trait ToByteString {
    /// The bytes that the conversion yields.
    spec fn byte_content(&self) -> Seq<u8>;

    /// Copies the bytes of `self` into a new byte string.
    fn to_bytestring(&self) -> (out: ByteString)
        ensures
            out@ == self.byte_content(),
    ;
}

impl ToByteString for str {
    /// A `str` yields its UTF-8 encoding.
    open spec fn byte_content(&self) -> Seq<u8> {
        self.spec_bytes()
    }

    fn to_bytestring(&self) -> (out: ByteString) {
        ByteString(self.as_bytes_vec())
    }
}

} // verus!
