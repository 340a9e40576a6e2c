//! Turning the bytes of a segment into text.

use vstd::prelude::*;
use vstd::utf8::{decode_utf8, valid_utf8};

verus! {

/// Ends a line of text.
pub const LINE_END: char = '\n';

/// Why a template could not be processed.
#[derive(Clone, Copy, Debug, PartialEq, Eq, Structural)]
pub enum TemplateError {
    /// The bytes of a segment are not valid UTF-8.
    DecodeFailure,
    /// A placeholder asks for a word of an identifier that has none left, or
    /// never had one.
    UnknownIdentifier,
}

/// Calls `String::from_utf8` on a copy of `bytes`. Trusted, not proved: the
/// call succeeds exactly on valid UTF-8, and the string it yields is the text
/// that these bytes encode.
#[verifier::external_body]
fn from_utf8(bytes: &[u8]) -> (text: Option<String>)
    ensures
        text is Some <==> valid_utf8(bytes@),
        text matches Some(s) ==> s@ == decode_utf8(bytes@),
{
    String::from_utf8(bytes.to_vec()).ok()
}

/// The text that `bytes` hold, or what they fail to be.
pub open spec fn decoded(bytes: Seq<u8>) -> Result<Seq<char>, TemplateError> {
    if valid_utf8(bytes) {
        Ok(decode_utf8(bytes))
    } else {
        Err(TemplateError::DecodeFailure)
    }
}

/// Reads `bytes` as UTF-8 text.
pub fn decode(bytes: &[u8]) -> (text: Result<String, TemplateError>)
    ensures
        (match text {
            Ok(s) => decoded(bytes@) == Ok::<Seq<char>, TemplateError>(s@),
            Err(e) => decoded(bytes@) == Err::<Seq<char>, TemplateError>(e),
        }),
{
    match from_utf8(bytes) {
        Some(s) => Ok(s),
        None => Err(TemplateError::DecodeFailure),
    }
}

} // verus!
