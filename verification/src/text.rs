//! Trusted boundary for lossy text decoding of resource bytes.

use vstd::prelude::*;

verus! {

/// What lossy UTF-8 decoding yields for the given bytes: their text,
/// with the standard replacement character substituted for invalid
/// byte sequences.
pub uninterp spec fn lossy_decoded(bytes: Seq<u8>) -> Seq<char>;

/// Relies on String::from_utf8_lossy: decodes UTF-8 text, substituting
/// the replacement character for invalid sequences rather than
/// failing; the result is a function of the bytes alone, and is empty
/// exactly when the input is (every input byte yields text, valid
/// sequences their characters and invalid ones the replacement).
#[verifier::external_body]
pub fn decode_lossy(bytes: &Vec<u8>) -> (r: String)
    ensures
        r@ == lossy_decoded(bytes@),
        (r@.len() == 0) == (bytes@.len() == 0),
{
    String::from_utf8_lossy(bytes.as_slice()).into_owned()
}

} // verus!
