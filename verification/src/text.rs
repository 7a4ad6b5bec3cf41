//! Conversion of decoded byte strings to text.

use vstd::prelude::*;

verus! {

/// Relies on `String::from_utf8`: it succeeds exactly when the bytes are
/// valid UTF-8, and the returned string holds exactly those bytes, so its
/// characters are their UTF-8 decoding.
#[verifier::external_body]
pub(crate) fn utf8_to_string(v: &Vec<u8>) -> (r: Option<String>)
    ensures
        r is Some <==> vstd::utf8::valid_utf8(v@),
        r matches Some(s) ==> s@ == vstd::utf8::decode_utf8(v@),
{
    match String::from_utf8(v.clone()) {
        Ok(s) => Some(s),
        Err(_) => None,
    }
}

} // verus!
