//! The text boundary: a retained record leaves the library as text, or the
//! run fails.

use crate::error::EncodingError;
use vstd::prelude::*;
use vstd::slice::slice_to_vec;
use vstd::utf8::decode_utf8;
use vstd::utf8::encode_utf8;
use vstd::utf8::valid_utf8;

verus! {

/// Calls `std::str::from_utf8`.
///
/// Trusted: text comes back exactly for bytes that are valid UTF-8, and it
/// is the text that those bytes encode.
#[verifier::external_body]
fn utf8_text<'a>(bytes: &'a [u8]) -> (text: Option<&'a str>)
    ensures
        text is Some <==> valid_utf8(bytes@),
        text matches Some(s) ==> encode_utf8(s@) == bytes@,
{
    match std::str::from_utf8(bytes) {
        Ok(s) => Some(s),
        Err(_) => None,
    }
}

/// What decoding `bytes` has to give: their text where they are valid
/// UTF-8, else an error that carries them.
pub open spec fn decoded(bytes: Seq<u8>, r: Result<&str, EncodingError>) -> bool {
    match r {
        Ok(text) => valid_utf8(bytes) && text@ == decode_utf8(bytes),
        Err(e) => !valid_utf8(bytes) && e.bytes@ == bytes,
    }
}

/// Reads `bytes` as text. Nothing is dropped or replaced: bytes that are not
/// valid UTF-8 are an error.
pub fn decode<'a>(bytes: &'a [u8]) -> (r: Result<&'a str, EncodingError>)
    ensures
        decoded(bytes@, r),
{
    match utf8_text(bytes) {
        Some(text) => {
            proof {
                vstd::utf8::encode_utf8_decode_utf8(text@);
            }
            Ok(text)
        },
        None => Err(EncodingError { bytes: slice_to_vec(bytes) }),
    }
}

} // verus!
