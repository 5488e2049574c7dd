//! UTF-8 decoding of byte slices, through `std`'s checked and lossy decoders.
use vstd::prelude::*;
use vstd::utf8::{decode_utf8, valid_utf8};

verus! {

/// The text of the `Display` of the `Utf8Error` that `std::str::from_utf8`
/// reports for `bytes` (only meaningful where `bytes` is not valid UTF-8).
pub uninterp spec fn utf8_error_text(bytes: Seq<u8>) -> Seq<char>;

/// The characters of `String::from_utf8_lossy(bytes)`.
pub uninterp spec fn utf8_lossy(bytes: Seq<u8>) -> Seq<char>;

/// Calls `std::str::from_utf8`. Trusted: it succeeds exactly on valid UTF-8
/// (vstd's `valid_utf8`), then yields the decoded characters (vstd's
/// `decode_utf8`); on failure it yields the text of the error's `Display`.
#[verifier::external_body]
pub(crate) fn decode_utf8_checked(bytes: &[u8]) -> (r: Result<String, String>)
    ensures
        r is Ok <==> valid_utf8(bytes@),
        r matches Ok(s) ==> s@ == decode_utf8(bytes@),
        r matches Err(m) ==> m@ == utf8_error_text(bytes@),
{
    match std::str::from_utf8(bytes) {
        Ok(s) => Ok(s.to_string()),
        Err(e) => Err(e.to_string()),
    }
}

/// Calls `String::from_utf8_lossy`. Trusted: the result is a function of the
/// bytes alone, and on valid UTF-8 it is the decoded text unchanged (the
/// function's documentation); what it makes of invalid input is left unsaid.
#[verifier::external_body]
pub(crate) fn decode_utf8_lossy(bytes: &[u8]) -> (r: String)
    ensures
        r@ == utf8_lossy(bytes@),
        valid_utf8(bytes@) ==> r@ == decode_utf8(bytes@),
{
    String::from_utf8_lossy(bytes).into_owned()
}

} // verus!
