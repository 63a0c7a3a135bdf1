//! Turning the bytes of a chart file into text: UTF-8 when the bytes are
//! valid UTF-8, Shift-JIS otherwise.

use vstd::prelude::*;
use vstd::utf8::{decode_utf8, encode_utf8, valid_utf8};

verus! {

/// The text `encoding_rs::SHIFT_JIS.decode` produces for `bytes` (with its
/// BOM sniffing and its replacement of malformed sequences).
pub uninterp spec fn shift_jis_text(bytes: Seq<u8>) -> Seq<char>;

/// `std::str::from_utf8`. The contract claims what its documentation says:
/// it succeeds exactly when the bytes are valid UTF-8, and then the string
/// is made of exactly those bytes.
#[verifier::external_body]
fn utf8_str(bytes: &[u8]) -> (r: Option<&str>)
    ensures
        r is Some <==> valid_utf8(bytes@),
        r matches Some(s) ==> encode_utf8(s@) == bytes@,
{
    std::str::from_utf8(bytes).ok()
}

/// `encoding_rs::SHIFT_JIS.decode(bytes)`, its text taken as a `String`.
/// The contract names the result and claims nothing more of it. The call
/// sizes its output buffer with checked arithmetic that it unwraps, so the
/// input is kept well below the address space.
#[verifier::external_body]
fn shift_jis_decode(bytes: &[u8]) -> (r: String)
    requires
        bytes@.len() <= usize::MAX / 8,
    ensures
        r@ == shift_jis_text(bytes@),
{
    encoding_rs::SHIFT_JIS.decode(bytes).0.into_owned()
}

/// The text of a chart file: the bytes as UTF-8 when they are valid UTF-8,
/// otherwise their Shift-JIS decoding.
pub fn decode_text(bytes: &[u8]) -> (r: String)
    requires
        bytes@.len() <= usize::MAX / 8,
    ensures
        valid_utf8(bytes@) ==> r@ == decode_utf8(bytes@),
        !valid_utf8(bytes@) ==> r@ == shift_jis_text(bytes@),
{
    match utf8_str(bytes) {
        Some(s) => {
            proof {
                vstd::utf8::encode_utf8_decode_utf8(s@);
            }
            String::from_str(s)
        },
        None => shift_jis_decode(bytes),
    }
}

} // verus!
