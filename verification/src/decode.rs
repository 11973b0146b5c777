//! Lossy decoding of a line's bytes as text.

use vstd::prelude::*;
use vstd::utf8::valid_utf8;

verus! {

/// The UTF-8 bytes of the text that lossy decoding makes of `bytes`: every
/// maximal ill-formed stretch is replaced by the replacement character.
pub uninterp spec fn lossy_utf8(bytes: Seq<u8>) -> Seq<u8>;

/// The bytes a line is searched in: well-formed UTF-8 is searched as it is,
/// anything else after lossy decoding.
pub open spec fn decoded(bytes: Seq<u8>) -> Seq<u8> {
    if valid_utf8(bytes) {
        bytes
    } else {
        lossy_utf8(bytes)
    }
}

/// Decodes `line` with `String::from_utf8_lossy` and hands back the bytes of
/// the resulting text.
///
/// Trusted: std documents that well-formed UTF-8 comes back unchanged; for any
/// other input the result is only named, as `lossy_utf8` of the input.
#[verifier::external_body]
pub(crate) fn decode_lossy(line: &[u8]) -> (text: Vec<u8>)
    ensures
        text@ == decoded(line@),
        !valid_utf8(line@) ==> text@ == lossy_utf8(line@),
{
    String::from_utf8_lossy(line).into_owned().into_bytes()
}

} // verus!
