//! Text as this library holds it: the UTF-8 bytes of a string.

use vstd::prelude::*;
use vstd::utf8::*;
use vstd::string::*;

verus! {

/// The characters that `String::from_utf8_lossy` makes of `raw`.
pub uninterp spec fn utf8_lossy(raw: Seq<u8>) -> Seq<char>;

/// The UTF-8 bytes of the lossy decoding of `raw`: what this library keeps
/// wherever the file format stores a string.
pub open spec fn lossy_text(raw: Seq<u8>) -> Seq<u8> {
    encode_utf8(utf8_lossy(raw))
}

/// Calls `String::from_utf8_lossy`. Its contract claims what the std
/// documentation states: the result is a function of the bytes alone, and
/// bytes that are valid UTF-8 decode to exactly the characters they encode.
/// What it makes of invalid sequences is left unsaid.
#[verifier::external_body]
pub(crate) fn from_utf8_lossy(raw: &[u8]) -> (s: String)
    ensures
        s@ == utf8_lossy(raw@),
        valid_utf8(raw@) ==> s@ == decode_utf8(raw@),
{
    String::from_utf8_lossy(raw).into_owned()
}

/// The UTF-8 bytes of the lossy decoding of `raw`.
pub fn lossy_bytes(raw: &[u8]) -> (t: Vec<u8>)
    ensures
        t@ == lossy_text(raw@),
{
    let s = from_utf8_lossy(raw);
    s.as_str().as_bytes_vec()
}

} // verus!
