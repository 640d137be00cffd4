//! What is taken on trust of the strings of the standard library.
//!
//! Nothing here is proved: each contract states what the documentation of the
//! function says.

use vstd::prelude::*;
use vstd::utf8::{decode_utf8, valid_utf8};

verus! {

/// The text that `String::from_utf8_lossy` makes of bytes that are not UTF-8.
pub uninterp spec fn utf8_lossy(bytes: Seq<u8>) -> Seq<char>;

/// Calls `String::from_utf8_lossy`. Trusted: bytes that are valid UTF-8 come
/// back as the text that they encode, as the function's documentation says;
/// for other bytes the result is the one named [`utf8_lossy`], a function of
/// the bytes alone.
#[verifier::external_body]
pub(crate) fn lossy_string(bytes: &Vec<u8>) -> (text: String)
    ensures
        valid_utf8(bytes@) ==> text@ == decode_utf8(bytes@),
        !valid_utf8(bytes@) ==> text@ == utf8_lossy(bytes@),
{
    String::from_utf8_lossy(bytes).into_owned()
}

/// `String::push` appends the character to the end of the string.
pub assume_specification[ String::push ](text: &mut String, c: char)
    ensures
        final(text)@ == old(text)@.push(c),
;

} // verus!
