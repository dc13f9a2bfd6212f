//! Conversions between bytes and text that the standard library performs,
//! stated over vstd's model of UTF-8.

use vstd::prelude::*;
use vstd::utf8::{decode_utf8, encode_utf8_decode_utf8, is_ascii_chars, valid_utf8};

verus! {

/// Calls `std::str::from_utf8`. Its documentation: the result is `Ok` exactly
/// when the bytes are valid UTF-8, and the string then holds the characters
/// that the bytes encode.
#[verifier::external_body]
pub(crate) fn str_from_utf8(bytes: &[u8]) -> (r: Option<&str>)
    ensures
        r is Some <==> valid_utf8(bytes@),
        r matches Some(s) ==> s@ == decode_utf8(bytes@),
{
    std::str::from_utf8(bytes).ok()
}

/// Calls `String::from_utf8`. Its documentation: the result is `Ok` exactly
/// when the bytes are valid UTF-8, and the string then holds the characters
/// that the bytes encode.
#[verifier::external_body]
pub(crate) fn string_from_utf8(bytes: Vec<u8>) -> (r: Option<String>)
    ensures
        r is Some <==> valid_utf8(bytes@),
        r matches Some(s) ==> s@ == decode_utf8(bytes@),
{
    String::from_utf8(bytes).ok()
}

/// Text with every ASCII lowercase letter replaced by its uppercase letter.
pub open spec fn ascii_uppercase_chars(s: Seq<char>) -> Seq<char> {
    s.map_values(|c: char| if 'a' <= c && c <= 'z' { ((c as u32) - 32) as char } else { c })
}

/// What `str::to_uppercase` gives for a text: its Unicode uppercase form.
pub uninterp spec fn unicode_uppercase(s: Seq<char>) -> Seq<char>;

/// Calls `str::to_uppercase`. The contract names the result and states the
/// one fact its documentation gives plainly: on ASCII text it maps `a`..=`z`
/// to `A`..=`Z` and leaves every other character. The full Unicode mapping
/// of other characters is not stated.
#[verifier::external_body]
pub(crate) fn str_to_uppercase(s: &str) -> (r: String)
    ensures
        r@ == unicode_uppercase(s@),
        is_ascii_chars(s@) ==> r@ == ascii_uppercase_chars(s@),
{
    s.to_uppercase()
}

/// Does the text `a` equal the text `b`?
pub fn text_is(a: &str, b: &str) -> (r: bool)
    ensures
        r == (a@ == b@),
{
    let r = crate::store::bytes_eq(a.as_bytes(), b.as_bytes());
    proof {
        encode_utf8_decode_utf8(a@);
        encode_utf8_decode_utf8(b@);
    }
    r
}

} // verus!
