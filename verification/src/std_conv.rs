//! Conversions between bytes and the standard text and array types.

use vstd::prelude::*;
use vstd::string::StringSliceAdditionalSpecFns;
use vstd::utf8::valid_utf8;

verus! {

/// Wraps `core::str::from_utf8`: a string slice over `bytes` when they are
/// valid UTF-8, and nothing otherwise.
#[verifier::external_body]
pub(crate) fn str_from_utf8(bytes: &[u8]) -> (text: Option<&str>)
    ensures
        text is Some <==> valid_utf8(bytes@),
        text matches Some(t) ==> t.spec_bytes() == bytes@,
{
    match core::str::from_utf8(bytes) {
        Ok(text) => Some(text),
        Err(_) => None,
    }
}

/// Wraps `String::from_utf8` for bytes that are all ASCII: the string whose
/// characters are those bytes, one for one.
#[verifier::external_body]
pub(crate) fn ascii_string(bytes: Vec<u8>) -> (text: String)
    requires
        forall|i: int| 0 <= i < bytes@.len() ==> bytes@[i] < 128,
    ensures
        text@ == bytes@.map_values(|b: u8| b as char),
{
    match String::from_utf8(bytes) {
        Ok(text) => text,
        Err(_) => String::new(),
    }
}

/// Wraps `<[u8; N]>::try_from(&[u8])` for a slice of exactly `N` bytes.
#[verifier::external_body]
pub(crate) fn array_from_slice<const N: usize>(bytes: &[u8]) -> (array: [u8; N])
    requires
        bytes@.len() == N,
    ensures
        array@ == bytes@,
{
    match <[u8; N]>::try_from(bytes) {
        Ok(array) => array,
        Err(_) => [0u8; N],
    }
}

/// Wraps `char::to_string`: the string holding exactly the character `c`.
#[verifier::external_body]
pub(crate) fn char_string(c: char) -> (text: String)
    ensures
        text@ == seq![c],
{
    c.to_string()
}

} // verus!
