//! Trusted bridge to the few string operations of std that vstd leaves
//! unspecified. Everything else about text in this crate is verified.

use vstd::prelude::*;

verus! {

/// Relies on String::push: appends the given character to the end of the
/// string and changes nothing else.
pub assume_specification[ String::push ](s: &mut String, c: char)
    ensures
        final(s)@ == old(s)@.push(c),
;

/// Relies on char::from_u32: returns the character with the given scalar
/// value, or `None` when the value is a surrogate or above the Unicode
/// maximum.
pub assume_specification[ char::from_u32 ](v: u32) -> (r: Option<char>)
    ensures
        r is Some <==> vstd::utf8::is_scalar(v),
        r matches Some(c) ==> c as u32 == v,
;

/// Relies on String::from_utf8: succeeds exactly on valid UTF-8 input, and
/// the returned string is backed by the given bytes unchanged.
#[verifier::external_body]
pub(crate) fn string_from_utf8(v: Vec<u8>) -> (r: Option<String>)
    ensures
        r is Some <==> vstd::utf8::valid_utf8(v@),
        r matches Some(s) ==> vstd::utf8::encode_utf8(s@) == v@,
{
    match String::from_utf8(v) {
        Ok(s) => Some(s),
        Err(_) => None,
    }
}

} // verus!
