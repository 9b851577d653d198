//! Trusted helpers over std's `String` for the two text operations the codecs
//! need: appending one character while building a run, and rebuilding a
//! string from decoded UTF-8 bytes.
use vstd::prelude::*;

use vstd::utf8::{encode_utf8, valid_utf8};

verus! {

/// Relies on `String::push`: appends the given character to the end of the
/// string.
#[verifier::external_body]
pub(crate) fn push_char(s: &mut String, c: char)
    ensures
        final(s)@ == old(s)@ + seq![c],
{
    s.push(c);
}

/// Relies on `String::from_utf8`: returns the string holding exactly the
/// given bytes when they are valid UTF-8, and fails otherwise.
#[verifier::external_body]
pub(crate) fn string_from_utf8(v: Vec<u8>) -> (r: Option<String>)
    ensures
        r is Some <==> valid_utf8(v@),
        r matches Some(s) ==> encode_utf8(s@) == v@,
{
    match String::from_utf8(v) {
        Ok(s) => Some(s),
        Err(_) => None,
    }
}

/// The text `String::from_utf8_lossy` decodes a byte sequence to: a function
/// of the bytes alone (the substitution of invalid sequences is a fixed,
/// documented algorithm).
pub uninterp spec fn lossy_of(b: Seq<u8>) -> Seq<char>;

/// Relies on `String::from_utf8_lossy`: the result is determined by the
/// bytes, and when they are valid UTF-8 it holds exactly them.
#[verifier::external_body]
pub(crate) fn string_from_utf8_lossy(v: &[u8]) -> (r: String)
    ensures
        r@ == lossy_of(v@),
        valid_utf8(v@) ==> encode_utf8(r@) == v@,
{
    String::from_utf8_lossy(v).into_owned()
}

} // verus!
