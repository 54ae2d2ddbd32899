//! Byte strings as text: what the standard library says about UTF-8.

use vstd::prelude::*;
use vstd::utf8::valid_utf8;

verus! {

/// The bytes of `String::from_utf8_lossy`: invalid sequences are replaced by
/// the replacement character.
pub uninterp spec fn utf8_lossy(b: Seq<u8>) -> Seq<u8>;

/// `core::str::from_utf8` succeeds exactly on valid UTF-8.
#[verifier::external_body]
pub(crate) fn is_utf8(b: &[u8]) -> (r: bool)
    ensures
        r == valid_utf8(b@),
{
    core::str::from_utf8(b).is_ok()
}

/// `String::from_utf8_lossy`, as bytes: valid UTF-8 stays as it is.
#[verifier::external_body]
pub(crate) fn to_lossy(b: &[u8]) -> (r: Vec<u8>)
    ensures
        r@ == utf8_lossy(b@),
        valid_utf8(b@) ==> r@ == b@,
        valid_utf8(r@),
{
    String::from_utf8_lossy(b).into_owned().into_bytes()
}

} // verus!
