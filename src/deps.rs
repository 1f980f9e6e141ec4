//! The calls that the reader makes into std and memchr, with the contracts
//! that it relies on.

use vstd::prelude::*;
use vstd::string::StringSliceAdditionalSpecFns;
use vstd::utf8::valid_utf8;

verus! {

/// std's `io::Error`, carried through as an opaque value.
#[verifier::external_type_specification]
#[verifier::external_body]
pub struct ExIoError(std::io::Error);

/// Relies on memchr::memchr: the index of the first occurrence of `needle`
/// in `haystack`, or `None` where there is none.
pub assume_specification[ memchr::memchr ](needle: u8, haystack: &[u8]) -> (r: Option<usize>)
    ensures
        r matches Some(i) ==> {
            &&& i < haystack@.len()
            &&& haystack@[i as int] == needle
            &&& forall|j: int| 0 <= j < i ==> haystack@[j] != needle
        },
        r is None ==> forall|j: int| 0 <= j < haystack@.len() ==> haystack@[j] != needle,
;

/// Relies on std's `str::from_utf8`: it accepts exactly the byte sequences
/// that are valid UTF-8, and the text it returns is made of those bytes.
#[verifier::external_body]
pub(crate) fn utf8_text(bytes: &[u8]) -> (r: Option<&str>)
    ensures
        r is Some <==> valid_utf8(bytes@),
        r matches Some(s) ==> s.spec_bytes() == bytes@,
{
    std::str::from_utf8(bytes).ok()
}

} // verus!
