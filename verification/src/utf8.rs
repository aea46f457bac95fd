//! Decoding the first scalar of a byte buffer.
use vstd::prelude::*;
use vstd::string::StringSliceAdditionalSpecFns;
use vstd::utf8::{decode_utf8, valid_utf8};

verus! {

/// The error of `core::str::from_utf8`; nothing is read from it.
#[verifier::external_type_specification]
#[verifier::external_body]
pub struct ExUtf8Error(core::str::Utf8Error);

/// `core::str::from_utf8` succeeds exactly on well-formed UTF-8, and the
/// string slice it returns lies over the bytes it was given.
pub assume_specification[ core::str::from_utf8 ](v: &[u8]) -> (r: Result<
    &str,
    core::str::Utf8Error,
>)
    ensures
        r is Ok <==> valid_utf8(v@),
        r matches Ok(s) ==> s.spec_bytes() == v@,
;

/// The character that a buffer decodes to: the first scalar of the
/// buffer, if the whole buffer is well-formed UTF-8.
pub open spec fn first_char(buffer: Seq<u8>) -> Option<char> {
    if valid_utf8(buffer) && buffer.len() > 0 {
        Some(decode_utf8(buffer)[0])
    } else {
        None
    }
}

/// Decodes a non-empty buffer and returns its first character, or `None`
/// where the buffer is not well-formed UTF-8.
pub fn decode_first(buffer: &[u8]) -> (chr: Option<char>)
    requires
        buffer@.len() > 0,
    ensures
        chr == first_char(buffer@),
{
    match core::str::from_utf8(buffer) {
        Ok(st) => {
            proof {
                vstd::utf8::encode_utf8_decode_utf8(st@);
                vstd::string::axiom_spec_iter(st);
            }
            let mut chars = st.chars();
            let first = chars.next();
            proof {
                vstd::string::next_postcondition(&vstd::string::spec_iter(st), &chars, first);
            }
            first
        },
        Err(_) => None,
    }
}

} // verus!
