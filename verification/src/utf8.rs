use vstd::prelude::*;

verus! {

/// What UTF-8 decoding yields for a byte sequence: the characters, or nothing
/// where the bytes are not valid UTF-8. The standard library is the one
/// authority on this function; no contract here says what it is on any
/// particular bytes.
pub uninterp spec fn utf8_decode(bytes: Seq<u8>) -> Option<Seq<char>>;

/// Relies on core::str::from_utf8: it succeeds exactly on the byte sequences
/// that are valid UTF-8, and the decoded characters depend on the bytes alone.
#[verifier::external_body]
pub(crate) fn decode_utf8(bytes: &Vec<u8>) -> (r: Option<String>)
    ensures
        match r {
            Some(s) => utf8_decode(bytes@) == Some(s@),
            None => utf8_decode(bytes@) is None,
        },
{
    match core::str::from_utf8(bytes.as_slice()) {
        Ok(s) => Some(s.to_string()),
        Err(_) => None,
    }
}

} // verus!
