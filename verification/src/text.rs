use vstd::prelude::*;

verus! {

/// Relies on str::chars: yields exactly the characters of the text, in
/// order.
#[verifier::external_body]
pub(crate) fn chars_of(s: &str) -> (r: Vec<char>)
    ensures
        r@ == s@,
{
    s.chars().collect()
}

/// The bytes of the UTF-8 encoding of a character sequence.
pub uninterp spec fn utf8_encode(s: Seq<char>) -> Seq<u8>;

/// Relies on str::as_bytes: the UTF-8 encoding of the text, which depends on
/// its characters alone; empty text encodes to no bytes.
#[verifier::external_body]
pub(crate) fn bytes_of(s: &str) -> (r: Vec<u8>)
    ensures
        r@ == utf8_encode(s@),
        s@.len() == 0 ==> r@.len() == 0,
{
    s.as_bytes().to_vec()
}

/// The characters a byte sequence spells, if it is valid encoded text.
pub uninterp spec fn utf8_decode(b: Seq<u8>) -> Option<Seq<char>>;

/// Relies on String::from_utf8: succeeds exactly on valid encoded text, and
/// both validity and the decoded characters depend on the bytes alone.
#[verifier::external_body]
pub(crate) fn utf8_string(b: Vec<u8>) -> (r: Option<String>)
    ensures
        match r {
            Some(t) => utf8_decode(b@) == Some(t@),
            None => utf8_decode(b@) is None,
        },
{
    match String::from_utf8(b) {
        Ok(t) => Some(t),
        Err(_) => None,
    }
}

} // verus!
