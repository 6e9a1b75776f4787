//! The calls that the parser makes into code outside this crate.
use vstd::prelude::*;

verus! {

/// The punycode decoding of a byte string read as text, where it is valid UTF-8 and valid
/// punycode.
pub uninterp spec fn punycode_of(b: Seq<u8>) -> Option<Seq<char>>;

/// Relies on `punycode::decode`, after `std::str::from_utf8` has read the bytes as text: the
/// decoded string, which depends on the bytes alone, or `None` where either call fails.
#[verifier::external_body]
pub(crate) fn decode_punycode(b: &[u8]) -> (r: Option<String>)
    ensures
        r is Some <==> punycode_of(b@) is Some,
        r matches Some(s) ==> s@ == punycode_of(b@)->0,
{
    match std::str::from_utf8(b) {
        Ok(s) => match punycode::decode(s) {
            Ok(d) => Some(d),
            Err(_) => None,
        },
        Err(_) => None,
    }
}

/// Relies on `char::from_u32`: `Some` exactly for the Unicode scalar values, that is below
/// 0x110000 and outside the surrogates 0xD800..=0xDFFF.
#[verifier::external_body]
pub(crate) fn char_from_u32(v: u32) -> (r: Option<char>)
    ensures
        r is Some <==> (v < 0xD800 || (0xE000 <= v && v < 0x110000)),
        r matches Some(c) ==> c as u32 == v,
{
    char::from_u32(v)
}

} // verus!
