//! Conversion of byte sequences built by the analyzers into `String` values.
//!
//! Every piece of text the analyzers produce (extracted strings, hex and
//! ASCII row text) consists of ASCII bytes only, so the character sequence of
//! the resulting `String` is exactly the byte sequence read as characters.
use vstd::prelude::*;

verus! {

/// The character a byte stands for: the Unicode scalar with the byte's value.
pub open spec fn byte_char(b: u8) -> char {
    b as char
}

/// The character sequence spelled by a sequence of bytes.
pub open spec fn chars_of_bytes(s: Seq<u8>) -> Seq<char> {
    s.map_values(|b: u8| byte_char(b))
}

/// Relies on String::from_utf8: bytes that are valid UTF-8 decode to exactly
/// those characters; ASCII bytes are valid UTF-8, one character per byte.
#[verifier::external_body]
pub fn ascii_to_string(bytes: Vec<u8>) -> (r: String)
    requires
        forall|i: int| 0 <= i < bytes@.len() ==> bytes@[i] < 128,
    ensures
        r@ == chars_of_bytes(bytes@),
{
    match String::from_utf8(bytes) {
        Ok(s) => s,
        Err(_) => String::new(),
    }
}

} // verus!
