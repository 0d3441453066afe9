use vstd::prelude::*;
use vstd::utf8::{encode_utf8, valid_utf8};

verus! {

/// The UTF-8 bytes of a text.
pub open spec fn text_bytes(t: String) -> Seq<u8> {
    encode_utf8(t@)
}

/// Relies on `std::str::from_utf8`: it accepts exactly the valid UTF-8 byte strings.
#[verifier::external_body]
pub(crate) fn utf8_text(b: &[u8]) -> (r: Option<String>)
    ensures
        match r {
            Some(t) => valid_utf8(b@) && text_bytes(t) == b@,
            None => !valid_utf8(b@),
        },
{
    match std::str::from_utf8(b) {
        Ok(t) => Some(t.to_string()),
        Err(_) => None,
    }
}

/// Relies on `String::as_bytes` (through `str::as_bytes`): the UTF-8 bytes of a text.
#[verifier::external_body]
pub(crate) fn utf8_bytes(t: &String) -> (r: Vec<u8>)
    ensures
        r@ == text_bytes(*t),
{
    t.as_bytes().to_vec()
}

} // verus!
