use vstd::prelude::*;
use base64::Engine;

verus! {

/// What base64's standard engine produces for a byte sequence: the canonical
/// base64 text (standard alphabet, padding characters included), a function
/// of the bytes alone.
pub uninterp spec fn b64_of(bytes: Seq<u8>) -> Seq<char>;

/// Relies on the `base64` crate's `general_purpose::STANDARD.encode`: the
/// returned text depends on the input bytes alone, four characters for every
/// started group of three bytes.
#[verifier::external_body]
pub(crate) fn b64_encode(bytes: &[u8]) -> (r: String)
    ensures
        r@ == b64_of(bytes@),
        r@.len() == 4 * ((bytes@.len() + 2) / 3),
{
    base64::engine::general_purpose::STANDARD.encode(bytes)
}

/// Relies on the `base64` crate's `general_purpose::STANDARD.decode`: the
/// standard engine requires canonical padding and refuses trailing bits, so
/// it accepts exactly the texts that `encode` produces, and returns the bytes
/// whose encoding is the input.
#[verifier::external_body]
pub(crate) fn b64_decode(text: &str) -> (r: Option<Vec<u8>>)
    ensures
        forall|x: Seq<u8>| text@ == #[trigger] b64_of(x) ==> r is Some && r->0@ == x,
        r is Some ==> text@ == b64_of(r->0@),
{
    match base64::engine::general_purpose::STANDARD.decode(text) {
        Ok(v) => Some(v),
        Err(_) => None,
    }
}

} // verus!
