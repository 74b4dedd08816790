//! Trusted boundary to the `base64` crate (standard alphabet, padded), used
//! for session ids and for binary data carried inside text polling batches.
use vstd::prelude::*;

verus! {

/// The base64 rendering (standard alphabet, padded) of a byte sequence. The
/// output depends on the input bytes alone.
pub uninterp spec fn b64_of(bytes: Seq<u8>) -> Seq<u8>;

/// Bytes of the standard base64 alphabet, plus the `=` padding byte.
pub open spec fn is_b64_byte(c: u8) -> bool {
    (0x41 <= c <= 0x5a) || (0x61 <= c <= 0x7a) || (0x30 <= c <= 0x39) || c == 0x2b || c == 0x2f
        || c == 0x3d
}

/// Relies on `base64::encode` (the `STANDARD` config: standard alphabet with
/// padding): the result is a function of the input bytes alone and is drawn
/// from the standard alphabet plus padding.
#[verifier::external_body]
pub(crate) fn b64_encode(b: &Vec<u8>) -> (r: Vec<u8>)
    ensures
        r@ == b64_of(b@),
        forall|i: int| 0 <= i < r@.len() ==> is_b64_byte(#[trigger] r@[i]),
{
    base64::encode(b).into_bytes()
}

/// Relies on `base64::decode` (the `STANDARD` config): applied to an output
/// of `base64::encode` it returns exactly the bytes that were encoded.
#[verifier::external_body]
pub(crate) fn b64_decode(s: &Vec<u8>) -> (r: Option<Vec<u8>>)
    ensures
        forall|orig: Seq<u8>| s@ == #[trigger] b64_of(orig) ==> r is Some && r.unwrap()@ == orig,
{
    match base64::decode(s) {
        Ok(v) => Some(v),
        Err(_) => None,
    }
}

} // verus!
