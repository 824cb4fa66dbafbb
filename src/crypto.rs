//! The cryptographic primitives this library relies on, each behind one
//! trusted wrapper.

use vstd::prelude::*;

verus! {

/// The SHA-512 digest of a byte string.
pub uninterp spec fn sha512_of(data: Seq<u8>) -> Seq<u8>;

/// Whether an Ed25519 signature verifies: decoding the 32-byte public key
/// succeeds and the 64-byte signature is valid for the message under it.
pub uninterp spec fn ed25519_accepts(public_key: Seq<u8>, message: Seq<u8>, signature: Seq<u8>) -> bool;

/// Whether a byte string is well-formed UTF-8.
pub uninterp spec fn utf8_valid(data: Seq<u8>) -> bool;

/// Relies on sha2's `Sha512::digest`: a 64-byte digest that depends on the
/// input bytes alone.
#[verifier::external_body]
pub(crate) fn sha512(data: &[u8]) -> (r: [u8; 64])
    ensures
        r@ == sha512_of(data@),
{
    <sha2::Sha512 as sha2::Digest>::digest(data).into()
}

/// Relies on ed25519-dalek's `VerifyingKey::from_bytes`, `Signature::from_bytes`
/// and `Verifier::verify`: the outcome depends on the key, message and
/// signature bytes alone, and a key that fails to decode is rejected.
#[verifier::external_body]
pub(crate) fn ed25519_verify(public_key: &[u8; 32], message: &[u8], signature: &[u8; 64]) -> (r: bool)
    ensures
        r == ed25519_accepts(public_key@, message@, signature@),
{
    match ed25519_dalek::VerifyingKey::from_bytes(public_key) {
        Ok(key) => {
            let sig = ed25519_dalek::Signature::from_bytes(signature);
            ed25519_dalek::Verifier::verify(&key, message, &sig).is_ok()
        },
        Err(_) => false,
    }
}

/// Relies on `core::str::from_utf8`: it succeeds exactly on well-formed UTF-8.
#[verifier::external_body]
pub(crate) fn is_utf8(data: &[u8]) -> (r: bool)
    ensures
        r == utf8_valid(data@),
{
    core::str::from_utf8(data).is_ok()
}

} // verus!
