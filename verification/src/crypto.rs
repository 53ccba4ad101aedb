//! The engine's only cryptographic capability: Ed25519 key derivation,
//! signing and verification, behind trusted wrappers over `ed25519-dalek`,
//! with system entropy from `getrandom`.

use ed25519_dalek::Signer;
use ed25519_dalek::Verifier;
use vstd::prelude::*;

verus! {

/// The Ed25519 public key derived from 32 secret-key bytes.
pub uninterp spec fn ed25519_pk_of(sk: Seq<u8>) -> Seq<u8>;

/// The RFC 8032 Ed25519 signature of a message under a secret key.
pub uninterp spec fn ed25519_sig_of(sk: Seq<u8>, msg: Seq<u8>) -> Seq<u8>;

/// Whether Ed25519 verification accepts the (key, message, signature)
/// triple.
pub uninterp spec fn ed25519_verifies(pk: Seq<u8>, msg: Seq<u8>, sig: Seq<u8>) -> bool;

/// Relies on getrandom::getrandom: fills the buffer from the operating
/// system's entropy source, or reports failure.
#[verifier::external_body]
pub(crate) fn random_seed() -> (r: Option<[u8; 32]>)
{
    let mut buf = [0u8; 32];
    match getrandom::getrandom(&mut buf) {
        Ok(()) => Some(buf),
        Err(_) => None,
    }
}

/// Relies on ed25519_dalek::SigningKey::verifying_key: the public key is a
/// function of the secret-key bytes alone.
#[verifier::external_body]
pub(crate) fn ed25519_public_key(sk: &[u8; 32]) -> (r: [u8; 32])
    ensures
        r@ == ed25519_pk_of(sk@),
{
    ed25519_dalek::SigningKey::from_bytes(sk).verifying_key().to_bytes()
}

/// Relies on ed25519_dalek's `Signer::sign`: RFC 8032 signing is
/// deterministic in the secret key and message, produces 64 bytes, and its
/// output verifies under the matching public key.
#[verifier::external_body]
pub(crate) fn ed25519_sign(sk: &[u8; 32], msg: &Vec<u8>) -> (r: Vec<u8>)
    ensures
        r@ == ed25519_sig_of(sk@, msg@),
        r@.len() == 64,
        ed25519_verifies(ed25519_pk_of(sk@), msg@, r@),
{
    let key = ed25519_dalek::SigningKey::from_bytes(sk);
    key.sign(msg.as_slice()).to_bytes().to_vec()
}

/// Relies on ed25519_dalek's `Verifier::verify`: acceptance is a function
/// of the public-key, message and signature bytes alone; malformed keys or
/// signatures are rejected.
#[verifier::external_body]
pub(crate) fn ed25519_verify(pk: &[u8; 32], msg: &Vec<u8>, sig: &Vec<u8>) -> (r: bool)
    ensures
        r == ed25519_verifies(pk@, msg@, sig@),
{
    let key = match ed25519_dalek::VerifyingKey::from_bytes(pk) {
        Ok(k) => k,
        Err(_) => return false,
    };
    let signature = match ed25519_dalek::Signature::from_slice(sig.as_slice()) {
        Ok(s) => s,
        Err(_) => return false,
    };
    key.verify(msg.as_slice(), &signature).is_ok()
}

} // verus!
