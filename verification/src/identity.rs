//! Contributor identities: Ed25519 key pairs, signatures and their verification.
//!
//! The arithmetic of the curve is that of the `ed25519-dalek` crate; this
//! module names what it computes and decides what follows from it.

use ed25519_dalek::Signature;
use ed25519_dalek::Signer;
use ed25519_dalek::SigningKey;
use ed25519_dalek::VerifyingKey;
use vstd::prelude::*;

verus! {

/// The public key that belongs to a secret key.
pub uninterp spec fn ed25519_public_key(secret: Seq<u8>) -> Seq<u8>;

/// The signature of a message under a secret key.
pub uninterp spec fn ed25519_signature(secret: Seq<u8>, message: Seq<u8>) -> Seq<u8>;

/// Whether 32 bytes are the encoding of a point of the curve.
pub uninterp spec fn ed25519_key_valid(public: Seq<u8>) -> bool;

/// Whether a signature on a message verifies strictly under a public key:
/// keys and signature components of small order are refused.
pub uninterp spec fn ed25519_accepts_strict(
    public: Seq<u8>,
    message: Seq<u8>,
    signature: Seq<u8>,
) -> bool;

/// Calls `SigningKey::generate` of `ed25519-dalek` with the operating
/// system's random number generator and hands out the secret key's bytes.
/// Nothing is claimed of them.
#[verifier::external_body]
fn random_secret_key() -> (secret: [u8; 32]) {
    SigningKey::generate(&mut rand::rngs::OsRng).to_bytes()
}

/// Calls `SigningKey::from_bytes` and `SigningKey::verifying_key` of
/// `ed25519-dalek`: the public key is derived from the secret key alone.
#[verifier::external_body]
fn derive_public_key(secret: &[u8; 32]) -> (public: [u8; 32])
    ensures
        public@ == ed25519_public_key(secret@),
{
    SigningKey::from_bytes(secret).verifying_key().to_bytes()
}

/// Calls `Signer::sign` of `ed25519-dalek` on a key made by
/// `SigningKey::from_bytes`: the signature is a function of the secret key and
/// the message, since Ed25519 draws no randomness when it signs.
#[verifier::external_body]
fn ed25519_sign(secret: &[u8; 32], message: &[u8]) -> (signature: [u8; 64])
    ensures
        signature@ == ed25519_signature(secret@, message@),
{
    SigningKey::from_bytes(secret).sign(message).to_bytes()
}

/// Calls `VerifyingKey::from_bytes` of `ed25519-dalek`, which succeeds where
/// the bytes decompress to a point of the curve.
#[verifier::external_body]
pub(crate) fn ed25519_parse_key(public: &[u8; 32]) -> (valid: bool)
    ensures
        valid == ed25519_key_valid(public@),
{
    VerifyingKey::from_bytes(public).is_ok()
}

/// Calls `VerifyingKey::verify_strict` of `ed25519-dalek` on a key that
/// `VerifyingKey::from_bytes` accepts.
#[verifier::external_body]
pub(crate) fn ed25519_verify_strict(public: &[u8; 32], message: &[u8], signature: &[u8; 64]) -> (accepted: bool)
    requires
        ed25519_key_valid(public@),
    ensures
        accepted == ed25519_accepts_strict(public@, message@, signature@),
{
    match VerifyingKey::from_bytes(public) {
        Ok(key) => key.verify_strict(message, &Signature::from_bytes(signature)).is_ok(),
        Err(_) => false,
    }
}

/// Generates a key pair: a random secret key and the public key that belongs to it.
pub fn generate_keypair() -> (pair: ([u8; 32], [u8; 32]))
    ensures
        pair.1@ == ed25519_public_key(pair.0@),
{
    let secret = random_secret_key();
    let public = derive_public_key(&secret);
    (secret, public)
}

/// The public key of a secret key.
pub fn public_key_of(secret_key: &[u8; 32]) -> (public: [u8; 32])
    ensures
        public@ == ed25519_public_key(secret_key@),
{
    derive_public_key(secret_key)
}

/// Signs data with a secret key.
pub fn sign_data(secret_key: &[u8; 32], data: &[u8]) -> (signature: [u8; 64])
    ensures
        signature@ == ed25519_signature(secret_key@, data@),
{
    ed25519_sign(secret_key, data)
}

/// Whether a signature on data is valid under a public key: the key must be a
/// point of the curve and the signature must verify strictly.
pub open spec fn signature_valid(public: Seq<u8>, data: Seq<u8>, signature: Seq<u8>) -> bool {
    ed25519_key_valid(public) && ed25519_accepts_strict(public, data, signature)
}

/// Verifies a signature against a public key and data, strictly. Bytes that
/// are no key verify nothing.
pub fn verify_signature(public_key: &[u8; 32], data: &[u8], signature: &[u8; 64]) -> (valid: bool)
    ensures
        valid == signature_valid(public_key@, data@, signature@),
{
    if !ed25519_parse_key(public_key) {
        return false;
    }
    ed25519_verify_strict(public_key, data, signature)
}

} // verus!
