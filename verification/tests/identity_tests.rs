use ed25519_dalek::{SigningKey, VerifyingKey};
use freenet_search::identity::{generate_keypair, sign_data, verify_signature};

#[test]
fn generate_keypair_valid() {
    let (secret, public) = generate_keypair();
    // Both should be 32 bytes (non-zero)
    assert_eq!(secret.len(), 32);
    assert_eq!(public.len(), 32);
    // Public key should not be all zeros
    assert_ne!(public, [0u8; 32]);
}

#[test]
fn keypair_stored_and_retrieved() {
    let (secret1, public1) = generate_keypair();
    // Sign something with the keypair, verify it works
    let data = b"test message";
    let sig = sign_data(&secret1, data);
    assert!(verify_signature(&public1, data, &sig));
}

#[test]
fn public_key_export() {
    let (_secret, public) = generate_keypair();
    // Public key is 32 bytes (ed25519 compressed point)
    assert_eq!(public.len(), 32);
}

#[test]
fn sign_and_verify() {
    let (secret, public) = generate_keypair();
    let data = b"hello freenet";
    let signature = sign_data(&secret, data);
    assert!(verify_signature(&public, data, &signature));
}

#[test]
fn verify_invalid_signature() {
    let (secret, public) = generate_keypair();
    let data = b"original message";
    let mut signature = sign_data(&secret, data);
    // Tamper with the signature
    signature[0] ^= 0xFF;
    assert!(!verify_signature(&public, data, &signature));
}

#[test]
fn different_message_different_sig() {
    let (secret, _public) = generate_keypair();
    let sig1 = sign_data(&secret, b"message one");
    let sig2 = sign_data(&secret, b"message two");
    assert_ne!(sig1, sig2);
}

#[test]
fn bytes_that_are_no_key_verify_nothing() {
    let (secret, _public) = generate_keypair();
    let signature = sign_data(&secret, b"message");
    let mut no_key = None;
    for first in 0..=255u8 {
        let mut candidate = [first; 32];
        candidate[31] = 0;
        if VerifyingKey::from_bytes(&candidate).is_err() {
            no_key = Some(candidate);
            break;
        }
    }
    let no_key = no_key.expect("every candidate was a key");
    assert!(!verify_signature(&no_key, b"message", &signature));
    assert!(matches!(
        freenet_search::publication::verifying_key_of(&no_key),
        Err(freenet_search::types::ContractError::Other(_))
    ));
}

#[test]
fn public_key_belongs_to_the_secret_key() {
    let (secret, public) = generate_keypair();
    assert_eq!(
        SigningKey::from_bytes(&secret).verifying_key().to_bytes(),
        public
    );
    assert_eq!(freenet_search::identity::public_key_of(&secret), public);
    // Signing draws no randomness.
    assert_eq!(sign_data(&secret, b"twice"), sign_data(&secret, b"twice"));
}
