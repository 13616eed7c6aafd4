use ciborium::value::Value;
use ed25519_dalek::{Signer, SigningKey, VerifyingKey};
use freenet_search::publication::{
    frames_of, get_state_delta, metadata_section, summarize_state, update_state, validate_state,
    verifying_key_of, PublicationUpdate, WebContainerMetadata,
};
use freenet_search::types::ContractError;
use rand::rngs::OsRng;

fn create_test_keypair() -> (SigningKey, VerifyingKey) {
    let signing_key = SigningKey::generate(&mut OsRng);
    let verifying_key = signing_key.verifying_key();
    (signing_key, verifying_key)
}

fn sign(version: u32, web: &[u8], signing_key: &SigningKey) -> WebContainerMetadata {
    let mut message = version.to_be_bytes().to_vec();
    message.extend_from_slice(web);
    WebContainerMetadata {
        version,
        signature: signing_key.sign(&message).to_bytes(),
    }
}

fn encode(metadata: &WebContainerMetadata) -> Vec<u8> {
    let signature: Vec<Value> = metadata
        .signature
        .iter()
        .map(|b| Value::Integer((*b).into()))
        .collect();
    let value = Value::Map(vec![
        (
            Value::Text("version".to_string()),
            Value::Integer(metadata.version.into()),
        ),
        (Value::Text("signature".to_string()), Value::Array(signature)),
    ]);
    let mut bytes = Vec::new();
    ciborium::ser::into_writer(&value, &mut bytes).unwrap();
    bytes
}

fn create_test_state(
    version: u32,
    web: &[u8],
    signing_key: &SigningKey,
) -> (Vec<u8>, WebContainerMetadata) {
    let metadata = sign(version, web, signing_key);
    let metadata_bytes = encode(&metadata);

    let mut state = Vec::new();
    state.extend_from_slice(&(metadata_bytes.len() as u64).to_be_bytes());
    state.extend_from_slice(&metadata_bytes);
    state.extend_from_slice(&(web.len() as u64).to_be_bytes());
    state.extend_from_slice(web);
    (state, metadata)
}

#[test]
fn test_valid_state_32_byte_params() {
    let (signing_key, verifying_key) = create_test_keypair();
    let (state, metadata) = create_test_state(1, b"Hello", &signing_key);
    let result = validate_state(&verifying_key.to_bytes(), &state, &metadata);
    assert_eq!(result, Ok(()));
}

#[test]
fn test_valid_state_with_nonce() {
    let (signing_key, verifying_key) = create_test_keypair();
    let (state, metadata) = create_test_state(1, b"Hello", &signing_key);

    let mut params = verifying_key.to_bytes().to_vec();
    params.extend_from_slice(&42u64.to_le_bytes());

    let result = validate_state(&params, &state, &metadata);
    assert_eq!(result, Ok(()));
}

#[test]
fn test_params_too_short() {
    let metadata = WebContainerMetadata {
        version: 1,
        signature: [0u8; 64],
    };
    let result = validate_state(&vec![0u8; 16], &[], &metadata);
    assert!(matches!(result, Err(ContractError::Other(_))));
    assert!(matches!(
        verifying_key_of(&vec![0u8; 16]),
        Err(ContractError::Other(_))
    ));
}

#[test]
fn test_invalid_signature() {
    let (_, verifying_key) = create_test_keypair();
    let (wrong_key, _) = create_test_keypair();
    let (state, metadata) = create_test_state(1, b"Hello", &wrong_key);
    let result = validate_state(&verifying_key.to_bytes(), &state, &metadata);
    assert!(matches!(result, Err(ContractError::Other(_))));
}

#[test]
fn test_version_must_increase() {
    let (signing_key, _) = create_test_keypair();
    let (_current, current_metadata) = create_test_state(2, b"Old", &signing_key);
    let (update, update_metadata) = create_test_state(2, b"New", &signing_key);
    let result = update_state(
        current_metadata.version,
        Some(&PublicationUpdate::State {
            state: update,
            version: update_metadata.version,
        }),
    );
    assert!(matches!(
        result,
        Err(ContractError::InvalidUpdateWithInfo { .. })
    ));
}

#[test]
fn version_reason_is_spelled_out() {
    let result = update_state(
        12,
        Some(&PublicationUpdate::State {
            state: vec![1, 2, 3],
            version: 7,
        }),
    );
    assert_eq!(
        result,
        Err(ContractError::InvalidUpdateWithInfo {
            reason: "New state version 7 must be higher than current version 12".to_string()
        })
    );
}

#[test]
fn greater_version_replaces_state_verbatim() {
    let (signing_key, verifying_key) = create_test_keypair();
    let (_, first) = create_test_state(1, b"Old", &signing_key);
    let (update, second) = create_test_state(2, b"New", &signing_key);
    assert_eq!(
        validate_state(&verifying_key.to_bytes(), &update, &second),
        Ok(())
    );
    let result = update_state(
        first.version,
        Some(&PublicationUpdate::State {
            state: update.clone(),
            version: second.version,
        }),
    );
    assert_eq!(result, Ok(update));
}

#[test]
fn first_publication_needs_a_version_above_zero() {
    let accepted = update_state(
        0,
        Some(&PublicationUpdate::State {
            state: vec![9],
            version: 1,
        }),
    );
    assert_eq!(accepted, Ok(vec![9]));
    let refused = update_state(
        0,
        Some(&PublicationUpdate::State {
            state: vec![9],
            version: 0,
        }),
    );
    assert!(matches!(
        refused,
        Err(ContractError::InvalidUpdateWithInfo { .. })
    ));
}

#[test]
fn update_without_a_state_is_invalid() {
    assert_eq!(update_state(3, None), Err(ContractError::InvalidUpdate));
    assert_eq!(
        update_state(3, Some(&PublicationUpdate::Unrelated)),
        Err(ContractError::InvalidUpdate)
    );
}

#[test]
fn version_zero_is_an_invalid_state() {
    let (signing_key, verifying_key) = create_test_keypair();
    let (state, metadata) = create_test_state(0, b"Hello", &signing_key);
    assert_eq!(
        validate_state(&verifying_key.to_bytes(), &state, &metadata),
        Err(ContractError::InvalidState)
    );
}

#[test]
fn tampered_content_fails_verification() {
    let (signing_key, verifying_key) = create_test_keypair();
    let (mut state, metadata) = create_test_state(1, b"Hello", &signing_key);
    let last = state.len() - 1;
    state[last] ^= 1;
    let result = validate_state(&verifying_key.to_bytes(), &state, &metadata);
    assert!(matches!(result, Err(ContractError::Other(_))));
}

#[test]
fn oversized_metadata_is_refused() {
    let mut state = Vec::new();
    state.extend_from_slice(&1025u64.to_be_bytes());
    state.extend_from_slice(&vec![0u8; 1025]);
    state.extend_from_slice(&1u64.to_be_bytes());
    state.push(7);
    assert!(matches!(
        metadata_section(&state, Some(1024)),
        Err(ContractError::Other(_))
    ));
    assert_eq!(metadata_section(&state, None), Ok((8, 8 + 1025)));
    assert!(matches!(frames_of(&state), Err(ContractError::Other(_))));
}

#[test]
fn frames_are_found_at_their_offsets() {
    let mut state = Vec::new();
    state.extend_from_slice(&3u64.to_be_bytes());
    state.extend_from_slice(&[1, 2, 3]);
    state.extend_from_slice(&2u64.to_be_bytes());
    state.extend_from_slice(&[8, 9]);
    let frames = match frames_of(&state) {
        Ok(frames) => frames,
        Err(_) => panic!("frames were refused"),
    };
    assert_eq!(frames.metadata_start, 8);
    assert_eq!(frames.metadata_end, 11);
    assert_eq!(frames.web_start, 19);
    assert_eq!(frames.web_end, 21);
}

#[test]
fn truncated_state_is_refused() {
    assert!(matches!(
        metadata_section(&[0, 0, 0], None),
        Err(ContractError::Other(_))
    ));
    let mut state = Vec::new();
    state.extend_from_slice(&10u64.to_be_bytes());
    state.extend_from_slice(&[1, 2, 3]);
    assert!(matches!(
        metadata_section(&state, None),
        Err(ContractError::Other(_))
    ));
}

#[test]
fn summary_and_delta_follow_the_version() {
    let state = vec![1u8, 2, 3];
    assert_eq!(summarize_state(&[], 5), None);
    assert_eq!(summarize_state(&state, 5), Some(5));
    assert_eq!(get_state_delta(&state, 5, 4), state);
    assert_eq!(get_state_delta(&state, 5, 5), Vec::<u8>::new());
    assert_eq!(get_state_delta(&state, 5, 6), Vec::<u8>::new());
    assert_eq!(get_state_delta(&[], 5, 0), Vec::<u8>::new());
}
