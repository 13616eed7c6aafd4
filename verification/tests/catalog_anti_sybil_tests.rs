use freenet_search::catalog_contract::{update_state, CatalogUpdate};

use freenet_search::hashing::metadata_hash;

use freenet_search::types::{
    AntifloodToken, Attestation, CatalogDelta, CatalogParameters, CatalogState,
};

fn default_params() -> CatalogParameters {
    CatalogParameters {
        protocol_version: 1,
        shard_count: 16,
        confirmation_weight_threshold: 3,
        entry_ttl_days: 90,
    }
}

fn make_delta_with_token(
    contract_key: &str,
    pubkey: [u8; 32],
    token: AntifloodToken,
    created_at: u64,
) -> CatalogDelta {
    let title = format!("Title for {}", contract_key);
    let description = format!("Description for {}", contract_key);
    let snippet = format!("Snippet for {}", contract_key);
    let hash = metadata_hash(&title, &description, "mini");

    CatalogDelta {
        contract_key: contract_key.to_string(),
        title,
        description,
        mini_snippet: "mini".to_string(),
        snippet,
        size_bytes: 1024,
        version: Some(1),
        metadata_hash: hash,
        attestation: Attestation {
            contributor_pubkey: pubkey,
            antiflood_token: token,
            token_created_at: created_at,
            weight: 1,
        },
    }
}

#[test]
fn valid_token_accepted() {
    let state = CatalogState::default();
    let params = default_params();

    let token = AntifloodToken {
        nonce: vec![0u8; 8],
        difficulty: 16,
    };
    let delta = make_delta_with_token("contract-valid", [1u8; 32], token, 1000);

    let result = update_state(&params, state.clone(), &vec![CatalogUpdate::Delta(delta.clone())]);
    assert!(result.is_ok());
}

#[test]
fn anti_sybil_tests_invalid_token_rejected() {
    let state = CatalogState::default();
    let params = default_params();

    let token = AntifloodToken {
        nonce: vec![], // empty nonce = invalid
        difficulty: 0,
    };
    let delta = make_delta_with_token("contract-invalid", [1u8; 32], token, 1000);

    let result = update_state(&params, state.clone(), &vec![CatalogUpdate::Delta(delta.clone())]);
    assert!(result.is_err());
}

#[test]
fn missing_signature_rejected() {
    let state = CatalogState::default();
    let params = default_params();

    // Attestation with zeroed pubkey (no valid identity)
    let token = AntifloodToken {
        nonce: vec![0u8; 8],
        difficulty: 16,
    };
    let delta = make_delta_with_token("contract-nosig", [0u8; 32], token, 1000);

    let result = update_state(&params, state.clone(), &vec![CatalogUpdate::Delta(delta.clone())]);
    assert!(result.is_err());
}

#[test]
fn temporal_staking_too_recent() {
    let state = CatalogState::default();
    let params = default_params();

    let token = AntifloodToken {
        nonce: vec![0u8; 8],
        difficulty: 16,
    };
    // Token created at time 0 = way too recent (or represents "just now")
    let delta = make_delta_with_token("contract-recent", [1u8; 32], token, 0);

    let result = update_state(&params, state.clone(), &vec![CatalogUpdate::Delta(delta.clone())]);
    assert!(result.is_err());
}

#[test]
fn temporal_staking_valid() {
    let state = CatalogState::default();
    let params = default_params();

    let token = AntifloodToken {
        nonce: vec![0u8; 8],
        difficulty: 16,
    };
    // Token created at reasonable past time
    let delta = make_delta_with_token("contract-old", [1u8; 32], token, 86400);

    let result = update_state(&params, state.clone(), &vec![CatalogUpdate::Delta(delta.clone())]);
    assert!(result.is_ok());
}
