use freenet_search::bloom::BloomFilter;
use freenet_search::catalog_contract::{update_state, CatalogUpdate};
use freenet_search::catalog_sync::{get_state_delta, summarize_state};
use freenet_search::hashing::metadata_hash;
use freenet_search::types::{
    AntifloodToken, Attestation, CatalogDelta, CatalogParameters, CatalogState,
};

fn default_params() -> CatalogParameters {
    CatalogParameters {
        protocol_version: 1,
        shard_count: 16,
        confirmation_weight_threshold: 3,
        entry_ttl_days: 90,
    }
}

fn make_delta(contract_key: &str, pubkey: [u8; 32]) -> CatalogDelta {
    let title = format!("Title for {}", contract_key);
    let description = format!("Description for {}", contract_key);
    let snippet = format!("Snippet for {}", contract_key);
    let hash = metadata_hash(&title, &description, "mini");

    CatalogDelta {
        contract_key: contract_key.to_string(),
        title,
        description,
        mini_snippet: "mini".to_string(),
        snippet,
        size_bytes: 1024,
        version: Some(1),
        metadata_hash: hash,
        attestation: Attestation {
            contributor_pubkey: pubkey,
            antiflood_token: AntifloodToken {
                nonce: vec![0u8; 8],
                difficulty: 16,
            },
            token_created_at: 1000,
            weight: 1,
        },
    }
}

fn make_deltas(range: std::ops::Range<u8>) -> Vec<CatalogDelta> {
    range
        .map(|i| {
            let mut pk = [0u8; 32];
            pk[0] = i + 1;
            make_delta(&format!("contract-{}", i), pk)
        })
        .collect()
}

fn apply_deltas(
    state: &CatalogState,
    params: &CatalogParameters,
    deltas: &[CatalogDelta],
) -> CatalogState {
    let updates: Vec<CatalogUpdate> =
        deltas.iter().map(|d| CatalogUpdate::Delta(d.clone())).collect();
    update_state(params, state.clone(), &updates).expect("update_state failed")
}

fn summarize(state: &CatalogState) -> BloomFilter {
    summarize_state(state)
}

fn get_delta(state: &CatalogState, summary: &BloomFilter) -> Vec<CatalogDelta> {
    get_state_delta(state, summary).expect("get_state_delta failed")
}

fn apply_batch(
    state: &CatalogState,
    params: &CatalogParameters,
    batch: Vec<CatalogDelta>,
) -> CatalogState {
    update_state(params, state.clone(), &vec![CatalogUpdate::DeltaBatch(batch)])
        .expect("update from delta failed")
}

#[test]
fn summarize_delta_tests_bloom_roundtrip() {
    let params = default_params();
    let empty = CatalogState::default();

    let deltas = make_deltas(0..5);
    let full_state = apply_deltas(&empty, &params, &deltas);

    // The peer holds nothing and summarises that.
    let peer_summary = summarize(&empty);
    let delta = get_delta(&full_state, &peer_summary);
    let synced_state = apply_batch(&empty, &params, delta);

    assert_eq!(full_state.entries.len(), synced_state.entries.len());
}

#[test]
fn bloom_includes_all_entries() {
    let params = default_params();
    let empty = CatalogState::default();

    let deltas = make_deltas(0..10);
    let state = apply_deltas(&empty, &params, &deltas);
    let summary = summarize(&state);

    let delta = get_delta(&state, &summary);
    assert!(delta.is_empty());
}

#[test]
fn missing_entries_detected() {
    let params = default_params();
    let empty = CatalogState::default();

    let state_a = apply_deltas(&empty, &params, &make_deltas(0..5));
    let state_b = apply_deltas(&empty, &params, &make_deltas(3..8));

    let summary_b = summarize(&state_b);
    let delta_a_to_b = get_delta(&state_a, &summary_b);

    assert!(!delta_a_to_b.is_empty());
}

#[test]
fn no_delta_when_synced() {
    let params = default_params();
    let empty = CatalogState::default();

    let state = apply_deltas(&empty, &params, &make_deltas(0..3));

    let summary = summarize(&state);
    let delta = get_delta(&state, &summary);

    assert!(delta.is_empty());
}

#[test]
fn summarize_delta_tests_sync_convergence() {
    let params = default_params();
    let empty = CatalogState::default();

    let state_a = apply_deltas(&empty, &params, &make_deltas(0..5));
    let state_b = apply_deltas(&empty, &params, &make_deltas(3..8));

    let summary_b = summarize(&state_b);
    let delta_a_to_b = get_delta(&state_a, &summary_b);

    let summary_a = summarize(&state_a);
    let delta_b_to_a = get_delta(&state_b, &summary_a);

    let state_b_synced = if !delta_a_to_b.is_empty() {
        apply_batch(&state_b, &params, delta_a_to_b)
    } else {
        state_b
    };

    let state_a_synced = if !delta_b_to_a.is_empty() {
        apply_batch(&state_a, &params, delta_b_to_a)
    } else {
        state_a
    };

    assert_eq!(state_a_synced.entries.len(), state_b_synced.entries.len());
    assert_eq!(state_a_synced.entries.len(), 8);
    assert_eq!(state_a_synced, state_b_synced);
}

#[test]
fn full_filter_yields_no_delta() {
    let params = default_params();
    let state = apply_deltas(&CatalogState::default(), &params, &make_deltas(0..4));
    let all_set = BloomFilter::from_parts(vec![0xFFu8; 1024], 8192);
    assert!(get_delta(&state, &all_set).is_empty());
}

#[test]
fn fresh_filter_yields_every_attestation() {
    let params = default_params();
    let state = apply_deltas(&CatalogState::default(), &params, &make_deltas(0..4));
    let fresh = BloomFilter::new(8192);
    let delta = get_delta(&state, &fresh);
    assert_eq!(delta.len(), 4);
    let keys: Vec<String> = delta.iter().map(|d| d.contract_key.clone()).collect();
    assert_eq!(keys, vec!["contract-0", "contract-1", "contract-2", "contract-3"]);
}

#[test]
fn zero_width_summary_is_refused() {
    let state = CatalogState::default();
    let broken = BloomFilter::from_parts(Vec::new(), 0);
    assert_eq!(
        get_state_delta(&state, &broken),
        Err(freenet_search::types::ContractError::InvalidState)
    );
}
