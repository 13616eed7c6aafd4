use freenet_search::catalog::{
    apply_delta_to_state, check_delta, derive_status, sort_attestations, validate_delta,
};
use freenet_search::catalog_contract::{update_state, validate_state, CatalogUpdate};
use freenet_search::catalog_finalize::{compute_trust_from_entries, finalize_state};
use freenet_search::catalog_merge::merge_catalog_states;
use freenet_search::catalog_sync::bloom_key;
use freenet_search::hashing::metadata_hash;
use freenet_search::ordered_map::OrderedMap;
use freenet_search::types::{
    AntifloodToken, Attestation, CatalogDelta, CatalogEntry, CatalogParameters, CatalogState,
    ContractError, ContributorScore, HashVariant, Status,
};

fn params(threshold: u32) -> CatalogParameters {
    CatalogParameters {
        protocol_version: 1,
        shard_count: 16,
        confirmation_weight_threshold: threshold,
        entry_ttl_days: 90,
    }
}

fn key(first: u8) -> [u8; 32] {
    let mut pk = [0u8; 32];
    pk[0] = first;
    pk
}

fn delta(contract_key: &str, title: &str, pubkey: [u8; 32], created: u64) -> CatalogDelta {
    let description = "description".to_string();
    let snippet = "snippet".to_string();
    CatalogDelta {
        contract_key: contract_key.to_string(),
        title: title.to_string(),
        metadata_hash: metadata_hash(title, &description, "mini"),
        description,
        mini_snippet: "mini".to_string(),
        snippet,
        size_bytes: 10,
        version: Some(1),
        attestation: Attestation {
            contributor_pubkey: pubkey,
            antiflood_token: AntifloodToken {
                nonce: vec![1, 2, 3],
                difficulty: 4,
            },
            token_created_at: created,
            weight: 1,
        },
    }
}

fn update(state: &CatalogState, threshold: u32, deltas: &[CatalogDelta]) -> CatalogState {
    let updates: Vec<CatalogUpdate> = deltas
        .iter()
        .map(|d| CatalogUpdate::Delta(d.clone()))
        .collect();
    update_state(&params(threshold), state.clone(), &updates).expect("update refused")
}

#[test]
fn three_contributors_confirm_an_entry() {
    let deltas = vec![
        delta("contract-trust", "T", key(3), 30),
        delta("contract-trust", "T", key(1), 10),
        delta("contract-trust", "T", key(2), 20),
    ];
    let state = update(&CatalogState::default(), 3, &deltas);
    assert_eq!(state.entries.len(), 1);
    let entry = state.entries.get(&"contract-trust".to_string()).unwrap();
    assert_eq!(entry.status, Status::Confirmed);
    assert_eq!(entry.hash_variants.len(), 1);
    assert_eq!(entry.first_seen, 10);
    assert_eq!(entry.last_seen, 30);
    assert_eq!(entry.size_bytes, 10);
    assert_eq!(entry.version, Some(1));
    let variant = entry.hash_variants.value_at(0);
    let order: Vec<u8> = variant
        .attestations
        .iter()
        .map(|a| a.contributor_pubkey[0])
        .collect();
    assert_eq!(order, vec![1, 2, 3]);
    // Each contributor has earned one point, so each attestation weighs two.
    for attestation in &variant.attestations {
        assert_eq!(attestation.weight, 2);
    }
    assert_eq!(variant.total_weight, 6);
    assert_eq!(variant.mini_snippet, "mini");
    for first in 1..=3u8 {
        let score = state.contributors.get(&key(first)).unwrap();
        assert_eq!(score.pubkey, key(first));
        assert_eq!(score.trust_score, 1);
        assert_eq!(score.total_contributions, 1);
    }
    assert_eq!(validate_state(&state), Ok(()));
}

#[test]
fn two_strong_variants_dispute_an_entry() {
    let mut deltas = Vec::new();
    for first in [1u8, 2, 3] {
        deltas.push(delta("contract-dispute", "A", key(first), 5));
    }
    for first in [10u8, 11, 12] {
        deltas.push(delta("contract-dispute", "B", key(first), 5));
    }
    let state = update(&CatalogState::default(), 3, &deltas);
    let entry = state.entries.get(&"contract-dispute".to_string()).unwrap();
    assert_eq!(entry.hash_variants.len(), 2);
    assert_eq!(entry.status, Status::Disputed);
}

#[test]
fn status_goes_by_counts() {
    // best = 10, second = 3: 3 * 100 is not above 10 * 30.
    let mut deltas = Vec::new();
    for first in 1..=10u8 {
        deltas.push(delta("c", "A", key(first), 5));
    }
    for first in 20..=22u8 {
        deltas.push(delta("c", "B", key(first), 5));
    }
    let state = update(&CatalogState::default(), 3, &deltas);
    let entry = state.entries.get(&"c".to_string()).unwrap();
    assert_eq!(entry.status, Status::Confirmed);
    assert_eq!(derive_status(entry, 10), Status::Confirmed);
    assert_eq!(derive_status(entry, 11), Status::Pending);
    // One more for the second variant: 4 * 100 is above 10 * 30.
    let state = update(&state, 3, &[delta("c", "B", key(23), 5)]);
    let entry = state.entries.get(&"c".to_string()).unwrap();
    assert_eq!(entry.status, Status::Disputed);
}

#[test]
fn below_threshold_stays_pending_without_trust() {
    let state = update(
        &CatalogState::default(),
        3,
        &[delta("c", "A", key(1), 5), delta("c", "A", key(2), 5)],
    );
    let entry = state.entries.get(&"c".to_string()).unwrap();
    assert_eq!(entry.status, Status::Pending);
    assert!(state.contributors.is_empty());
    assert_eq!(entry.hash_variants.value_at(0).attestations[0].weight, 1);
    assert_eq!(compute_trust_from_entries(&state, 3).len(), 0);
    assert_eq!(compute_trust_from_entries(&state, 2).len(), 2);
}

#[test]
fn title_and_description_bounds() {
    let mut d = delta("c", &"X".repeat(256), key(1), 5);
    assert_eq!(validate_delta(&d), Ok(()));
    d.description = "D".repeat(1024);
    d.metadata_hash = metadata_hash(&d.title, &d.description, &d.mini_snippet);
    assert_eq!(validate_delta(&d), Ok(()));
    d.description = "D".repeat(1025);
    d.metadata_hash = metadata_hash(&d.title, &d.description, &d.mini_snippet);
    assert_eq!(validate_delta(&d), Err(ContractError::InvalidUpdate));
    let long = delta("c", &"X".repeat(257), key(1), 5);
    assert_eq!(validate_delta(&long), Err(ContractError::InvalidUpdate));
    // The bound is on bytes: 128 characters of two bytes fit, 129 do not.
    assert_eq!(validate_delta(&delta("c", &"\u{00E9}".repeat(128), key(1), 5)), Ok(()));
    assert_eq!(
        validate_delta(&delta("c", &"\u{00E9}".repeat(129), key(1), 5)),
        Err(ContractError::InvalidUpdate)
    );
}

#[test]
fn each_field_is_checked() {
    assert_eq!(validate_delta(&delta("c", "A", key(1), 5)), Ok(()));
    assert_eq!(
        validate_delta(&delta("", "A", key(1), 5)),
        Err(ContractError::InvalidUpdate)
    );
    assert_eq!(
        validate_delta(&delta("c", "A", [0u8; 32], 5)),
        Err(ContractError::InvalidUpdate)
    );
    assert_eq!(
        validate_delta(&delta("c", "A", key(1), 0)),
        Err(ContractError::InvalidUpdate)
    );
    let mut d = delta("c", "A", key(1), 5);
    d.attestation.antiflood_token.difficulty = 0;
    assert_eq!(validate_delta(&d), Err(ContractError::InvalidUpdate));
    let mut d = delta("c", "A", key(1), 5);
    d.attestation.antiflood_token.nonce = Vec::new();
    assert_eq!(validate_delta(&d), Err(ContractError::InvalidUpdate));
    let mut d = delta("c", "A", key(1), 5);
    d.metadata_hash[31] ^= 1;
    assert_eq!(validate_delta(&d), Err(ContractError::InvalidUpdate));
    // A key with one byte that is not zero is a contributor.
    let mut last = [0u8; 32];
    last[31] = 1;
    assert_eq!(validate_delta(&delta("c", "A", last, 5)), Ok(()));
}

#[test]
fn delta_is_checked_against_the_given_hash() {
    let d = delta("c", "A", key(1), 5);
    assert_eq!(check_delta(&d, &d.metadata_hash), Ok(()));
    assert_eq!(check_delta(&d, &[7u8; 32]), Err(ContractError::InvalidUpdate));
    let mut made_up = d.clone();
    made_up.metadata_hash = [7u8; 32];
    assert_eq!(check_delta(&made_up, &[7u8; 32]), Ok(()));
}

#[test]
fn the_hash_is_of_the_mini_snippet_field() {
    let mut d = delta("c", "A", key(1), 5);
    assert_ne!(d.mini_snippet, d.snippet);
    assert_eq!(validate_delta(&d), Ok(()));
    d.metadata_hash = metadata_hash(&d.title, &d.description, &d.snippet);
    assert_eq!(validate_delta(&d), Err(ContractError::InvalidUpdate));
    d.snippet = "another text".to_string();
    d.metadata_hash = metadata_hash(&d.title, &d.description, &d.mini_snippet);
    assert_eq!(validate_delta(&d), Ok(()));
    d.metadata_hash = [0xFF; 32];
    assert_eq!(validate_delta(&d), Err(ContractError::InvalidUpdate));
}

#[test]
fn one_bad_delta_refuses_the_whole_update() {
    let good = delta("a", "A", key(1), 5);
    let bad = delta("", "A", key(2), 5);
    let updates = vec![
        CatalogUpdate::Delta(good.clone()),
        CatalogUpdate::DeltaBatch(vec![good.clone(), bad]),
    ];
    assert_eq!(
        update_state(&params(3), CatalogState::default(), &updates),
        Err(ContractError::InvalidUpdate)
    );
    assert_eq!(
        update_state(
            &params(3),
            CatalogState::default(),
            &vec![CatalogUpdate::Delta(good.clone()), CatalogUpdate::Malformed]
        ),
        Err(ContractError::InvalidUpdate)
    );
    let ignored = update_state(
        &params(3),
        CatalogState::default(),
        &vec![CatalogUpdate::Unrelated, CatalogUpdate::Delta(good)],
    )
    .unwrap();
    assert_eq!(ignored.entries.len(), 1);
}

#[test]
fn applying_a_delta_twice_is_applying_it_once() {
    let d = delta("c", "A", key(1), 5);
    let mut once = CatalogState::default();
    apply_delta_to_state(&mut once, &d);
    let mut twice = once.clone();
    apply_delta_to_state(&mut twice, &d);
    assert_eq!(once, twice);
    let a = update(&CatalogState::default(), 1, &[d.clone()]);
    let b = update(&CatalogState::default(), 1, &[d.clone(), d]);
    assert_eq!(a, b);
}

#[test]
fn scalars_move_by_maximum_and_minimum() {
    let mut first = delta("c", "A", key(1), 50);
    first.size_bytes = 7;
    first.version = None;
    let mut second = delta("c", "A", key(2), 20);
    second.size_bytes = 3;
    second.version = Some(9);
    let mut third = delta("c", "A", key(3), 80);
    third.size_bytes = 5;
    third.version = Some(4);
    let mut state = CatalogState::default();
    apply_delta_to_state(&mut state, &first);
    {
        let entry = state.entries.get(&"c".to_string()).unwrap();
        assert_eq!((entry.size_bytes, entry.version), (7, None));
        assert_eq!((entry.first_seen, entry.last_seen), (50, 50));
    }
    apply_delta_to_state(&mut state, &second);
    apply_delta_to_state(&mut state, &third);
    let entry = state.entries.get(&"c".to_string()).unwrap();
    assert_eq!((entry.size_bytes, entry.version), (7, Some(9)));
    assert_eq!((entry.first_seen, entry.last_seen), (20, 80));
    assert_eq!(entry.status, Status::Pending);
}

#[test]
fn weight_is_one_more_than_trust_and_never_wraps() {
    let mut state = CatalogState::default();
    state.contributors.insert(
        key(1),
        ContributorScore {
            pubkey: key(1),
            trust_score: u32::MAX,
            total_contributions: 0,
        },
    );
    state.contributors.insert(
        key(2),
        ContributorScore {
            pubkey: key(2),
            trust_score: 4,
            total_contributions: 0,
        },
    );
    apply_delta_to_state(&mut state, &delta("c", "A", key(1), 5));
    apply_delta_to_state(&mut state, &delta("c", "A", key(2), 5));
    let variant = state
        .entries
        .get(&"c".to_string())
        .unwrap()
        .hash_variants
        .value_at(0);
    assert_eq!(variant.attestations[0].weight, u32::MAX);
    assert_eq!(variant.attestations[1].weight, 5);
    assert_eq!(variant.total_weight, u32::MAX);
    assert_eq!(validate_state(&state), Ok(()));
}

#[test]
fn attestations_are_sorted_stably() {
    let make = |first: u8, created: u64| Attestation {
        contributor_pubkey: key(first),
        antiflood_token: AntifloodToken {
            nonce: vec![first],
            difficulty: 1,
        },
        token_created_at: created,
        weight: 1,
    };
    let mut list = vec![make(3, 1), make(1, 2), make(3, 3), make(2, 4), make(1, 5)];
    sort_attestations(&mut list);
    let order: Vec<(u8, u64)> = list
        .iter()
        .map(|a| (a.contributor_pubkey[0], a.token_created_at))
        .collect();
    assert_eq!(order, vec![(1, 2), (1, 5), (2, 4), (3, 1), (3, 3)]);
}

#[test]
fn merge_unites_and_takes_maxima() {
    let a = update(
        &CatalogState::default(),
        3,
        &[delta("a", "A", key(1), 5), delta("b", "B", key(1), 9)],
    );
    let b = update(
        &CatalogState::default(),
        3,
        &[delta("b", "B", key(2), 3), delta("c", "C", key(3), 4)],
    );
    let mut merged = a.clone();
    merge_catalog_states(&mut merged, &b);
    assert_eq!(merged.entries.len(), 3);
    let entry = merged.entries.get(&"b".to_string()).unwrap();
    assert_eq!(entry.hash_variants.value_at(0).attestations.len(), 2);
    assert_eq!(entry.hash_variants.value_at(0).total_weight, 2);
    assert_eq!((entry.first_seen, entry.last_seen), (3, 9));
    // Merging in the other order gives the same catalog here.
    let mut other = b.clone();
    merge_catalog_states(&mut other, &a);
    assert_eq!(merged, other);
    // Merging a catalog into itself changes nothing.
    let mut same = merged.clone();
    merge_catalog_states(&mut same, &merged);
    assert_eq!(same, merged);
    // A merge is one of the updates.
    let through_update = update_state(
        &params(3),
        a.clone(),
        &vec![CatalogUpdate::State(b.clone())],
    )
    .unwrap();
    let mut by_hand = a.clone();
    merge_catalog_states(&mut by_hand, &b);
    finalize_state(&mut by_hand, 3);
    assert_eq!(through_update, by_hand);
}

#[test]
fn merge_is_associative_on_these() {
    let base = CatalogState::default();
    let a = update(&base, 3, &[delta("a", "A", key(1), 5)]);
    let b = update(&base, 3, &[delta("a", "A", key(2), 6), delta("b", "B", key(2), 1)]);
    let c = update(&base, 3, &[delta("b", "B", key(3), 2)]);
    let mut ab = a.clone();
    merge_catalog_states(&mut ab, &b);
    let mut ab_c = ab.clone();
    merge_catalog_states(&mut ab_c, &c);
    let mut bc = b.clone();
    merge_catalog_states(&mut bc, &c);
    let mut a_bc = a.clone();
    merge_catalog_states(&mut a_bc, &bc);
    assert_eq!(ab_c, a_bc);
}

#[test]
fn finalizing_twice_is_finalizing_once() {
    let mut state = CatalogState::default();
    for first in 1..=3u8 {
        apply_delta_to_state(&mut state, &delta("c", "A", key(first), 5));
    }
    finalize_state(&mut state, 3);
    let once = state.clone();
    finalize_state(&mut state, 3);
    assert_eq!(state, once);
}

#[test]
fn trust_only_rises() {
    let mut state = CatalogState::default();
    state.contributors.insert(
        key(1),
        ContributorScore {
            pubkey: key(1),
            trust_score: 7,
            total_contributions: 2,
        },
    );
    for first in 1..=3u8 {
        apply_delta_to_state(&mut state, &delta("c", "A", key(first), 5));
    }
    finalize_state(&mut state, 3);
    let known = state.contributors.get(&key(1)).unwrap();
    assert_eq!((known.trust_score, known.total_contributions), (7, 2));
    let new = state.contributors.get(&key(2)).unwrap();
    assert_eq!((new.trust_score, new.total_contributions), (1, 1));
    let variant = state
        .entries
        .get(&"c".to_string())
        .unwrap()
        .hash_variants
        .value_at(0);
    let weights: Vec<u32> = variant.attestations.iter().map(|a| a.weight).collect();
    assert_eq!(weights, vec![8, 2, 2]);
    assert_eq!(variant.total_weight, 12);
}

#[test]
fn only_the_winning_variant_earns_trust() {
    let mut deltas = Vec::new();
    for first in [1u8, 2, 3] {
        deltas.push(delta("c", "A", key(first), 5));
    }
    deltas.push(delta("c", "B", key(9), 5));
    let state = update(&CatalogState::default(), 3, &deltas);
    assert!(state.contributors.get(&key(9)).is_none());
    assert_eq!(state.contributors.len(), 3);
}

#[test]
fn fingerprint_is_key_hash_and_weight() {
    let state = update(&CatalogState::default(), 3, &[delta("ck", "A", key(1), 5)]);
    let entry = state.entries.get(&"ck".to_string()).unwrap();
    let hash = metadata_hash("A", "description", "mini");
    let mut expected = b"ck".to_vec();
    expected.extend_from_slice(&hash);
    expected.extend_from_slice(&[0, 0, 0, 1]);
    assert_eq!(bloom_key(entry), expected);

    let empty = CatalogEntry {
        contract_key: "none".to_string(),
        hash_variants: OrderedMap::new(),
        size_bytes: 0,
        version: None,
        status: Status::Pending,
        first_seen: 0,
        last_seen: 0,
    };
    let mut expected = b"none".to_vec();
    expected.extend_from_slice(&[0u8; 36]);
    assert_eq!(bloom_key(&empty), expected);
}

#[test]
fn fingerprint_takes_the_heaviest_variant_and_the_greater_hash_on_a_tie() {
    let variant = |weight: u32| HashVariant {
        title: String::new(),
        description: String::new(),
        mini_snippet: String::new(),
        attestations: Vec::new(),
        total_weight: weight,
    };
    let mut variants = OrderedMap::new();
    variants.insert([1u8; 32], variant(5));
    variants.insert([2u8; 32], variant(9));
    variants.insert([3u8; 32], variant(9));
    variants.insert([4u8; 32], variant(2));
    let entry = CatalogEntry {
        contract_key: "k".to_string(),
        hash_variants: variants,
        size_bytes: 0,
        version: None,
        status: Status::Pending,
        first_seen: 0,
        last_seen: 0,
    };
    let mut expected = b"k".to_vec();
    expected.extend_from_slice(&[3u8; 32]);
    expected.extend_from_slice(&[0, 0, 0, 9]);
    assert_eq!(bloom_key(&entry), expected);
}

#[test]
fn peer_state_that_fails_validation_is_not_merged() {
    let own = update(&CatalogState::default(), 3, &[delta("a", "A", key(1), 5)]);
    let good = update(&CatalogState::default(), 3, &[delta("b", "B", key(2), 6)]);

    // A variant that does not stand under the hash of its texts.
    let mut wrong_hash = good.clone();
    let entry = wrong_hash.entries.value_at_mut(0);
    let variant = entry.hash_variants.value_at(0).clone();
    entry.hash_variants.insert([99u8; 32], variant);
    assert_eq!(validate_state(&wrong_hash), Err(ContractError::InvalidState));
    assert_eq!(
        update_state(&params(3), own.clone(), &vec![CatalogUpdate::State(wrong_hash)]),
        Err(ContractError::InvalidUpdate)
    );

    // An entry without a contract key.
    let mut unnamed = good.clone();
    unnamed.entries.value_at_mut(0).contract_key = String::new();
    assert_eq!(
        update_state(&params(3), own.clone(), &vec![CatalogUpdate::State(unnamed)]),
        Err(ContractError::InvalidUpdate)
    );

    // An entry under another key than its own is taken with its own contract.
    let mut misfiled = CatalogState::default();
    misfiled
        .entries
        .insert(String::new(), good.entries.value_at(0).clone());
    assert_eq!(validate_state(&misfiled), Ok(()));
    let taken =
        update_state(&params(3), own.clone(), &vec![CatalogUpdate::State(misfiled)]).unwrap();
    assert_eq!(taken.entries.get(&String::new()).unwrap().contract_key, "b");
    assert_eq!(validate_state(&taken), Ok(()));

    // A total that is not the sum of the weights.
    let mut wrong_total = good.clone();
    wrong_total.entries.value_at_mut(0).hash_variants.value_at_mut(0).total_weight = 40;
    assert_eq!(
        update_state(&params(3), own.clone(), &vec![CatalogUpdate::State(wrong_total)]),
        Err(ContractError::InvalidUpdate)
    );

    // One bad state refuses the deltas that come with it.
    let mut twice = good.clone();
    let again = twice.entries.value_at(0).hash_variants.value_at(0).attestations[0].clone();
    twice.entries.value_at_mut(0).hash_variants.value_at_mut(0).attestations.push(again);
    twice.entries.value_at_mut(0).hash_variants.value_at_mut(0).total_weight = 2;
    assert_eq!(
        update_state(
            &params(3),
            own.clone(),
            &vec![
                CatalogUpdate::Delta(delta("c", "C", key(3), 7)),
                CatalogUpdate::State(twice),
            ]
        ),
        Err(ContractError::InvalidUpdate)
    );

    // The valid state is merged, and the result is valid.
    let merged = update_state(&params(3), own, &vec![CatalogUpdate::State(good)]).unwrap();
    assert_eq!(merged.entries.len(), 2);
    assert_eq!(validate_state(&merged), Ok(()));
}

#[test]
fn variant_keeps_the_mini_snippet_of_the_delta() {
    let mut d = delta("c", "A", key(1), 5);
    d.mini_snippet = "short".to_string();
    d.snippet = "short and long".to_string();
    d.metadata_hash = metadata_hash(&d.title, &d.description, &d.mini_snippet);
    let state = update(&CatalogState::default(), 3, &[d.clone()]);
    let entry = state.entries.get(&"c".to_string()).unwrap();
    assert_eq!(entry.hash_variants.key_at(0), &d.metadata_hash);
    assert_eq!(entry.hash_variants.value_at(0).mini_snippet, "short");
    assert_eq!(validate_state(&state), Ok(()));
}
