use freenet_search::bloom::BloomFilter;
use freenet_search::hashing::shard_for_word;
use freenet_search::ordered_map::OrderedMap;
use freenet_search::shard_contract::{get_state_delta, summarize_state, update_state, ShardUpdate};
use freenet_search::types::{AntifloodToken, ShardDelta, ShardDeltaEntry, ShardState};

fn make_shard_delta(entries: Vec<ShardDeltaEntry>) -> ShardDelta {
    ShardDelta {
        entries,
        antiflood_token: AntifloodToken {
            nonce: vec![0u8; 8],
            difficulty: 16,
        },
    }
}

fn apply_delta(state: &ShardState, delta: &ShardDelta) -> ShardState {
    update_state(state.clone(), &vec![ShardUpdate::Delta(delta.clone())])
        .expect("update_state failed")
}

fn summarize(state: &ShardState) -> BloomFilter {
    summarize_state(state)
}

fn get_delta(state: &ShardState, summary: &BloomFilter) -> Option<ShardDelta> {
    get_state_delta(state, summary).expect("get_state_delta failed")
}

fn apply_missing(state: &ShardState, delta: Option<ShardDelta>) -> ShardState {
    match delta {
        Some(delta) => update_state(state.clone(), &vec![ShardUpdate::Delta(delta)])
            .expect("update from delta failed"),
        None => state.clone(),
    }
}

fn words_for_shard(shard_id: u8, shard_count: u8, count: usize) -> Vec<String> {
    let mut words = Vec::new();
    for i in 0..100000 {
        let word = format!("w{}", i);
        if shard_for_word(&word, shard_count) == shard_id {
            words.push(word);
            if words.len() >= count {
                break;
            }
        }
    }
    words
}

#[test]
fn shard_bloom_roundtrip() {
    let shard_id = 0u8;
    let words = words_for_shard(shard_id, 16, 5);

    let empty = ShardState {
        shard_id,
        index: OrderedMap::new(),
    };

    // Build populated state
    let deltas: Vec<ShardDelta> = words
        .iter()
        .enumerate()
        .map(|(i, word)| {
            make_shard_delta(vec![ShardDeltaEntry {
                word: word.clone(),
                contract_key: format!("c{}", i),
                snippet: format!("s{}", i),
                tf_idf_score: 1000,
            }])
        })
        .collect();

    let mut full_state = empty.clone();
    for d in &deltas {
        full_state = apply_delta(&full_state, d);
    }

    // Peer has empty state
    let peer_summary = summarize(&empty);
    let delta = get_delta(&full_state, &peer_summary);

    let synced: ShardState = apply_missing(&empty, delta);
    assert_eq!(full_state.index.len(), synced.index.len());
}

#[test]
fn missing_pairs_detected() {
    let shard_id = 0u8;
    let words = words_for_shard(shard_id, 16, 6);

    let empty = ShardState {
        shard_id,
        index: OrderedMap::new(),
    };

    // Node A has words 0-2
    let mut state_a = empty.clone();
    for (i, word) in words[0..3].iter().enumerate() {
        let d = make_shard_delta(vec![ShardDeltaEntry {
            word: word.clone(),
            contract_key: format!("ca{}", i),
            snippet: format!("sa{}", i),
            tf_idf_score: 1000,
        }]);
        state_a = apply_delta(&state_a, &d);
    }

    // Node B has words 2-5
    let mut state_b = empty.clone();
    for (i, word) in words[2..6].iter().enumerate() {
        let d = make_shard_delta(vec![ShardDeltaEntry {
            word: word.clone(),
            contract_key: format!("cb{}", i),
            snippet: format!("sb{}", i),
            tf_idf_score: 2000,
        }]);
        state_b = apply_delta(&state_b, &d);
    }

    let summary_b = summarize(&state_b);
    let delta_a_to_b = get_delta(&state_a, &summary_b);

    // Delta should be non-empty (A has words B doesn't have)
    assert!(delta_a_to_b.is_some());
}

#[test]
fn shard_sync_convergence() {
    let shard_id = 0u8;
    let words = words_for_shard(shard_id, 16, 6);

    let empty = ShardState {
        shard_id,
        index: OrderedMap::new(),
    };

    // Build two different states
    let mut state_a = empty.clone();
    for (i, word) in words[0..3].iter().enumerate() {
        let d = make_shard_delta(vec![ShardDeltaEntry {
            word: word.clone(),
            contract_key: format!("ca{}", i),
            snippet: format!("sa{}", i),
            tf_idf_score: 1000,
        }]);
        state_a = apply_delta(&state_a, &d);
    }

    let mut state_b = empty.clone();
    for (i, word) in words[3..6].iter().enumerate() {
        let d = make_shard_delta(vec![ShardDeltaEntry {
            word: word.clone(),
            contract_key: format!("cb{}", i),
            snippet: format!("sb{}", i),
            tf_idf_score: 2000,
        }]);
        state_b = apply_delta(&state_b, &d);
    }

    // Exchange deltas
    let summary_b = summarize(&state_b);
    let delta_a_to_b = get_delta(&state_a, &summary_b);

    let summary_a = summarize(&state_a);
    let delta_b_to_a = get_delta(&state_b, &summary_a);

    // Apply
    let state_b_synced = apply_missing(&state_b, delta_a_to_b);

    let state_a_synced = apply_missing(&state_a, delta_b_to_a);

    assert_eq!(state_a_synced.index.len(), state_b_synced.index.len());
    assert_eq!(state_a_synced, state_b_synced);
}
