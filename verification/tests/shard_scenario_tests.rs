use freenet_search::hashing::shard_for_word;
use freenet_search::ordered_map::OrderedMap;
use freenet_search::shard::{
    apply_shard_delta, merge_shard_states, sort_terms, validate_shard_delta,
};
use freenet_search::shard_contract::{
    bloom_key, get_state_delta, has_distinct_contracts, summarize_state, update_state,
    validate_state, ShardUpdate,
};
use freenet_search::bloom::BloomFilter;
use freenet_search::types::{
    AntifloodToken, ContractError, ShardDelta, ShardDeltaEntry, ShardState, TermEntry,
};

fn word_in(shard: u8, skip: usize) -> String {
    (0..100000)
        .map(|i| format!("term{}", i))
        .filter(|w| shard_for_word(w, 16) == shard)
        .nth(skip)
        .unwrap()
}

fn entry(word: &str, contract: &str, snippet: &str, score: u32) -> ShardDeltaEntry {
    ShardDeltaEntry {
        word: word.to_string(),
        contract_key: contract.to_string(),
        snippet: snippet.to_string(),
        tf_idf_score: score,
    }
}

fn delta(entries: Vec<ShardDeltaEntry>) -> ShardDelta {
    ShardDelta {
        entries,
        antiflood_token: AntifloodToken {
            nonce: vec![1],
            difficulty: 1,
        },
    }
}

fn term(contract: &str, snippet: &str, score: u32) -> TermEntry {
    TermEntry {
        contract_key: contract.to_string(),
        snippet: snippet.to_string(),
        tf_idf_score: score,
    }
}

#[test]
fn larger_score_wins_and_takes_its_snippet() {
    let word = word_in(3, 0);
    let mut state = ShardState::new(3);
    apply_shard_delta(&mut state, &delta(vec![entry(&word, "c", "first", 10)]));
    apply_shard_delta(&mut state, &delta(vec![entry(&word, "c", "lower", 5)]));
    assert_eq!(state.index.get(&word).unwrap(), &vec![term("c", "first", 10)]);
    apply_shard_delta(&mut state, &delta(vec![entry(&word, "c", "tie", 10)]));
    assert_eq!(state.index.get(&word).unwrap(), &vec![term("c", "first", 10)]);
    apply_shard_delta(&mut state, &delta(vec![entry(&word, "c", "higher", 11)]));
    assert_eq!(state.index.get(&word).unwrap(), &vec![term("c", "higher", 11)]);
}

#[test]
fn entries_stand_in_the_order_of_their_contracts() {
    let word = word_in(0, 0);
    let mut state = ShardState::new(0);
    apply_shard_delta(
        &mut state,
        &delta(vec![
            entry(&word, "m", "", 1),
            entry(&word, "z", "", 2),
            entry(&word, "a", "", 3),
        ]),
    );
    let contracts: Vec<String> = state
        .index
        .get(&word)
        .unwrap()
        .iter()
        .map(|t| t.contract_key.clone())
        .collect();
    assert_eq!(contracts, vec!["a", "m", "z"]);
    let mut list = vec![term("b", "1", 0), term("a", "2", 0), term("b", "3", 0), term("a", "4", 0)];
    sort_terms(&mut list);
    let order: Vec<String> = list.iter().map(|t| t.snippet.clone()).collect();
    assert_eq!(order, vec!["2", "4", "1", "3"]);
}

#[test]
fn delta_must_belong_to_the_shard() {
    let state = ShardState::new(2);
    let mine = word_in(2, 0);
    let other = word_in(5, 0);
    assert_eq!(
        validate_shard_delta(&state, &delta(vec![entry(&mine, "c", "", 1)])),
        Ok(())
    );
    assert_eq!(validate_shard_delta(&state, &delta(Vec::new())), Ok(()));
    assert_eq!(
        validate_shard_delta(
            &state,
            &delta(vec![entry(&mine, "c", "", 1), entry(&other, "c", "", 1)])
        ),
        Err(ContractError::InvalidUpdate)
    );
    assert_eq!(
        validate_shard_delta(&state, &delta(vec![entry("", "c", "", 1)])),
        Err(ContractError::InvalidUpdate)
    );
    let mut weak = delta(vec![entry(&mine, "c", "", 1)]);
    weak.antiflood_token.difficulty = 0;
    assert_eq!(
        validate_shard_delta(&state, &weak),
        Err(ContractError::InvalidUpdate)
    );
    let mut bare = delta(vec![entry(&mine, "c", "", 1)]);
    bare.antiflood_token.nonce = Vec::new();
    assert_eq!(
        validate_shard_delta(&state, &bare),
        Err(ContractError::InvalidUpdate)
    );
}

#[test]
fn update_is_all_or_nothing() {
    let mine = word_in(2, 0);
    let other = word_in(5, 0);
    let good = delta(vec![entry(&mine, "c", "", 1)]);
    let bad = delta(vec![entry(&other, "c", "", 1)]);
    assert_eq!(
        update_state(
            ShardState::new(2),
            &vec![
                ShardUpdate::Delta(good.clone()),
                ShardUpdate::DeltaBatch(vec![good.clone(), bad])
            ]
        ),
        Err(ContractError::InvalidUpdate)
    );
    assert_eq!(
        update_state(ShardState::new(2), &vec![ShardUpdate::Malformed]),
        Err(ContractError::InvalidUpdate)
    );
    let taken = update_state(
        ShardState::new(2),
        &vec![
            ShardUpdate::Unrelated,
            ShardUpdate::DeltaBatch(vec![good.clone(), good]),
        ],
    )
    .unwrap();
    assert_eq!(taken.shard_id, 2);
    assert_eq!(taken.index.len(), 1);
}

#[test]
fn merge_takes_the_union_and_the_larger_scores() {
    let w1 = word_in(1, 0);
    let w2 = word_in(1, 1);
    let mut a = ShardState::new(1);
    apply_shard_delta(
        &mut a,
        &delta(vec![entry(&w1, "x", "ax", 5), entry(&w1, "y", "ay", 9)]),
    );
    let mut b = ShardState::new(1);
    apply_shard_delta(
        &mut b,
        &delta(vec![
            entry(&w1, "x", "bx", 7),
            entry(&w1, "w", "bw", 1),
            entry(&w2, "x", "b2", 3),
        ]),
    );
    let mut merged = a.clone();
    merge_shard_states(&mut merged, &b);
    assert_eq!(
        merged.index.get(&w1).unwrap(),
        &vec![term("w", "bw", 1), term("x", "bx", 7), term("y", "ay", 9)]
    );
    assert_eq!(merged.index.get(&w2).unwrap(), &vec![term("x", "b2", 3)]);
    let mut other = b.clone();
    merge_shard_states(&mut other, &a);
    assert_eq!(merged, other);
    let mut same = merged.clone();
    merge_shard_states(&mut same, &merged);
    assert_eq!(same, merged);
    let through_update =
        update_state(a.clone(), &vec![ShardUpdate::State(b.clone())]).unwrap();
    assert_eq!(through_update, merged);
}

#[test]
fn validation_checks_terms_and_contracts() {
    let word = word_in(4, 0);
    let mut index = OrderedMap::new();
    index.insert(word.clone(), vec![term("a", "", 1), term("b", "", 1)]);
    let state = ShardState { shard_id: 4, index };
    assert_eq!(validate_state(&state), Ok(()));
    let mut index = OrderedMap::new();
    index.insert(word.clone(), vec![term("a", "", 1), term("a", "", 2)]);
    let twice = ShardState { shard_id: 4, index };
    assert_eq!(validate_state(&twice), Err(ContractError::InvalidState));
    assert!(has_distinct_contracts(&vec![term("a", "", 1), term("b", "", 1)]));
    assert!(!has_distinct_contracts(&vec![
        term("a", "", 1),
        term("b", "", 1),
        term("a", "", 1)
    ]));
    // No term belongs to a shard beyond the last.
    let mut index = OrderedMap::new();
    index.insert(word, Vec::new());
    let beyond = ShardState { shard_id: 16, index };
    assert_eq!(validate_state(&beyond), Err(ContractError::InvalidState));
    assert_eq!(validate_state(&ShardState::new(200)), Ok(()));
}

#[test]
fn fingerprint_joins_term_and_contract() {
    assert_eq!(bloom_key("ab", "cd"), vec![b'a', b'b', 0xFF, b'c', b'd']);
    assert_eq!(bloom_key("", ""), vec![0xFF]);
}

#[test]
fn delta_bundles_what_the_summary_lacks() {
    let w1 = word_in(1, 0);
    let w2 = word_in(1, 1);
    let mut state = ShardState::new(1);
    apply_shard_delta(
        &mut state,
        &delta(vec![
            entry(&w1, "x", "1", 5),
            entry(&w2, "y", "2", 6),
            entry(&w1, "a", "3", 7),
        ]),
    );
    let own = summarize_state(&state);
    assert_eq!(get_state_delta(&state, &own), Ok(None));
    let full = BloomFilter::from_parts(vec![0xFF; 1024], 8192);
    assert_eq!(get_state_delta(&state, &full), Ok(None));
    let missing = get_state_delta(&state, &BloomFilter::new(8192))
        .unwrap()
        .unwrap();
    assert_eq!(
        missing.antiflood_token,
        AntifloodToken {
            nonce: vec![0u8; 8],
            difficulty: 1
        }
    );
    let (first, second) = if w1 < w2 { (&w1, &w2) } else { (&w2, &w1) };
    let mut expected = Vec::new();
    for word in [first, second] {
        if word == &w1 {
            expected.push(entry(&w1, "a", "3", 7));
            expected.push(entry(&w1, "x", "1", 5));
        } else {
            expected.push(entry(&w2, "y", "2", 6));
        }
    }
    assert_eq!(missing.entries, expected);
    // What is bundled passes the validation of the same shard.
    assert_eq!(validate_shard_delta(&state, &missing), Ok(()));
    assert_eq!(
        get_state_delta(&state, &BloomFilter::from_parts(Vec::new(), 0)),
        Err(ContractError::InvalidState)
    );
}

#[test]
fn peer_shard_that_fails_validation_is_not_merged() {
    let w1 = word_in(1, 0);
    let other = word_in(2, 0);
    let mut own = ShardState::new(1);
    apply_shard_delta(&mut own, &delta(vec![entry(&w1, "x", "ax", 5)]));

    // A term of another shard.
    let mut foreign = ShardState::new(1);
    foreign.index.insert(other.clone(), vec![term("y", "by", 3)]);
    assert_eq!(validate_state(&foreign), Err(ContractError::InvalidState));
    assert_eq!(
        update_state(own.clone(), &vec![ShardUpdate::State(foreign)]),
        Err(ContractError::InvalidUpdate)
    );

    // A contract twice under one term.
    let mut twice = ShardState::new(1);
    twice
        .index
        .insert(w1.clone(), vec![term("y", "one", 3), term("y", "two", 4)]);
    assert_eq!(
        update_state(own.clone(), &vec![ShardUpdate::State(twice)]),
        Err(ContractError::InvalidUpdate)
    );

    // A valid shard of another id.
    let mut elsewhere = ShardState::new(2);
    elsewhere.index.insert(other, vec![term("y", "by", 3)]);
    assert_eq!(validate_state(&elsewhere), Ok(()));
    assert_eq!(
        update_state(own.clone(), &vec![ShardUpdate::State(elsewhere)]),
        Err(ContractError::InvalidUpdate)
    );

    // A valid shard of the same id is merged, and the result is valid.
    let mut peer = ShardState::new(1);
    peer.index.insert(w1.clone(), vec![term("y", "by", 3)]);
    let merged = update_state(own, &vec![ShardUpdate::State(peer)]).unwrap();
    assert_eq!(
        merged.index.get(&w1).unwrap(),
        &vec![term("x", "ax", 5), term("y", "by", 3)]
    );
    assert_eq!(validate_state(&merged), Ok(()));
}
