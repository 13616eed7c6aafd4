use freenet_search::catalog_contract::{update_state, CatalogUpdate};
use freenet_search::hashing::{metadata_hash, shard_for_word};
use freenet_search::ordered_map::OrderedMap;
use freenet_search::search::{
    execute_search, parse_query, rank_results, SearchQuery, SearchResult, MAX_RESULTS,
};
use freenet_search::types::{
    AntifloodToken, Attestation, CatalogDelta, CatalogParameters, CatalogState, ShardState, Status,
    TermEntry,
};

fn term(contract_key: &str, snippet: &str, score: u32) -> TermEntry {
    TermEntry {
        contract_key: contract_key.to_string(),
        snippet: snippet.to_string(),
        tf_idf_score: score,
    }
}

fn shard_with(word: &str, entries: Vec<TermEntry>) -> ShardState {
    let mut index = OrderedMap::new();
    index.insert(word.to_string(), entries);
    ShardState {
        shard_id: shard_for_word(word, 16),
        index,
    }
}

fn catalog_with(contract_key: &str, title: &str, contributors: u8, threshold: u32) -> CatalogState {
    let description = "a description".to_string();
    let snippet = "a snippet".to_string();
    let updates: Vec<CatalogUpdate> = (1..=contributors)
        .map(|c| {
            let mut pubkey = [0u8; 32];
            pubkey[0] = c;
            CatalogUpdate::Delta(CatalogDelta {
                contract_key: contract_key.to_string(),
                title: title.to_string(),
                metadata_hash: metadata_hash(title, &description, "mini"),
                description: description.clone(),
                mini_snippet: "mini".to_string(),
                snippet: snippet.clone(),
                size_bytes: 10,
                version: Some(1),
                attestation: Attestation {
                    contributor_pubkey: pubkey,
                    antiflood_token: AntifloodToken {
                        nonce: vec![1, 2, 3],
                        difficulty: 4,
                    },
                    token_created_at: 10,
                    weight: 1,
                },
            })
        })
        .collect();
    let parameters = CatalogParameters {
        protocol_version: 1,
        shard_count: 16,
        confirmation_weight_threshold: threshold,
        entry_ttl_days: 90,
    };
    update_state(&parameters, CatalogState::default(), &updates).expect("update refused")
}

fn result(contract_key: &str, score: u32) -> SearchResult {
    SearchResult {
        contract_key: contract_key.to_string(),
        title: contract_key.to_string(),
        description: String::new(),
        highlighted_snippet: String::new(),
        combined_score: score,
        status: Status::Pending,
        attestation_count: 0,
    }
}

fn keys(results: &[SearchResult]) -> Vec<&str> {
    results.iter().map(|r| r.contract_key.as_str()).collect()
}

#[test]
fn query_is_tokenized_and_routed() {
    let query = parse_query("The Quick  brown-Fox");
    assert_eq!(query.terms, vec!["quick", "brown", "fox"]);
    assert_eq!(query.term_to_shard.len(), 3);
    for word in ["quick", "brown", "fox"] {
        assert_eq!(
            query.term_to_shard.get(&word.to_string()),
            Some(&shard_for_word(word, 16))
        );
    }
}

#[test]
fn query_with_a_repeated_term_routes_it_once() {
    let query = parse_query("fox fox");
    assert_eq!(query.terms, vec!["fox", "fox"]);
    assert_eq!(query.term_to_shard.len(), 1);
}

#[test]
fn empty_query_finds_nothing() {
    let shards = vec![shard_with("fox", vec![term("c1", "a fox", 1000)])];
    assert!(execute_search(&parse_query(""), &shards, None).is_empty());
    assert!(execute_search(&parse_query("the and of"), &shards, None).is_empty());
}

#[test]
fn document_outside_the_catalog_is_shown_under_its_key() {
    let shards = vec![shard_with("fox", vec![term("c1", "a quick fox", 1000)])];
    let results = execute_search(&parse_query("fox"), &shards, None);
    assert_eq!(
        results,
        vec![SearchResult {
            contract_key: "c1".to_string(),
            title: "c1".to_string(),
            description: String::new(),
            highlighted_snippet: "a quick <mark>fox</mark>".to_string(),
            combined_score: 700,
            status: Status::Pending,
            attestation_count: 0,
        }]
    );
    let empty = CatalogState::default();
    assert_eq!(execute_search(&parse_query("fox"), &shards, Some(&empty)), results);
}

#[test]
fn document_of_the_catalog_is_shown_as_its_variant_describes_it() {
    let shards = vec![shard_with("fox", vec![term("c1", "a quick fox", 1000)])];
    let catalog = catalog_with("c1", "Foxes", 1, 3);
    let results = execute_search(&parse_query("fox"), &shards, Some(&catalog));
    assert_eq!(
        results,
        vec![SearchResult {
            contract_key: "c1".to_string(),
            title: "Foxes".to_string(),
            description: "a description".to_string(),
            highlighted_snippet: "a quick <mark>fox</mark>".to_string(),
            combined_score: 805,
            status: Status::Pending,
            attestation_count: 1,
        }]
    );
}

#[test]
fn confirmed_document_ranks_higher() {
    let shards = vec![shard_with(
        "fox",
        vec![term("c1", "one fox", 1000), term("c2", "two fox", 1000)],
    )];
    let catalog = catalog_with("c2", "Second", 3, 3);
    let results = execute_search(&parse_query("fox"), &shards, Some(&catalog));
    assert_eq!(keys(&results), vec!["c2", "c1"]);
    assert_eq!(results[0].status, Status::Confirmed);
    assert_eq!(results[0].attestation_count, 3);
    // Three attestations of weight 2 and version 1: magnitudes 1500 and 500,
    // rank 750 + 3000.
    assert_eq!(results[0].combined_score, 1825);
    assert_eq!(results[1].combined_score, 700);
}

#[test]
fn scores_of_several_terms_add_up() {
    let fox = shard_with("fox", vec![term("c1", "", 1000), term("c2", "only fox", 1500)]);
    let dog = shard_with("dog", vec![term("c1", "fox and dog", 2000)]);
    let results = execute_search(&parse_query("fox dog"), &vec![fox, dog], None);
    assert_eq!(keys(&results), vec!["c1", "c2"]);
    assert_eq!(results[0].combined_score, 2100);
    assert_eq!(
        results[0].highlighted_snippet,
        "<mark>fox</mark> and <mark>dog</mark>"
    );
    assert_eq!(results[1].combined_score, 1050);
}

#[test]
fn first_snippet_is_kept() {
    let fox = shard_with("fox", vec![term("c1", "first fox", 1000)]);
    let dog = shard_with("dog", vec![term("c1", "second dog", 1000)]);
    let results = execute_search(&parse_query("fox dog"), &vec![fox, dog], None);
    assert_eq!(results.len(), 1);
    assert_eq!(results[0].highlighted_snippet, "first <mark>fox</mark>");
}

#[test]
fn scores_are_held_at_the_largest_value() {
    let fox = shard_with("fox", vec![term("c1", "", 3_000_000_000)]);
    let dog = shard_with("dog", vec![term("c1", "", 3_000_000_000)]);
    let results = execute_search(&parse_query("fox dog"), &vec![fox, dog], None);
    assert_eq!(results.len(), 1);
    assert_eq!(results[0].combined_score, 3_006_477_106);
}

#[test]
fn term_without_its_shard_finds_nothing() {
    let mut other = shard_with("fox", vec![term("c1", "a fox", 1000)]);
    other.shard_id = (other.shard_id + 1) % 16;
    assert!(execute_search(&parse_query("fox"), &vec![other], None).is_empty());
    assert!(execute_search(&parse_query("fox"), &Vec::new(), None).is_empty());
}

#[test]
fn term_outside_the_table_is_passed_over() {
    let shards = vec![shard_with("fox", vec![term("c1", "a fox", 1000)])];
    let query = SearchQuery {
        terms: vec!["fox".to_string()],
        term_to_shard: OrderedMap::new(),
    };
    assert!(execute_search(&query, &shards, None).is_empty());
}

#[test]
fn first_shard_with_the_id_is_searched() {
    let first = shard_with("fox", vec![term("c1", "a fox", 1000)]);
    let second = shard_with("fox", vec![term("c2", "a fox", 1000)]);
    let results = execute_search(&parse_query("fox"), &vec![first, second], None);
    assert_eq!(keys(&results), vec!["c1"]);
}

#[test]
fn results_are_cut() {
    let entries: Vec<TermEntry> = (0..60u32)
        .map(|i| term(&format!("c{:02}", i), "fox", 1000 + i))
        .collect();
    let shards = vec![shard_with("fox", entries)];
    let results = execute_search(&parse_query("fox"), &shards, None);
    assert_eq!(results.len(), MAX_RESULTS);
    assert_eq!(results[0].contract_key, "c59");
    // c10 and c11 both score 707 and stay in the order of their keys.
    assert_eq!(results[48].contract_key, "c10");
    assert_eq!(results[49].contract_key, "c11");
    for pair in results.windows(2) {
        assert!(pair[0].combined_score >= pair[1].combined_score);
    }
}

#[test]
fn equal_scores_stay_in_key_order() {
    let shards = vec![shard_with(
        "fox",
        vec![term("b", "fox", 1000), term("c", "fox", 2000), term("a", "fox", 1000)],
    )];
    let results = execute_search(&parse_query("fox"), &shards, None);
    assert_eq!(keys(&results), vec!["c", "a", "b"]);
}

#[test]
fn ranking_sorts_by_score_and_keeps_ties_in_place() {
    let mut results = vec![
        result("a", 10),
        result("b", 30),
        result("c", 10),
        result("d", 20),
        result("e", 30),
    ];
    rank_results(&mut results);
    assert_eq!(keys(&results), vec!["b", "e", "d", "a", "c"]);
    let mut none: Vec<SearchResult> = Vec::new();
    rank_results(&mut none);
    assert!(none.is_empty());
}
