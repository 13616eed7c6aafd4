use std::collections::BTreeMap;
use std::io::Cursor;

use freenet_search::client::{
    confirm_contribution, next_type_checks, note_contracts, note_state, record_contribution,
    restore, retrigger_contributions, ContractSeen, ContributionRecord, ContributionStatus, Discovery, Followup,
    TYPE_CHECK_BATCH_SIZE,
};
use freenet_search::directory::{AppEntry, ContractType, DiscoveryPhase};
use freenet_search::ordered_map::OrderedMap;

fn make_tar(filename: &str, content: &[u8]) -> Vec<u8> {
    let mut tar = Vec::new();
    let mut header = [0u8; 512];
    let name_bytes = filename.as_bytes();
    header[..name_bytes.len()].copy_from_slice(name_bytes);
    header[100..108].copy_from_slice(b"0000644\0");
    header[108..116].copy_from_slice(b"0000000\0");
    header[116..124].copy_from_slice(b"0000000\0");
    let size_str = format!("{:011o}\0", content.len());
    header[124..136].copy_from_slice(size_str.as_bytes());
    header[136..148].copy_from_slice(b"00000000000\0");
    header[156] = b'0';
    header[257..263].copy_from_slice(b"ustar\0");
    header[263..265].copy_from_slice(b"00");
    tar.extend_from_slice(&header);
    tar.extend_from_slice(content);
    let padding = (512 - (content.len() % 512)) % 512;
    tar.extend(std::iter::repeat_n(0u8, padding));
    tar.extend(std::iter::repeat_n(0u8, 1024));
    tar
}


fn make_web_container(html: &str, version: u64) -> Vec<u8> {
    let tar_data = make_tar("index.html", html.as_bytes());
    let mut compressed = Vec::new();
    lzma_rs::xz_compress(&mut Cursor::new(&tar_data), &mut compressed).unwrap();
    let metadata_map: BTreeMap<String, u64> =
        [("version".to_string(), version)].into_iter().collect();
    let mut metadata = Vec::new();
    ciborium::ser::into_writer(&metadata_map, &mut metadata).unwrap();
    let mut result = Vec::new();
    result.extend_from_slice(&(metadata.len() as u64).to_be_bytes());
    result.extend_from_slice(&metadata);
    result.extend_from_slice(&(compressed.len() as u64).to_be_bytes());
    result.extend_from_slice(&compressed);
    result
}

fn seen(key: &str, id: u8, subscribers: u32) -> ContractSeen {
    ContractSeen {
        key: key.to_string(),
        instance_id: vec![id; 32],
        subscribers,
    }
}

fn entry(title: Option<&str>) -> AppEntry {
    AppEntry {
        title: title.map(|t| t.to_string()),
        description: None,
        first_seen: 1,
        last_seen: 2,
        size_bytes: Some(9),
        subscribers: 0,
        version: Some(4),
    }
}

fn record(key: &str, status: ContributionStatus) -> ContributionRecord {
    ContributionRecord {
        contract_key: key.to_string(),
        timestamp: 5,
        status,
    }
}

#[test]
fn discovery_starts_empty() {
    let client = Discovery::new();
    assert!(client.contract_types.is_empty());
    assert!(client.type_check_queue.is_empty());
    assert!(client.app_catalog.is_empty());
    assert_eq!(client.phase, DiscoveryPhase::Idle);
    assert_eq!(client.total_contracts, 0);
    assert_eq!(client.types_checked, 0);
}

#[test]
fn report_queues_new_contracts_once() {
    let mut client = Discovery::new();
    client.contract_types.insert("known".to_string(), ContractType::Data);
    client.app_catalog.insert("app".to_string(), entry(Some("App")));
    note_contracts(
        &mut client,
        &vec![seen("b", 2, 0), seen("known", 9, 0), seen("a", 1, 0), seen("app", 3, 7)],
    );
    assert_eq!(client.total_contracts, 4);
    assert_eq!(client.phase, DiscoveryPhase::DetectingTypes);
    assert_eq!(
        client.type_check_queue,
        vec![
            ("b".to_string(), vec![2; 32]),
            ("a".to_string(), vec![1; 32]),
            ("app".to_string(), vec![3; 32]),
        ]
    );
    assert_eq!(client.app_catalog.get(&"app".to_string()).unwrap().subscribers, 7);
    // A second report of the same contracts queues nothing again.
    note_contracts(&mut client, &vec![seen("a", 1, 0), seen("app", 3, 8), seen("a", 1, 0)]);
    assert_eq!(client.total_contracts, 3);
    assert_eq!(client.type_check_queue.len(), 3);
    assert_eq!(client.app_catalog.get(&"app".to_string()).unwrap().subscribers, 8);
}

#[test]
fn report_without_new_contracts_keeps_fetching() {
    let mut client = Discovery::new();
    client.contract_types.insert("known".to_string(), ContractType::Data);
    client.phase = DiscoveryPhase::Complete;
    note_contracts(&mut client, &vec![seen("known", 9, 0)]);
    assert_eq!(client.phase, DiscoveryPhase::FetchingContracts);
    assert_eq!(client.total_contracts, 1);
    assert!(client.type_check_queue.is_empty());
}

#[test]
fn state_of_other_data_is_only_counted() {
    let mut client = Discovery::new();
    let followup = note_state(&mut client, "d", &[1, 2, 3], 50);
    assert_eq!(
        followup,
        Followup {
            fetch_title: None,
            save_cache: false,
            contribute: false,
        }
    );
    assert_eq!(client.contract_types.get(&"d".to_string()), Some(&ContractType::Data));
    assert!(client.app_catalog.is_empty());
    assert_eq!(client.types_checked, 1);
    assert_eq!(client.phase, DiscoveryPhase::Complete);
}

#[test]
fn state_of_a_web_app_is_noted() {
    let mut client = Discovery::new();
    client.type_check_queue.push(("other".to_string(), vec![0; 32]));
    client.phase = DiscoveryPhase::DetectingTypes;
    let state = make_web_container(
        "<html><head><title>River</title><meta name=\"description\" content=\"Maps\"></head></html>",
        3,
    );
    let followup = note_state(&mut client, "w", &state, 50);
    assert_eq!(
        followup,
        Followup {
            fetch_title: Some((Some(3), state.len() as u64)),
            save_cache: true,
            contribute: true,
        }
    );
    assert_eq!(client.contract_types.get(&"w".to_string()), Some(&ContractType::WebApp));
    assert_eq!(
        client.app_catalog.get(&"w".to_string()),
        Some(&AppEntry {
            title: Some("River".to_string()),
            description: Some("Maps".to_string()),
            first_seen: 50,
            last_seen: 50,
            size_bytes: Some(state.len() as u64),
            subscribers: 0,
            version: Some(3),
        })
    );
    assert_eq!(client.types_checked, 1);
    assert_eq!(client.phase, DiscoveryPhase::DetectingTypes);
}

#[test]
fn known_web_app_is_not_read_again() {
    let mut client = Discovery::new();
    let first = make_web_container("<title>River</title><meta name=\"description\" content=\"Maps\">", 3);
    note_state(&mut client, "w", &first, 50);
    // The same version with another page: title and description stay.
    let second = make_web_container("<title>Lake</title><meta name=\"description\" content=\"Fish\">", 3);
    let followup = note_state(&mut client, "w", &second, 60);
    assert_eq!(followup.fetch_title, None);
    assert!(followup.save_cache && followup.contribute);
    let entry = client.app_catalog.get(&"w".to_string()).unwrap();
    assert_eq!(entry.title, Some("River".to_string()));
    assert_eq!(entry.first_seen, 50);
    assert_eq!(entry.last_seen, 60);
    assert_eq!(entry.size_bytes, Some(second.len() as u64));
    // A new version is read again.
    let third = make_web_container("<title>Lake</title>", 4);
    let followup = note_state(&mut client, "w", &third, 70);
    assert_eq!(followup.fetch_title, None);
    let entry = client.app_catalog.get(&"w".to_string()).unwrap();
    assert_eq!(entry.title, Some("Lake".to_string()));
    assert_eq!(entry.description, Some("Lake".to_string()));
    assert_eq!(entry.version, Some(4));
    assert_eq!(client.types_checked, 3);
}

#[test]
fn unreadable_web_app_has_its_title_fetched() {
    let mut client = Discovery::new();
    let mut state = Vec::new();
    state.extend_from_slice(&1u64.to_be_bytes());
    state.push(0xa0);
    state.extend_from_slice(&2u64.to_be_bytes());
    state.extend_from_slice(&[1, 2]);
    let followup = note_state(&mut client, "w", &state, 50);
    assert_eq!(followup.fetch_title, Some((None, 19)));
    let entry = client.app_catalog.get(&"w".to_string()).unwrap();
    assert_eq!(entry.title, None);
    assert_eq!(entry.description, None);
    assert_eq!(entry.size_bytes, Some(19));
    assert_eq!(entry.version, None);
}

#[test]
fn queue_is_polled_in_batches() {
    let mut client = Discovery::new();
    client.contract_types.insert("c03".to_string(), ContractType::Data);
    for i in 0..12u8 {
        let id = if i == 5 { vec![i; 31] } else { vec![i; 32] };
        client.type_check_queue.push((format!("c{:02}", i), id));
    }
    let ids = next_type_checks(&mut client);
    let expected: Vec<[u8; 32]> = (0..TYPE_CHECK_BATCH_SIZE as u8)
        .filter(|i| *i != 3 && *i != 5)
        .map(|i| [i; 32])
        .collect();
    assert_eq!(ids, expected);
    assert_eq!(client.type_check_queue.len(), 2);
    assert_eq!(client.type_check_queue[0].0, "c10");
    assert_eq!(next_type_checks(&mut client), vec![[10u8; 32], [11u8; 32]]);
    assert!(client.type_check_queue.is_empty());
    assert!(next_type_checks(&mut client).is_empty());
}

#[test]
fn directory_is_restored() {
    let mut catalog = OrderedMap::new();
    catalog.insert("b".to_string(), entry(Some("B")));
    catalog.insert("a".to_string(), entry(None));
    catalog.insert("c".to_string(), entry(None));
    let (client, untitled) = restore(catalog.clone(), 40);
    assert_eq!(client.app_catalog, catalog);
    assert_eq!(client.contract_types.len(), 3);
    for key in ["a", "b", "c"] {
        assert_eq!(
            client.contract_types.get(&key.to_string()),
            Some(&ContractType::WebApp)
        );
    }
    assert_eq!(client.types_checked, 3);
    assert_eq!(client.total_contracts, 40);
    assert_eq!(client.phase, DiscoveryPhase::Idle);
    assert!(client.type_check_queue.is_empty());
    assert_eq!(
        untitled,
        vec![
            ("a".to_string(), Some(4), Some(9)),
            ("c".to_string(), Some(4), Some(9)),
        ]
    );
}

#[test]
fn last_submitted_contribution_is_confirmed() {
    let mut history = Vec::new();
    record_contribution(&mut history, "a", 5, ContributionStatus::Submitted);
    record_contribution(&mut history, "b", 5, ContributionStatus::Submitted);
    record_contribution(&mut history, "c", 5, ContributionStatus::Failed("no".to_string()));
    assert_eq!(
        history,
        vec![
            record("a", ContributionStatus::Submitted),
            record("b", ContributionStatus::Submitted),
            record("c", ContributionStatus::Failed("no".to_string())),
        ]
    );
    confirm_contribution(&mut history);
    assert_eq!(history[1].status, ContributionStatus::Confirmed);
    assert_eq!(history[0].status, ContributionStatus::Submitted);
    confirm_contribution(&mut history);
    assert_eq!(history[0].status, ContributionStatus::Confirmed);
    let settled = history.clone();
    confirm_contribution(&mut history);
    assert_eq!(history, settled);
    let mut none: Vec<ContributionRecord> = Vec::new();
    confirm_contribution(&mut none);
    assert!(none.is_empty());
}

#[test]
fn web_apps_are_forgotten_for_another_round() {
    let mut client = Discovery::new();
    client.contract_types.insert("a".to_string(), ContractType::WebApp);
    client.contract_types.insert("b".to_string(), ContractType::Data);
    client.contract_types.insert("c".to_string(), ContractType::WebApp);
    client.contract_types.insert("d".to_string(), ContractType::Unknown);
    client.app_catalog.insert("a".to_string(), entry(Some("A")));
    client.types_checked = 4;
    assert_eq!(retrigger_contributions(&mut client), 2);
    assert_eq!(client.contract_types.len(), 2);
    assert_eq!(client.contract_types.get(&"b".to_string()), Some(&ContractType::Data));
    assert_eq!(client.contract_types.get(&"d".to_string()), Some(&ContractType::Unknown));
    assert_eq!(client.app_catalog.len(), 1);
    assert_eq!(client.types_checked, 4);
    assert_eq!(retrigger_contributions(&mut client), 0);
    // The next report queues them again.
    note_contracts(&mut client, &vec![seen("a", 1, 0), seen("b", 2, 0), seen("c", 3, 0)]);
    assert_eq!(
        client.type_check_queue,
        vec![("a".to_string(), vec![1; 32]), ("c".to_string(), vec![3; 32])]
    );
}
