use evm_deployment_info::store::{
    chain_dir_name, chain_id_of_dir, count_deployments, get_deployment_address, select_address,
    RecordContent, StoreEntry, StoreError,
};

fn dir(name: &str, record: RecordContent) -> StoreEntry {
    StoreEntry { name: name.to_string(), is_dir: true, record }
}

#[test]
fn absent_record_gives_no_address() {
    assert_eq!(get_deployment_address("p", &RecordContent::Absent), Ok(None));
}

#[test]
fn record_gives_its_first_address() {
    let record = RecordContent::Text("{\"Lock#Lock\": \"0x1\", \"Other\": \"0x2\"}".to_string());
    assert_eq!(get_deployment_address("p", &record), Ok(Some("0x1".to_string())));
}

#[test]
fn fields_are_walked_in_order_of_keys() {
    let record = RecordContent::Text("{\"b\": \"0xb\", \"a\": \"0xa\"}".to_string());
    assert_eq!(get_deployment_address("p", &record), Ok(Some("0xa".to_string())));
}

#[test]
fn fields_that_hold_no_text_are_passed_over() {
    let record = RecordContent::Text("{\"a\": 1, \"b\": null, \"c\": \"0xc\"}".to_string());
    assert_eq!(get_deployment_address("p", &record), Ok(Some("0xc".to_string())));
}

#[test]
fn record_without_address_gives_none() {
    for text in ["{}", "[]", "\"0x1\"", "{\"a\": 1}", "null"] {
        let record = RecordContent::Text(text.to_string());
        assert_eq!(get_deployment_address("p", &record), Ok(None), "{}", text);
    }
}

#[test]
fn record_that_is_no_json_is_a_parse_error() {
    let record = RecordContent::Text("{not json".to_string());
    match get_deployment_address("chain-1/deployed_addresses.json", &record) {
        Err(StoreError::Parse { path, cause }) => {
            assert_eq!(path, "chain-1/deployed_addresses.json");
            assert!(!cause.is_empty());
        }
        other => panic!("{:?}", other),
    }
}

#[test]
fn record_that_could_not_be_read_is_a_read_error() {
    let record = RecordContent::Unreadable("permission denied".to_string());
    assert_eq!(
        get_deployment_address("p", &record),
        Err(StoreError::Read { path: "p".to_string(), cause: "permission denied".to_string() })
    );
}

#[test]
fn store_error_messages() {
    let read = StoreError::Read { path: "p".to_string(), cause: "denied".to_string() };
    assert_eq!(read.message(), "Failed to read deployed_addresses.json: denied");
    let parse = StoreError::Parse { path: "p".to_string(), cause: "eof".to_string() };
    assert_eq!(parse.message(), "Failed to parse deployed_addresses.json: eof");
}

#[test]
fn select_address_takes_the_first_address() {
    let fields = vec![
        ("a".to_string(), None),
        ("b".to_string(), Some("0xb".to_string())),
        ("c".to_string(), Some("0xc".to_string())),
    ];
    assert_eq!(select_address(&fields), Some("0xb".to_string()));
    assert_eq!(select_address(&vec![("a".to_string(), None)]), None);
    assert_eq!(select_address(&Vec::new()), None);
}

#[test]
fn count_deployments_counts_directories() {
    let store = vec![
        dir("chain-1", RecordContent::Absent),
        StoreEntry { name: "notes.txt".to_string(), is_dir: false, record: RecordContent::Absent },
        dir("anything", RecordContent::Absent),
    ];
    assert_eq!(count_deployments(&store), 2);
    assert_eq!(count_deployments(&Vec::new()), 0);
}

#[test]
fn chain_directory_names() {
    assert_eq!(chain_dir_name(137), "chain-137");
    assert_eq!(chain_dir_name(0), "chain-0");
    assert_eq!(chain_id_of_dir("chain-137"), Some(137));
    assert_eq!(chain_id_of_dir("chain-007"), Some(7));
    assert_eq!(chain_id_of_dir("chain-"), None);
    assert_eq!(chain_id_of_dir("chain"), None);
    assert_eq!(chain_id_of_dir("chain-x"), None);
    assert_eq!(chain_id_of_dir("Chain-1"), None);
    assert_eq!(chain_id_of_dir("xchain-1"), None);
    assert_eq!(chain_id_of_dir("chain-18446744073709551616"), None);
}
