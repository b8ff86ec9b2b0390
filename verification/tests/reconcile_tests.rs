use evm_deployment_info::config::{parse_hardhat_config, NetworkMap};
use evm_deployment_info::reconcile::{find_orphans, reconcile, resolve_chain};
use evm_deployment_info::store::{DeploymentRecord, RecordContent, StoreEntry, StoreError};

fn dir(name: &str, record: RecordContent) -> StoreEntry {
    StoreEntry { name: name.to_string(), is_dir: true, record }
}

fn text(record: &str) -> RecordContent {
    RecordContent::Text(record.to_string())
}

#[test]
fn polygon_with_one_record() {
    let networks =
        parse_hardhat_config("polygonMainnet: { chainId: 137 }, polygonAmoy: { chainId: 80002 }")
            .unwrap();
    let store = vec![dir("chain-137", text("{\"Token\": \"0x1\"}"))];
    let (result, warnings) = reconcile(&networks, &store);
    assert_eq!(result.found, vec![("polygonMainnet".to_string(), "0x1".to_string())]);
    assert_eq!(result.missing, vec!["polygonAmoy".to_string()]);
    assert_eq!(result.orphaned, Vec::<u64>::new());
    assert!(warnings.is_empty());
}

#[test]
fn hardhat_is_neither_found_nor_missing() {
    let mut networks = NetworkMap::new();
    networks.insert("hardhat".to_string(), 31337);
    networks.insert("localhost".to_string(), 31337);
    let with_record = vec![dir("chain-31337", text("{\"a\": \"0xa\"}"))];
    let (result, _) = reconcile(&networks, &with_record);
    assert_eq!(result.found, vec![("localhost".to_string(), "0xa".to_string())]);
    assert!(result.missing.is_empty());
    let (result, _) = reconcile(&networks, &Vec::new());
    assert!(result.found.is_empty());
    assert_eq!(result.missing, vec!["localhost".to_string()]);
}

#[test]
fn found_and_missing_are_all_networks_but_hardhat() {
    let mut networks = NetworkMap::new();
    for (name, id) in [("zeta", 7000u64), ("hardhat", 31337), ("base", 8453), ("arbitrum", 42161)] {
        networks.insert(name.to_string(), id);
    }
    let store = vec![dir("chain-8453", text("{\"a\": \"0xb\"}")), dir("chain-7000", RecordContent::Absent)];
    let (result, _) = reconcile(&networks, &store);
    assert_eq!(result.found, vec![("base".to_string(), "0xb".to_string())]);
    assert_eq!(result.missing, vec!["arbitrum".to_string(), "zeta".to_string()]);
    let mut all: Vec<String> = result.found.iter().map(|(name, _)| name.clone()).collect();
    all.extend(result.missing.iter().cloned());
    all.sort();
    assert_eq!(all, vec!["arbitrum", "base", "zeta"]);
}

#[test]
fn orphans_are_directories_that_no_network_refers_to() {
    let mut networks = NetworkMap::new();
    networks.insert("mainnet".to_string(), 1);
    let store = vec![
        dir("chain-5", RecordContent::Absent),
        dir("chain-1", text("{\"a\": \"0x1\"}")),
        dir("chain-42161", RecordContent::Absent),
        dir("chain-10", RecordContent::Absent),
        dir("other", RecordContent::Absent),
        StoreEntry { name: "chain-3".to_string(), is_dir: false, record: RecordContent::Absent },
    ];
    let (result, _) = reconcile(&networks, &store);
    assert_eq!(result.orphaned, vec![5, 10, 42161]);
}

#[test]
fn unusable_record_leaves_its_network_missing_with_a_warning() {
    let mut networks = NetworkMap::new();
    networks.insert("a".to_string(), 1);
    networks.insert("b".to_string(), 2);
    networks.insert("c".to_string(), 3);
    let store = vec![
        dir("chain-1", text("{ broken")),
        dir("chain-2", RecordContent::Unreadable("denied".to_string())),
        dir("chain-3", text("{\"x\": \"0x3\"}")),
    ];
    let (result, warnings) = reconcile(&networks, &store);
    assert_eq!(result.found, vec![("c".to_string(), "0x3".to_string())]);
    assert_eq!(result.missing, vec!["a".to_string(), "b".to_string()]);
    assert_eq!(warnings.len(), 2);
    assert_eq!(warnings[0].network, "a");
    assert!(matches!(&warnings[0].error, StoreError::Parse { path, .. } if path == "chain-1/deployed_addresses.json"));
    assert_eq!(warnings[0].chain_id, 1);
    assert_eq!(warnings[1].network, "b");
    assert_eq!(warnings[1].chain_id, 2);
    assert_eq!(
        warnings[1].error,
        StoreError::Read {
            path: "chain-2/deployed_addresses.json".to_string(),
            cause: "denied".to_string()
        }
    );
}

#[test]
fn a_chain_entry_that_is_no_directory_holds_no_record() {
    let mut networks = NetworkMap::new();
    networks.insert("a".to_string(), 1);
    let store = vec![StoreEntry {
        name: "chain-1".to_string(),
        is_dir: false,
        record: text("{\"x\": \"0x1\"}"),
    }];
    let (result, _) = reconcile(&networks, &store);
    assert!(result.found.is_empty());
    assert_eq!(result.missing, vec!["a".to_string()]);
}

#[test]
fn two_networks_of_one_chain_share_its_record() {
    let mut networks = NetworkMap::new();
    networks.insert("main".to_string(), 1);
    networks.insert("alias".to_string(), 1);
    let store = vec![dir("chain-1", text("{\"x\": \"0x1\"}"))];
    let (result, _) = reconcile(&networks, &store);
    assert_eq!(
        result.found,
        vec![("alias".to_string(), "0x1".to_string()), ("main".to_string(), "0x1".to_string())]
    );
}

#[test]
fn resolve_chain_looks_into_the_directory_of_the_chain() {
    let store = vec![
        dir("chain-13", text("{\"x\": \"0x13\"}")),
        dir("chain-137", text("{\"x\": \"0x137\"}")),
        dir("chain-5", text("oops")),
    ];
    assert_eq!(
        resolve_chain(&store, 137),
        Ok(DeploymentRecord { chain_id: 137, address: Some("0x137".to_string()) })
    );
    assert_eq!(resolve_chain(&store, 1), Ok(DeploymentRecord { chain_id: 1, address: None }));
    assert!(matches!(
        resolve_chain(&store, 5),
        Err(StoreError::Parse { path, .. }) if path == "chain-5/deployed_addresses.json"
    ));
}

#[test]
fn orphans_come_in_ascending_order_one_for_each_directory() {
    let mut networks = NetworkMap::new();
    networks.insert("a".to_string(), 2);
    let store = vec![
        dir("chain-30", RecordContent::Absent),
        dir("chain-2", RecordContent::Absent),
        dir("chain-4", RecordContent::Absent),
        dir("chain-04", RecordContent::Absent),
        dir("chain-+30", RecordContent::Absent),
    ];
    assert_eq!(find_orphans(&networks, &store), vec![4, 4, 30, 30]);
}

#[test]
fn the_order_of_declaration_does_not_matter() {
    let one = parse_hardhat_config("b: { chainId: 2 }, a: { chainId: 1 }, c: { chainId: 3 }").unwrap();
    let other = parse_hardhat_config("c: { chainId: 3 }, a: { chainId: 1 }, b: { chainId: 2 }").unwrap();
    assert_eq!(one, other);
    let store = vec![dir("chain-2", text("{\"x\": \"0x2\"}")), dir("chain-3", text("{\"x\": \"0x3\"}"))];
    assert_eq!(reconcile(&one, &store), reconcile(&other, &store));
}
