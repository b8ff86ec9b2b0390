use evm_deployment_info::config::{
    networks_from_captures, parse_hardhat_config, parse_networks, ConfigError, NetworkMap,
};

#[test]
fn two_blocks_give_two_networks() {
    let text = "polygonMainnet: { url: \"x\", chainId: 137 },\n  polygonAmoy: { chainId: 80002 },\n";
    let networks = parse_hardhat_config(text).unwrap();
    assert_eq!(networks.len(), 2);
    assert_eq!(networks.get("polygonMainnet"), Some(137));
    assert_eq!(networks.get("polygonAmoy"), Some(80002));
}

#[test]
fn no_block_gives_no_network() {
    let networks = parse_hardhat_config("export default {};").unwrap();
    assert_eq!(networks.len(), 0);
}

#[test]
fn last_block_of_a_name_wins() {
    let networks = parse_hardhat_config("a: { chainId: 1 }, a: { chainId: 2 }").unwrap();
    assert_eq!(networks.len(), 1);
    assert_eq!(networks.get("a"), Some(2));
}

#[test]
fn chain_id_out_of_range_is_an_error() {
    let outcome = parse_hardhat_config("big: { chainId: 18446744073709551616 }");
    assert_eq!(
        outcome,
        Err(ConfigError::Parse {
            network: "big".to_string(),
            raw_value: "18446744073709551616".to_string()
        })
    );
}

#[test]
fn insert_keeps_names_in_order() {
    let mut networks = NetworkMap::new();
    networks.insert("b".to_string(), 2);
    networks.insert("a".to_string(), 1);
    networks.insert("b".to_string(), 3);
    assert_eq!(networks.len(), 2);
    assert_eq!(networks.entry(0).name, "a");
    assert_eq!(networks.entry(1).chain_id, 3);
}

#[test]
fn enclosing_block_takes_the_chain_id_before_the_first_closing_brace() {
    let text = "networks: {\n  sepolia: { chainId: 11155111 },\n  base: { chainId: 8453 } }";
    let networks = parse_hardhat_config(text).unwrap();
    assert_eq!(networks.len(), 2);
    assert_eq!(networks.get("networks"), Some(11155111));
    assert_eq!(networks.get("base"), Some(8453));
    assert_eq!(networks.get("sepolia"), None);
}

#[test]
fn config_error_messages() {
    let error = ConfigError::Parse { network: "big".to_string(), raw_value: "1".to_string() };
    assert_eq!(error.message(), "Invalid chain ID for network big");
}

#[test]
fn names_may_hold_any_word_character() {
    let networks = parse_hardhat_config("ether_2x: {chainId:7}, größe:\n{ x: 1, chainId:\t8 }").unwrap();
    assert_eq!(networks.get("ether_2x"), Some(7));
    assert_eq!(networks.get("größe"), Some(8));
    assert_eq!(networks.len(), 2);
}

#[test]
fn a_block_without_chain_id_before_its_closing_brace_declares_nothing() {
    let networks = parse_hardhat_config("a: { url: 1 }, b: { chainId: 2 }").unwrap();
    assert_eq!(networks.len(), 1);
    assert_eq!(networks.get("b"), Some(2));
}

#[test]
fn contains_chain_id_looks_at_the_values() {
    let networks = parse_hardhat_config("a: { chainId: 1 }, b: { chainId: 2 }").unwrap();
    assert!(networks.contains_chain_id(2));
    assert!(!networks.contains_chain_id(3));
}

#[test]
fn a_pattern_that_the_matcher_does_not_take_is_an_error() {
    assert_eq!(parse_networks("(", "a: { chainId: 1 }"), Err(ConfigError::Pattern));
    assert_eq!(ConfigError::Pattern.message(), "Invalid pattern for network blocks");
}

#[test]
fn other_patterns_declare_networks_too() {
    let networks = parse_networks("(\\w+)=(\\d+)", "a=1 b=2 a=3").unwrap();
    assert_eq!(networks.len(), 2);
    assert_eq!(networks.get("a"), Some(3));
    assert_eq!(networks.get("b"), Some(2));
}

#[test]
fn matches_without_both_groups_declare_nothing() {
    let whole = Some("x".to_string());
    let captures = vec![
        vec![whole.clone(), Some("a".to_string()), Some("1".to_string())],
        vec![whole.clone(), None, Some("2".to_string())],
        vec![whole.clone(), Some("c".to_string()), None],
        vec![whole.clone(), Some("d".to_string())],
        vec![whole.clone(), Some("e".to_string()), Some("5".to_string()), None],
    ];
    let networks = networks_from_captures(&captures).unwrap();
    assert_eq!(networks.len(), 2);
    assert_eq!(networks.get("a"), Some(1));
    assert_eq!(networks.get("e"), Some(5));
}

#[test]
fn the_first_unreadable_chain_id_is_the_error() {
    let whole = Some("x".to_string());
    let captures = vec![
        vec![whole.clone(), Some("a".to_string()), Some("1".to_string())],
        vec![whole.clone(), Some("b".to_string()), Some("x2".to_string())],
        vec![whole.clone(), Some("c".to_string()), Some("".to_string())],
    ];
    assert_eq!(
        networks_from_captures(&captures),
        Err(ConfigError::Parse { network: "b".to_string(), raw_value: "x2".to_string() })
    );
}

#[test]
fn digits_of_other_scripts_are_matched_and_refused() {
    assert_eq!(
        parse_hardhat_config("a: { chainId: ٣ }"),
        Err(ConfigError::Parse { network: "a".to_string(), raw_value: "٣".to_string() })
    );
}
