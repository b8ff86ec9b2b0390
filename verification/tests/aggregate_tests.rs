use evm_deployment_info::aggregate::{aggregate, split_name, AggregationGroup, GroupMember};

fn entry(name: &str, address: Option<&str>) -> (String, Option<String>) {
    (name.to_string(), address.map(|a| a.to_string()))
}

fn suffixes(group: &AggregationGroup) -> Vec<&str> {
    group.members.iter().map(|m| m.suffix.as_str()).collect()
}

#[test]
fn ethereum_mainnet_splits_at_its_second_capital() {
    assert_eq!(split_name("EthereumMainnet"), ("Ethereum".to_string(), "Mainnet".to_string()));
}

#[test]
fn ethereum_alone_is_the_main_network() {
    assert_eq!(split_name("Ethereum"), ("Ethereum".to_string(), "Mainnet".to_string()));
}

#[test]
fn names_split_at_the_first_inner_capital_only() {
    assert_eq!(split_name("polygonZkEvm"), ("polygon".to_string(), "ZkEvm".to_string()));
    assert_eq!(split_name("arbitrumSepolia"), ("arbitrum".to_string(), "Sepolia".to_string()));
    assert_eq!(split_name("sepolia"), ("sepolia".to_string(), "Mainnet".to_string()));
    assert_eq!(split_name("BNB"), ("B".to_string(), "NB".to_string()));
    assert_eq!(split_name(""), ("".to_string(), "Mainnet".to_string()));
    assert_eq!(split_name("X"), ("X".to_string(), "Mainnet".to_string()));
    assert_eq!(split_name("baseÉtoile"), ("base".to_string(), "Étoile".to_string()));
}

#[test]
fn mainnet_comes_first_whatever_the_order_given() {
    let one = aggregate(&vec![
        entry("polygonAmoy", Some("0x2")),
        entry("polygonZkEvm", Some("0x3")),
        entry("polygonMainnet", Some("0x1")),
    ]);
    let other = aggregate(&vec![
        entry("polygonMainnet", Some("0x1")),
        entry("polygonZkEvm", Some("0x3")),
        entry("polygonAmoy", Some("0x2")),
    ]);
    assert_eq!(one, other);
    assert_eq!(one.len(), 1);
    assert_eq!(one[0].prefix, "polygon");
    assert_eq!(suffixes(&one[0]), vec!["Mainnet", "Amoy", "ZkEvm"]);
    assert_eq!(one[0].members[0].address, Some("0x1".to_string()));
}

#[test]
fn mainnet_comes_before_suffixes_that_sort_before_it() {
    let groups = aggregate(&vec![entry("xAlpha", None), entry("xMainnet", None), entry("xLast", None)]);
    assert_eq!(suffixes(&groups[0]), vec!["Mainnet", "Alpha", "Last"]);
}

#[test]
fn groups_come_in_order_of_prefixes() {
    let groups = aggregate(&vec![
        entry("polygonAmoy", None),
        entry("arbitrumSepolia", None),
        entry("base", None),
        entry("arbitrumOne", None),
    ]);
    let prefixes: Vec<&str> = groups.iter().map(|g| g.prefix.as_str()).collect();
    assert_eq!(prefixes, vec!["arbitrum", "base", "polygon"]);
    assert_eq!(suffixes(&groups[0]), vec!["One", "Sepolia"]);
    assert_eq!(suffixes(&groups[1]), vec!["Mainnet"]);
}

#[test]
fn a_bare_name_and_its_mainnet_share_a_suffix_and_keep_their_order() {
    let groups = aggregate(&vec![entry("polygonMainnet", Some("0x1")), entry("polygon", Some("0x2"))]);
    assert_eq!(
        groups,
        vec![AggregationGroup {
            prefix: "polygon".to_string(),
            members: vec![
                GroupMember { suffix: "Mainnet".to_string(), address: Some("0x1".to_string()) },
                GroupMember { suffix: "Mainnet".to_string(), address: Some("0x2".to_string()) },
            ],
        }]
    );
}

#[test]
fn nothing_aggregates_to_nothing() {
    assert_eq!(aggregate(&Vec::new()), Vec::new());
}
