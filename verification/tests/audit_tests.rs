use evm_deployment_info::audit::{
    audit, audit_deployments, render_audit_csv, render_audit_json, render_audit_tables, AuditResult,
};
use evm_deployment_info::config::{NetworkEntry, NetworkMap};
use evm_deployment_info::listing::{OutputFormat, Rendered};
use evm_deployment_info::store::{RecordContent, StoreEntry};
use evm_deployment_info::table::CellStyle;

fn dir(name: &str, record: RecordContent) -> StoreEntry {
    StoreEntry { name: name.to_string(), is_dir: true, record }
}

fn given() -> AuditResult {
    AuditResult {
        config_without_deployment: vec![
            NetworkEntry { name: "polygonAmoy".to_string(), chain_id: 80002 },
            NetworkEntry { name: "zeta".to_string(), chain_id: 7000 },
        ],
        deployment_without_config: vec![5, 42161],
    }
}

#[test]
fn audit_reports_both_sides() {
    let mut networks = NetworkMap::new();
    networks.insert("polygonMainnet".to_string(), 137);
    networks.insert("polygonAmoy".to_string(), 80002);
    networks.insert("hardhat".to_string(), 31337);
    let store = vec![
        dir("chain-137", RecordContent::Text("{\"Token\": \"0x1\"}".to_string())),
        dir("chain-31337", RecordContent::Absent),
        dir("chain-9", RecordContent::Absent),
        dir("chain-80002", RecordContent::Text("{}".to_string())),
    ];
    let (result, warnings) = audit(&networks, &store);
    assert_eq!(
        result.config_without_deployment,
        vec![NetworkEntry { name: "polygonAmoy".to_string(), chain_id: 80002 }]
    );
    assert_eq!(result.deployment_without_config, vec![9]);
    assert!(warnings.is_empty());
}

#[test]
fn audit_csv() {
    assert_eq!(
        render_audit_csv(&given()),
        "Configs Without Deployments\nNetwork,Chain ID\npolygonAmoy,80002\nzeta,7000\n\nDeployments Without Configs\nChain ID\n5\n42161\n"
    );
    let nothing = AuditResult { config_without_deployment: Vec::new(), deployment_without_config: Vec::new() };
    assert_eq!(
        render_audit_csv(&nothing),
        "Configs Without Deployments\nNetwork,Chain ID\n\nDeployments Without Configs\nChain ID\n"
    );
}

#[test]
fn audit_json() {
    let text = render_audit_json(&given()).unwrap();
    let document: serde_json::Value = serde_json::from_str(&text).unwrap();
    let expected: serde_json::Value = serde_json::from_str(
        "{\"config_without_deployment\":[{\"network\":\"polygonAmoy\",\"chain_id\":80002},{\"network\":\"zeta\",\"chain_id\":7000}],\"deployment_without_config\":[5,42161]}",
    )
    .unwrap();
    assert_eq!(document, expected);
}

#[test]
fn audit_tables() {
    let sections = render_audit_tables(&given());
    assert_eq!(sections.len(), 2);
    assert_eq!(sections[0].heading, "\nFound 2 network(s) in config without deployments:");
    let rows: Vec<Vec<(&str, CellStyle)>> = sections[0]
        .rows
        .iter()
        .map(|r| r.cells.iter().map(|c| (c.text.as_str(), c.style)).collect())
        .collect();
    assert_eq!(
        rows,
        vec![
            vec![("Network", CellStyle::Bold), ("Chain ID", CellStyle::Bold)],
            vec![("polygonAmoy", CellStyle::Plain), ("80002", CellStyle::Plain)],
            vec![("zeta", CellStyle::Plain), ("7000", CellStyle::Plain)],
        ]
    );
    assert_eq!(sections[1].heading, "\nFound 2 deployment(s) without config entries:");
    let rows: Vec<Vec<(&str, CellStyle)>> = sections[1]
        .rows
        .iter()
        .map(|r| r.cells.iter().map(|c| (c.text.as_str(), c.style)).collect())
        .collect();
    assert_eq!(
        rows,
        vec![
            vec![("Chain ID", CellStyle::Bold), ("Chain List", CellStyle::Bold)],
            vec![("5", CellStyle::Plain), ("https://chainlist.org/chain/5", CellStyle::Blue)],
            vec![("42161", CellStyle::Plain), ("https://chainlist.org/chain/42161", CellStyle::Blue)],
        ]
    );
}

#[test]
fn audit_from_configuration_to_csv() {
    let output = audit_deployments(
        "mainnet: { chainId: 1 }, sepolia: { chainId: 11155111 }",
        &vec![dir("chain-10", RecordContent::Absent), dir("chain-1", RecordContent::Text("{\"a\":\"0x1\"}".to_string()))],
        OutputFormat::Csv,
    )
    .unwrap();
    assert_eq!(
        output.rendered,
        Rendered::Text(
            "Configs Without Deployments\nNetwork,Chain ID\nsepolia,11155111\n\nDeployments Without Configs\nChain ID\n10\n"
                .to_string()
        )
    );
}
