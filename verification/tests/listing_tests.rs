use evm_deployment_info::config::ConfigError;
use evm_deployment_info::listing::{
    list_deployments, render_csv, render_json, render_tables, ListError, OutputFormat, Rendered,
};
use evm_deployment_info::reconcile::ReconciliationResult;
use evm_deployment_info::store::{RecordContent, StoreEntry};
use evm_deployment_info::table::CellStyle;

fn result(found: &[(&str, &str)], missing: &[&str]) -> ReconciliationResult {
    ReconciliationResult {
        found: found.iter().map(|(n, a)| (n.to_string(), a.to_string())).collect(),
        missing: missing.iter().map(|n| n.to_string()).collect(),
        orphaned: Vec::new(),
    }
}

fn parsed(text: &str) -> serde_json::Value {
    serde_json::from_str(text).unwrap()
}

#[test]
fn json_of_one_found_network() {
    let text = render_json(&result(&[("ethereum", "0xabc")], &[]), false).unwrap();
    assert_eq!(text, "{\"deployments\":{\"ethereum\":\"0xabc\"}}");
}

#[test]
fn json_of_nothing_is_an_empty_object() {
    assert_eq!(render_json(&result(&[], &[]), false).unwrap(), "{}");
    assert_eq!(render_json(&result(&[], &[]), true).unwrap(), "{}");
}

#[test]
fn json_flat_lists_missing_names() {
    let text = render_json(&result(&[("a", "0x1")], &["polygonAmoy", "zeta"]), false).unwrap();
    assert_eq!(
        parsed(&text),
        parsed("{\"deployments\":{\"a\":\"0x1\"},\"missing\":[\"polygonAmoy\",\"zeta\"]}")
    );
}

#[test]
fn json_aggregated_nests_by_prefix() {
    let text = render_json(
        &result(
            &[("polygonAmoy", "0x2"), ("polygonMainnet", "0x1"), ("sepolia", "0x3")],
            &["arbitrumSepolia", "arbitrumMainnet", "base"],
        ),
        true,
    )
    .unwrap();
    assert_eq!(
        parsed(&text),
        parsed(
            "{\"deployments\":{\"polygon\":{\"Mainnet\":\"0x1\",\"Amoy\":\"0x2\"},\"sepolia\":{\"Mainnet\":\"0x3\"}},\
             \"missing\":{\"arbitrum\":[\"Mainnet\",\"Sepolia\"],\"base\":[\"Mainnet\"]}}"
        )
    );
}

#[test]
fn csv_flat() {
    let text = render_csv(&result(&[("arbitrumSepolia", "0x1"), ("base", "0x2")], &["polygonAmoy", "zeta"]), false);
    assert_eq!(
        text,
        "Network,Address\nArbitrum Sepolia,0x1\nBase,0x2\n\nMissing Networks\nPolygon Amoy,Zeta,"
    );
}

#[test]
fn csv_without_missing_networks_has_no_section_for_them() {
    assert_eq!(render_csv(&result(&[("base", "0x2")], &[]), false), "Network,Address\nBase,0x2\n");
    assert_eq!(render_csv(&result(&[], &[]), false), "Network,Address\n");
    assert_eq!(render_csv(&result(&[], &[]), true), "Network,Address\n");
}

#[test]
fn csv_aggregated() {
    let text = render_csv(
        &result(
            &[("polygonAmoy", "0x2"), ("polygonMainnet", "0x1"), ("arbitrumOne", "0x3")],
            &["zetaTestnet", "zeta"],
        ),
        true,
    );
    assert_eq!(
        text,
        "Network,Address\nArbitrum One,0x3\nPolygon Mainnet,0x1\nPolygon Amoy,0x2\n\nMissing Networks\nZeta Mainnet,Zeta Testnet,"
    );
}

#[test]
fn csv_is_the_same_on_every_run() {
    let given = result(&[("b", "0x2"), ("a", "0x1"), ("cD", "0x3")], &["x"]);
    let first = render_csv(&given, false);
    for _ in 0..5 {
        assert_eq!(render_csv(&given, false), first);
    }
    let first = render_csv(&given, true);
    for _ in 0..5 {
        assert_eq!(render_csv(&given, true), first);
    }
}

#[test]
fn tables_flat() {
    let sections = render_tables(&result(&[("arbitrumSepolia", "0x1")], &["zeta", "base"]), false);
    assert_eq!(sections.len(), 2);
    assert_eq!(sections[0].heading, "Found 1 deployment(s):");
    let rows: Vec<Vec<(&str, CellStyle)>> = sections[0]
        .rows
        .iter()
        .map(|r| r.cells.iter().map(|c| (c.text.as_str(), c.style)).collect())
        .collect();
    assert_eq!(
        rows,
        vec![
            vec![("Network", CellStyle::Bold), ("Address", CellStyle::Bold)],
            vec![("Arbitrum Sepolia", CellStyle::Plain), ("0x1", CellStyle::Plain)],
        ]
    );
    assert_eq!(
        sections[1].heading,
        "\nFound the following 2 chain(s) in hardhat config without corresponding deployment(s):"
    );
    let rows: Vec<Vec<(&str, CellStyle)>> = sections[1]
        .rows
        .iter()
        .map(|r| r.cells.iter().map(|c| (c.text.as_str(), c.style)).collect())
        .collect();
    assert_eq!(
        rows,
        vec![
            vec![("Network", CellStyle::Bold)],
            vec![("Zeta", CellStyle::Plain)],
            vec![("Base", CellStyle::Plain)],
        ]
    );
}

#[test]
fn tables_aggregated() {
    let sections = render_tables(
        &result(&[("polygonAmoy", "0x2"), ("polygonMainnet", "0x1"), ("base", "0x3")], &["zetaTestnet"]),
        true,
    );
    assert_eq!(sections.len(), 2);
    assert_eq!(sections[0].heading, "Found 2 Ecosystem(s) for a total of 3 deployment(s):");
    let rows: Vec<Vec<(&str, CellStyle)>> = sections[0]
        .rows
        .iter()
        .map(|r| r.cells.iter().map(|c| (c.text.as_str(), c.style)).collect())
        .collect();
    assert_eq!(
        rows,
        vec![
            vec![("Network", CellStyle::Bold), ("Address", CellStyle::Bold)],
            vec![("Base:", CellStyle::Bold), ("", CellStyle::Plain)],
            vec![("  Mainnet", CellStyle::Plain), ("0x3", CellStyle::Plain)],
            vec![("Polygon:", CellStyle::Bold), ("", CellStyle::Plain)],
            vec![("  Mainnet", CellStyle::Plain), ("0x1", CellStyle::Plain)],
            vec![("  Amoy", CellStyle::Plain), ("0x2", CellStyle::Plain)],
        ]
    );
    let rows: Vec<Vec<(&str, CellStyle)>> = sections[1]
        .rows
        .iter()
        .map(|r| r.cells.iter().map(|c| (c.text.as_str(), c.style)).collect())
        .collect();
    assert_eq!(
        rows,
        vec![
            vec![("Network", CellStyle::Bold)],
            vec![("Zeta:", CellStyle::Bold)],
            vec![("  Testnet", CellStyle::Plain)],
        ]
    );
}

#[test]
fn tables_of_nothing() {
    assert!(render_tables(&result(&[], &[]), false).is_empty());
}

#[test]
fn listing_from_configuration_to_csv() {
    let config = "polygonMainnet: { chainId: 137 },\npolygonAmoy: { chainId: 80002 },\nhardhat: { chainId: 31337 }";
    let store = vec![StoreEntry {
        name: "chain-137".to_string(),
        is_dir: true,
        record: RecordContent::Text("{\"Token\": \"0x1\"}".to_string()),
    }];
    let output = list_deployments(config, &store, false, OutputFormat::Csv).unwrap();
    assert!(output.warnings.is_empty());
    assert_eq!(
        output.rendered,
        Rendered::Text("Network,Address\nPolygon Mainnet,0x1\n\nMissing Networks\nPolygon Amoy,".to_string())
    );
    let output = list_deployments(config, &store, true, OutputFormat::Json).unwrap();
    match output.rendered {
        Rendered::Text(text) => assert_eq!(
            parsed(&text),
            parsed("{\"deployments\":{\"polygon\":{\"Mainnet\":\"0x1\"}},\"missing\":{\"polygon\":[\"Amoy\"]}}")
        ),
        other => panic!("{:?}", other),
    }
    let output = list_deployments(config, &store, false, OutputFormat::Table).unwrap();
    assert!(matches!(output.rendered, Rendered::Tables(sections) if sections.len() == 2));
}

#[test]
fn listing_stops_at_a_configuration_that_cannot_be_read() {
    let outcome = list_deployments("a: { chainId: 99999999999999999999 }", &Vec::new(), false, OutputFormat::Csv);
    assert_eq!(
        outcome,
        Err(ListError::Config(ConfigError::Parse {
            network: "a".to_string(),
            raw_value: "99999999999999999999".to_string()
        }))
    );
}

#[test]
fn csv_does_not_depend_on_the_order_of_declaration() {
    let store = vec![
        StoreEntry {
            name: "chain-1".to_string(),
            is_dir: true,
            record: RecordContent::Text("{\"x\": \"0x1\"}".to_string()),
        },
        StoreEntry {
            name: "chain-10".to_string(),
            is_dir: true,
            record: RecordContent::Text("{\"x\": \"0xa\"}".to_string()),
        },
    ];
    let one = list_deployments("opMainnet: {chainId: 10}, mainnet: {chainId: 1}, zeta: {chainId: 7000}", &store, false, OutputFormat::Csv);
    let other = list_deployments("zeta: {chainId: 7000}, mainnet: {chainId: 1}, opMainnet: {chainId: 10}", &store, false, OutputFormat::Csv);
    assert_eq!(one, other);
    assert_eq!(
        one.unwrap().rendered,
        Rendered::Text("Network,Address\nMainnet,0x1\nOp Mainnet,0xa\n\nMissing Networks\nZeta,".to_string())
    );
}
