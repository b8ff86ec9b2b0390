//! The audit: the declared networks without a deployment, and the stored
//! deployments without a declared network.

use crate::config::{
    config_outcome, entries_of, failure_of, NETWORK_PATTERN, NetworkEntry, NetworkMap,
    parse_hardhat_config,
};
use crate::json::{
    docs_of, error_text, insert_field, json_doc, json_fields, json_text, JsonDoc, JsonObject,
    list_value, new_object, no_fields, number_value, object_value, text_value, to_text,
};
use crate::listing::{ListError, OutputFormat, Rendered};
use crate::matching::regex_captures;
use crate::reconcile::{
    all_explained, chain_address, failing_of, find_orphans, hardhat_name, missing_of, orphans_of,
    resolve_chain, sorted_ids, StoreWarning, warned,
};
use crate::store::{DeploymentRecord, StoreEntry};
use crate::table::{
    blue, bold, cell, CellStyle, CellView, plain, row_of_two, row_views, section_views, SectionView,
    TableRow, TableSection,
};
use crate::text::{decimal_text, push_char, push_decimal, text_eq};
use vstd::prelude::*;
use vstd::string::*;

verus! {

/// The outcome of an audit.
#[derive(Debug, Clone, PartialEq, Eq)]
pub struct AuditResult {
    /// The networks without a deployment, in order of names.
    pub config_without_deployment: Vec<NetworkEntry>,
    /// The chains with a stored deployment that no network refers to, in
    /// ascending order.
    pub deployment_without_config: Vec<u64>,
}

/// What a list of networks stands for.
pub open spec fn network_views(networks: Seq<NetworkEntry>) -> Seq<(Seq<char>, u64)> {
    networks.map_values(|entry: NetworkEntry| entry@)
}

/// The networks without a deployment: every network but Hardhat's own whose
/// chain resolves to no address, in the order given.
pub open spec fn unmatched_of(entries: Seq<(Seq<char>, u64)>, store: Seq<StoreEntry>) -> Seq<
    (Seq<char>, u64),
>
    decreases entries.len(),
{
    if entries.len() == 0 {
        Seq::empty()
    } else {
        let rest = unmatched_of(entries.drop_last(), store);
        let (name, chain_id) = entries.last();
        if name != hardhat_name() && chain_address(store, chain_id) is None {
            rest.push(entries.last())
        } else {
            rest
        }
    }
}

/// The names of a list of networks.
pub open spec fn names_of(entries: Seq<(Seq<char>, u64)>) -> Seq<Seq<char>> {
    entries.map_values(|entry: (Seq<char>, u64)| entry.0)
}

/// The networks that an audit reports are the networks that a reconciliation
/// finds missing.
pub proof fn lemma_unmatched_are_missing(entries: Seq<(Seq<char>, u64)>, store: Seq<StoreEntry>)
    ensures
        names_of(unmatched_of(entries, store)) == missing_of(entries, store),
    decreases entries.len(),
{
    if entries.len() == 0 {
        assert(names_of(unmatched_of(entries, store)) =~= missing_of(entries, store));
    } else {
        let front = entries.drop_last();
        lemma_unmatched_are_missing(front, store);
        let name = entries.last().0;
        if name != hardhat_name() && chain_address(store, entries.last().1) is None {
            assert(names_of(unmatched_of(entries, store)) =~= names_of(
                unmatched_of(front, store),
            ).push(name));
        }
    }
}

/// Audits the declared networks against the store.
///
/// A record that is there and cannot be used leaves its network without
/// deployment and gives a warning; it never stops the audit.
pub fn audit(networks: &NetworkMap, store: &Vec<StoreEntry>) -> (outcome: (
    AuditResult,
    Vec<StoreWarning>,
))
    ensures
        network_views(outcome.0.config_without_deployment@) == unmatched_of(
            networks.entries(),
            store@,
        ),
        outcome.0.deployment_without_config@ == sorted_ids(
            orphans_of(store@, networks.entries()),
        ),
        warned(outcome.1@) == failing_of(networks.entries(), store@),
        all_explained(outcome.1@, store@),
{
    let ghost entries = networks.entries();
    let mut unmatched: Vec<NetworkEntry> = Vec::new();
    let mut warnings: Vec<StoreWarning> = Vec::new();
    let mut i: usize = 0;
    proof {
        reveal_strlit("hardhat");
        assert("hardhat"@ =~= hardhat_name());
        assert(network_views(unmatched@) =~= unmatched_of(entries.take(0), store@));
        assert(warned(warnings@) =~= failing_of(entries.take(0), store@));
    }
    let n = networks.len();
    while i < n
        invariant
            i <= n,
            n == entries.len(),
            entries == networks.entries(),
            "hardhat"@ == hardhat_name(),
            network_views(unmatched@) == unmatched_of(entries.take(i as int), store@),
            warned(warnings@) == failing_of(entries.take(i as int), store@),
            all_explained(warnings@, store@),
        decreases n - i,
    {
        let entry = networks.entry(i);
        proof {
            assert(entries.take(i + 1).drop_last() =~= entries.take(i as int));
            assert(entries.take(i + 1).last() == entry@);
        }
        if !text_eq(entry.name.as_str(), "hardhat") {
            let ghost old_unmatched = network_views(unmatched@);
            let ghost old_warned = warned(warnings@);
            match resolve_chain(store, entry.chain_id) {
                Ok(DeploymentRecord { chain_id: _, address: Some(_) }) => {},
                Ok(DeploymentRecord { chain_id: _, address: None }) => {
                    unmatched.push(
                        NetworkEntry { name: entry.name.clone(), chain_id: entry.chain_id },
                    );
                    proof {
                        assert(network_views(unmatched@) =~= old_unmatched.push(entry@));
                    }
                },
                Err(error) => {
                    unmatched.push(
                        NetworkEntry { name: entry.name.clone(), chain_id: entry.chain_id },
                    );
                    warnings.push(
                        StoreWarning {
                            network: entry.name.clone(),
                            chain_id: entry.chain_id,
                            error,
                        },
                    );
                    proof {
                        assert(network_views(unmatched@) =~= old_unmatched.push(entry@));
                        assert(warned(warnings@) =~= old_warned.push(entry@));
                    }
                },
            }
        }
        i += 1;
    }
    proof {
        assert(entries.take(n as int) =~= entries);
    }
    let orphaned = find_orphans(networks, store);
    (
        AuditResult { config_without_deployment: unmatched, deployment_without_config: orphaned },
        warnings,
    )
}

/// The lines of CSV for the networks without deployment: name and chain id.
pub open spec fn csv_unmatched_lines(unmatched: Seq<(Seq<char>, u64)>) -> Seq<char>
    decreases unmatched.len(),
{
    if unmatched.len() == 0 {
        Seq::empty()
    } else {
        csv_unmatched_lines(unmatched.drop_last()) + unmatched.last().0 + seq![',']
            + decimal_text(unmatched.last().1 as nat) + seq!['\n']
    }
}

/// The lines of CSV for the orphans: one chain id on each.
pub open spec fn csv_orphan_lines(orphans: Seq<u64>) -> Seq<char>
    decreases orphans.len(),
{
    if orphans.len() == 0 {
        Seq::empty()
    } else {
        csv_orphan_lines(orphans.drop_last()) + decimal_text(orphans.last() as nat) + seq!['\n']
    }
}

/// The audit as CSV: two sections, each with its title and its header.
pub open spec fn audit_csv(unmatched: Seq<(Seq<char>, u64)>, orphans: Seq<u64>) -> Seq<char> {
    "Configs Without Deployments\nNetwork,Chain ID\n"@ + csv_unmatched_lines(unmatched)
        + "\nDeployments Without Configs\nChain ID\n"@ + csv_orphan_lines(orphans)
}

/// Renders the audit as CSV.
pub fn render_audit_csv(result: &AuditResult) -> (text: String)
    ensures
        text@ == audit_csv(
            network_views(result.config_without_deployment@),
            result.deployment_without_config@,
        ),
{
    let ghost unmatched = network_views(result.config_without_deployment@);
    let ghost orphans = result.deployment_without_config@;
    let mut out = "Configs Without Deployments\nNetwork,Chain ID\n".to_owned();
    let ghost head = out@;
    let mut i: usize = 0;
    proof {
        assert(unmatched.take(0) =~= Seq::<(Seq<char>, u64)>::empty());
        assert(head + csv_unmatched_lines(unmatched.take(0)) =~= head);
    }
    while i < result.config_without_deployment.len()
        invariant
            i <= result.config_without_deployment.len(),
            unmatched == network_views(result.config_without_deployment@),
            out@ == head + csv_unmatched_lines(unmatched.take(i as int)),
        decreases result.config_without_deployment.len() - i,
    {
        let entry = &result.config_without_deployment[i];
        proof {
            assert(unmatched.take(i + 1).drop_last() =~= unmatched.take(i as int));
            assert(unmatched.take(i + 1).last() == entry@);
        }
        out.append(entry.name.as_str());
        push_char(&mut out, ',');
        push_decimal(&mut out, entry.chain_id);
        push_char(&mut out, '\n');
        proof {
            assert(out@ =~= head + csv_unmatched_lines(unmatched.take(i + 1)));
        }
        i += 1;
    }
    proof {
        assert(unmatched.take(result.config_without_deployment.len() as int) =~= unmatched);
    }
    out.append("\nDeployments Without Configs\nChain ID\n");
    let ghost middle = out@;
    let mut j: usize = 0;
    proof {
        assert(orphans.take(0) =~= Seq::<u64>::empty());
        assert(middle + csv_orphan_lines(orphans.take(0)) =~= middle);
    }
    while j < result.deployment_without_config.len()
        invariant
            j <= result.deployment_without_config.len(),
            orphans == result.deployment_without_config@,
            out@ == middle + csv_orphan_lines(orphans.take(j as int)),
        decreases result.deployment_without_config.len() - j,
    {
        proof {
            assert(orphans.take(j + 1).drop_last() =~= orphans.take(j as int));
            assert(orphans.take(j + 1).last() == orphans[j as int]);
        }
        push_decimal(&mut out, result.deployment_without_config[j]);
        push_char(&mut out, '\n');
        proof {
            assert(out@ =~= middle + csv_orphan_lines(orphans.take(j + 1)));
        }
        j += 1;
    }
    proof {
        assert(orphans.take(result.deployment_without_config.len() as int) =~= orphans);
    }
    out
}

/// The document of one network without deployment.
pub open spec fn unmatched_doc(entry: (Seq<char>, u64)) -> JsonDoc {
    JsonDoc::Object(
        no_fields().insert("network"@, JsonDoc::Text(entry.0)).insert(
            "chain_id"@,
            JsonDoc::Number(entry.1),
        ),
    )
}

/// The documents of the networks without deployment.
pub open spec fn unmatched_docs(unmatched: Seq<(Seq<char>, u64)>) -> Seq<JsonDoc>
    decreases unmatched.len(),
{
    if unmatched.len() == 0 {
        Seq::empty()
    } else {
        unmatched_docs(unmatched.drop_last()).push(unmatched_doc(unmatched.last()))
    }
}

/// Chain ids as documents.
pub open spec fn id_docs(ids: Seq<u64>) -> Seq<JsonDoc>
    decreases ids.len(),
{
    if ids.len() == 0 {
        Seq::empty()
    } else {
        id_docs(ids.drop_last()).push(JsonDoc::Number(ids.last()))
    }
}

/// The audit as a document: the networks without deployment, each with its
/// name and its chain id, and the chains without network.
pub open spec fn audit_document(unmatched: Seq<(Seq<char>, u64)>, orphans: Seq<u64>) -> Map<
    Seq<char>,
    JsonDoc,
> {
    no_fields().insert(
        "config_without_deployment"@,
        JsonDoc::List(unmatched_docs(unmatched)),
    ).insert("deployment_without_config"@, JsonDoc::List(id_docs(orphans)))
}

/// Builds the document of the audit.
pub fn build_audit_document(result: &AuditResult) -> (document: JsonObject)
    ensures
        json_fields(document) == audit_document(
            network_views(result.config_without_deployment@),
            result.deployment_without_config@,
        ),
{
    let ghost unmatched = network_views(result.config_without_deployment@);
    let ghost orphans = result.deployment_without_config@;
    let mut networks: Vec<serde_json::Value> = Vec::new();
    let mut i: usize = 0;
    proof {
        assert(unmatched.take(0) =~= Seq::<(Seq<char>, u64)>::empty());
        assert(docs_of(networks@) =~= Seq::<JsonDoc>::empty());
    }
    while i < result.config_without_deployment.len()
        invariant
            i <= result.config_without_deployment.len(),
            unmatched == network_views(result.config_without_deployment@),
            docs_of(networks@) == unmatched_docs(unmatched.take(i as int)),
        decreases result.config_without_deployment.len() - i,
    {
        let entry = &result.config_without_deployment[i];
        let ghost before = docs_of(networks@);
        proof {
            assert(unmatched.take(i + 1).drop_last() =~= unmatched.take(i as int));
            assert(unmatched.take(i + 1).last() == entry@);
        }
        let mut fields = new_object();
        insert_field(&mut fields, "network".to_owned(), text_value(entry.name.clone()));
        insert_field(&mut fields, "chain_id".to_owned(), number_value(entry.chain_id));
        let value = object_value(fields);
        networks.push(value);
        proof {
            assert(docs_of(networks@) =~= before.push(json_doc(value)));
        }
        i += 1;
    }
    proof {
        assert(unmatched.take(result.config_without_deployment.len() as int) =~= unmatched);
    }
    let mut ids: Vec<serde_json::Value> = Vec::new();
    let mut j: usize = 0;
    proof {
        assert(orphans.take(0) =~= Seq::<u64>::empty());
        assert(docs_of(ids@) =~= Seq::<JsonDoc>::empty());
    }
    while j < result.deployment_without_config.len()
        invariant
            j <= result.deployment_without_config.len(),
            orphans == result.deployment_without_config@,
            docs_of(ids@) == id_docs(orphans.take(j as int)),
        decreases result.deployment_without_config.len() - j,
    {
        let ghost before = docs_of(ids@);
        proof {
            assert(orphans.take(j + 1).drop_last() =~= orphans.take(j as int));
            assert(orphans.take(j + 1).last() == orphans[j as int]);
        }
        let value = number_value(result.deployment_without_config[j]);
        ids.push(value);
        proof {
            assert(docs_of(ids@) =~= before.push(json_doc(value)));
        }
        j += 1;
    }
    proof {
        assert(orphans.take(result.deployment_without_config.len() as int) =~= orphans);
    }
    let mut document = new_object();
    insert_field(&mut document, "config_without_deployment".to_owned(), list_value(networks));
    insert_field(&mut document, "deployment_without_config".to_owned(), list_value(ids));
    document
}

/// Renders the audit as a JSON document: the text that the writer gives for
/// the document of the audit. Where the writer gives none, the rendering
/// fails, with the writer's message.
pub fn render_audit_json(result: &AuditResult) -> (outcome: Result<String, String>)
    ensures
        match outcome {
            Ok(text) => json_text(
                audit_document(
                    network_views(result.config_without_deployment@),
                    result.deployment_without_config@,
                ),
            ) == Some(text@),
            Err(_) => json_text(
                audit_document(
                    network_views(result.config_without_deployment@),
                    result.deployment_without_config@,
                ),
            ) is None,
        },
{
    let document = build_audit_document(result);
    match to_text(&document) {
        Ok(text) => Ok(text),
        Err(error) => Err(error_text(&error)),
    }
}

/// The line above the table of the networks without deployment.
pub open spec fn unmatched_heading(count: nat) -> Seq<char> {
    "\nFound "@ + decimal_text(count) + " network(s) in config without deployments:"@
}

/// The line above the table of the orphans.
pub open spec fn orphan_heading(count: nat) -> Seq<char> {
    "\nFound "@ + decimal_text(count) + " deployment(s) without config entries:"@
}

/// Where a chain is looked up.
pub open spec fn chain_list_link(chain_id: u64) -> Seq<char> {
    "https://chainlist.org/chain/"@ + decimal_text(chain_id as nat)
}

/// The rows of the networks without deployment: name and chain id.
pub open spec fn unmatched_rows(unmatched: Seq<(Seq<char>, u64)>) -> Seq<Seq<CellView>>
    decreases unmatched.len(),
{
    if unmatched.len() == 0 {
        Seq::empty()
    } else {
        unmatched_rows(unmatched.drop_last()).push(
            seq![plain(unmatched.last().0), plain(decimal_text(unmatched.last().1 as nat))],
        )
    }
}

/// The rows of the orphans: chain id and, in blue, where to look it up.
pub open spec fn orphan_rows(orphans: Seq<u64>) -> Seq<Seq<CellView>>
    decreases orphans.len(),
{
    if orphans.len() == 0 {
        Seq::empty()
    } else {
        orphan_rows(orphans.drop_last()).push(
            seq![plain(decimal_text(orphans.last() as nat)), blue(chain_list_link(orphans.last()))],
        )
    }
}

/// The section of the networks without deployment.
pub open spec fn unmatched_section(unmatched: Seq<(Seq<char>, u64)>) -> SectionView {
    SectionView {
        heading: unmatched_heading(unmatched.len()),
        rows: seq![seq![bold("Network"@), bold("Chain ID"@)]] + unmatched_rows(unmatched),
    }
}

/// The section of the orphans.
pub open spec fn orphan_section(orphans: Seq<u64>) -> SectionView {
    SectionView {
        heading: orphan_heading(orphans.len()),
        rows: seq![seq![bold("Chain ID"@), bold("Chain List"@)]] + orphan_rows(orphans),
    }
}

/// The audit as tables: one for the networks without deployment where there
/// are any, then one for the orphans where there are any.
pub open spec fn audit_sections(unmatched: Seq<(Seq<char>, u64)>, orphans: Seq<u64>) -> Seq<
    SectionView,
> {
    (if unmatched.len() > 0 {
        seq![unmatched_section(unmatched)]
    } else {
        Seq::empty()
    }) + (if orphans.len() > 0 {
        seq![orphan_section(orphans)]
    } else {
        Seq::empty()
    })
}

fn table_of_unmatched(networks: &Vec<NetworkEntry>) -> (section: TableSection)
    ensures
        section@ == unmatched_section(network_views(networks@)),
{
    let ghost all = network_views(networks@);
    let mut heading = "\nFound ".to_owned();
    push_decimal(&mut heading, networks.len() as u64);
    heading.append(" network(s) in config without deployments:");
    proof {
        assert(heading@ =~= unmatched_heading(all.len()));
    }
    let mut rows: Vec<TableRow> = Vec::new();
    rows.push(
        row_of_two(
            cell("Network".to_owned(), CellStyle::Bold),
            cell("Chain ID".to_owned(), CellStyle::Bold),
        ),
    );
    let ghost top = row_views(rows@);
    proof {
        assert(top =~= seq![seq![bold("Network"@), bold("Chain ID"@)]]);
        assert(all.take(0) =~= Seq::<(Seq<char>, u64)>::empty());
        assert(top + unmatched_rows(all.take(0)) =~= top);
    }
    let mut i: usize = 0;
    while i < networks.len()
        invariant
            i <= networks.len(),
            all == network_views(networks@),
            row_views(rows@) == top + unmatched_rows(all.take(i as int)),
        decreases networks.len() - i,
    {
        let entry = &networks[i];
        let ghost before = row_views(rows@);
        proof {
            assert(all.take(i + 1).drop_last() =~= all.take(i as int));
            assert(all.take(i + 1).last() == entry@);
        }
        let mut id = String::new();
        push_decimal(&mut id, entry.chain_id);
        proof {
            assert(id@ =~= decimal_text(entry.chain_id as nat));
        }
        let row = row_of_two(cell(entry.name.clone(), CellStyle::Plain), cell(id, CellStyle::Plain));
        let ghost made = row@;
        rows.push(row);
        proof {
            assert(row_views(rows@) =~= before.push(made));
            assert(row_views(rows@) =~= top + unmatched_rows(all.take(i + 1)));
        }
        i += 1;
    }
    proof {
        assert(all.take(networks.len() as int) =~= all);
    }
    TableSection { heading, rows }
}

fn table_of_orphans(orphans: &Vec<u64>) -> (section: TableSection)
    ensures
        section@ == orphan_section(orphans@),
{
    let ghost all = orphans@;
    let mut heading = "\nFound ".to_owned();
    push_decimal(&mut heading, orphans.len() as u64);
    heading.append(" deployment(s) without config entries:");
    proof {
        assert(heading@ =~= orphan_heading(all.len()));
    }
    let mut rows: Vec<TableRow> = Vec::new();
    rows.push(
        row_of_two(
            cell("Chain ID".to_owned(), CellStyle::Bold),
            cell("Chain List".to_owned(), CellStyle::Bold),
        ),
    );
    let ghost top = row_views(rows@);
    proof {
        assert(top =~= seq![seq![bold("Chain ID"@), bold("Chain List"@)]]);
        assert(all.take(0) =~= Seq::<u64>::empty());
        assert(top + orphan_rows(all.take(0)) =~= top);
    }
    let mut i: usize = 0;
    while i < orphans.len()
        invariant
            i <= orphans.len(),
            all == orphans@,
            row_views(rows@) == top + orphan_rows(all.take(i as int)),
        decreases orphans.len() - i,
    {
        let chain_id = orphans[i];
        let ghost before = row_views(rows@);
        proof {
            assert(all.take(i + 1).drop_last() =~= all.take(i as int));
            assert(all.take(i + 1).last() == chain_id);
        }
        let mut id = String::new();
        push_decimal(&mut id, chain_id);
        let mut link = "https://chainlist.org/chain/".to_owned();
        push_decimal(&mut link, chain_id);
        proof {
            assert(id@ =~= decimal_text(chain_id as nat));
        }
        let row = row_of_two(cell(id, CellStyle::Plain), cell(link, CellStyle::Blue));
        let ghost made = row@;
        rows.push(row);
        proof {
            assert(row_views(rows@) =~= before.push(made));
            assert(row_views(rows@) =~= top + orphan_rows(all.take(i + 1)));
        }
        i += 1;
    }
    proof {
        assert(all.take(orphans.len() as int) =~= all);
    }
    TableSection { heading, rows }
}

/// Renders the audit as tables.
pub fn render_audit_tables(result: &AuditResult) -> (sections: Vec<TableSection>)
    ensures
        section_views(sections@) == audit_sections(
            network_views(result.config_without_deployment@),
            result.deployment_without_config@,
        ),
{
    let mut sections: Vec<TableSection> = Vec::new();
    proof {
        assert(section_views(sections@) =~= Seq::<SectionView>::empty());
    }
    if result.config_without_deployment.len() > 0 {
        let ghost before = section_views(sections@);
        let section = table_of_unmatched(&result.config_without_deployment);
        let ghost made = section@;
        sections.push(section);
        proof {
            assert(section_views(sections@) =~= before.push(made));
        }
    }
    if result.deployment_without_config.len() > 0 {
        let ghost before = section_views(sections@);
        let section = table_of_orphans(&result.deployment_without_config);
        let ghost made = section@;
        sections.push(section);
        proof {
            assert(section_views(sections@) =~= before.push(made));
        }
    }
    proof {
        assert(section_views(sections@) =~= audit_sections(
            network_views(result.config_without_deployment@),
            result.deployment_without_config@,
        ));
    }
    sections
}

/// The answer of the audit.
#[derive(Debug, Clone, PartialEq, Eq)]
pub struct AuditOutput {
    /// The records that could not be used; their networks are reported as
    /// without deployment.
    pub warnings: Vec<StoreWarning>,
    /// The audit in the form asked for.
    pub rendered: Rendered,
}

/// Whether something rendered is the given audit in the given form.
pub open spec fn renders_audit(
    rendered: Rendered,
    unmatched: Seq<(Seq<char>, u64)>,
    orphans: Seq<u64>,
    format: OutputFormat,
) -> bool {
    match format {
        OutputFormat::Csv => rendered matches Rendered::Text(text) && text@ == audit_csv(
            unmatched,
            orphans,
        ),
        OutputFormat::Json => rendered matches Rendered::Text(text) && json_text(
            audit_document(unmatched, orphans),
        ) == Some(text@),
        OutputFormat::Table => rendered matches Rendered::Tables(sections) && section_views(
            sections@,
        ) == audit_sections(unmatched, orphans),
    }
}

/// Renders an audit in the form asked for.
pub fn render_audit(result: &AuditResult, format: OutputFormat) -> (outcome: Result<
    Rendered,
    String,
>)
    ensures
        match outcome {
            Ok(rendered) => renders_audit(
                rendered,
                network_views(result.config_without_deployment@),
                result.deployment_without_config@,
                format,
            ),
            Err(_) => format == OutputFormat::Json && json_text(
                audit_document(
                    network_views(result.config_without_deployment@),
                    result.deployment_without_config@,
                ),
            ) is None,
        },
{
    match format {
        OutputFormat::Csv => Ok(Rendered::Text(render_audit_csv(result))),
        OutputFormat::Table => Ok(Rendered::Tables(render_audit_tables(result))),
        OutputFormat::Json => match render_audit_json(result) {
            Ok(text) => Ok(Rendered::Text(text)),
            Err(message) => Err(message),
        },
    }
}

/// Audits a project: reads the networks from the text of its configuration,
/// audits them against the store, and renders the networks without
/// deployment and the deployments without network in the form asked for.
///
/// A configuration that cannot be read is the only error but one: a JSON
/// document for which the writer gives no text. A record that cannot be used
/// is never an error: it comes back as a warning.
pub fn audit_deployments(content: &str, store: &Vec<StoreEntry>, format: OutputFormat) -> (outcome:
    Result<AuditOutput, ListError>)
    ensures
        match config_outcome(regex_captures(NETWORK_PATTERN@, content@)) {
            Err(failure) => outcome matches Err(ListError::Config(error)) && failure_of(error)
                == failure,
            Ok(networks) => match outcome {
                Ok(output) => {
                    &&& warned(output.warnings@) == failing_of(entries_of(networks), store@)
                    &&& all_explained(output.warnings@, store@)
                    &&& renders_audit(
                        output.rendered,
                        unmatched_of(entries_of(networks), store@),
                        sorted_ids(orphans_of(store@, entries_of(networks))),
                        format,
                    )
                },
                Err(ListError::Render(_)) => format == OutputFormat::Json && json_text(
                    audit_document(
                        unmatched_of(entries_of(networks), store@),
                        sorted_ids(orphans_of(store@, entries_of(networks))),
                    ),
                ) is None,
                Err(ListError::Config(_)) => false,
            },
        },
{
    let networks = match parse_hardhat_config(content) {
        Ok(networks) => networks,
        Err(error) => {
            return Err(ListError::Config(error));
        },
    };
    proof {
        networks.lemma_entries_determined();
    }
    let (result, warnings) = audit(&networks, store);
    match render_audit(&result, format) {
        Ok(rendered) => Ok(AuditOutput { warnings, rendered }),
        Err(message) => Err(ListError::Render(message)),
    }
}

} // verus!
