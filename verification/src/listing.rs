//! The listing of deployments: as CSV, as a JSON document, or as tables.

use crate::aggregate::{
    aggregate, aggregated, AggregationGroup, entry_views, group_views, GroupMember, GroupView,
    MemberView,
};
use crate::config::{
    config_outcome, ConfigError, entries_of, failure_of, lemma_sorted_entries_unique,
    NETWORK_PATTERN, NetworkMap, parse_hardhat_config,
};
use crate::json::{
    docs_of, error_text, insert_field, json_doc, json_fields, json_text, JsonDoc, JsonObject,
    list_value, new_object, no_fields, object_value, text_value, to_text,
};
use crate::matching::regex_captures;
use crate::reconcile::{
    all_explained, failing_of, found_of, missing_of, reconcile, ReconciliationResult, StoreWarning,
    warned,
};
use crate::store::StoreEntry;
use crate::table::{
    bold, cell, CellStyle, CellView, plain, row_of_one, row_of_two, row_views, section_views,
    SectionView, TableRow, TableSection,
};
use crate::text::{decimal_text, push_char, push_decimal};
use crate::title::{camel_to_title_case, title_case};
use vstd::prelude::*;
use vstd::string::*;

verus! {

/// The found networks as entries for aggregation: each with its address.
pub open spec fn found_entries(found: Seq<(Seq<char>, Seq<char>)>) -> Seq<
    (Seq<char>, Option<Seq<char>>),
> {
    found.map_values(|pair: (Seq<char>, Seq<char>)| (pair.0, Some(pair.1)))
}

/// The missing networks as entries for aggregation: each without address.
pub open spec fn missing_entries(missing: Seq<Seq<char>>) -> Seq<(Seq<char>, Option<Seq<char>>)> {
    missing.map_values(|name: Seq<char>| (name, None::<Seq<char>>))
}

/// The ecosystems of the found networks.
pub fn found_groups(found: &Vec<(String, String)>) -> (groups: Vec<AggregationGroup>)
    ensures
        group_views(groups@) == aggregated(found_entries(found.deep_view())),
{
    let mut entries: Vec<(String, Option<String>)> = Vec::new();
    let mut i: usize = 0;
    while i < found.len()
        invariant
            i <= found.len(),
            entry_views(entries@) == found_entries(found.deep_view().take(i as int)),
        decreases found.len() - i,
    {
        let ghost before = entry_views(entries@);
        let name = found[i].0.clone();
        let address = found[i].1.clone();
        entries.push((name, Some(address)));
        proof {
            let all = found.deep_view();
            assert(all[i as int] == (found@[i as int].0@, found@[i as int].1@));
            assert(entry_views(entries@) =~= before.push((all[i as int].0, Some(all[i as int].1))));
            assert(found_entries(all.take(i + 1)) =~= found_entries(all.take(i as int)).push(
                (all[i as int].0, Some(all[i as int].1)),
            ));
        }
        i += 1;
    }
    proof {
        assert(found.deep_view().take(found.len() as int) =~= found.deep_view());
    }
    aggregate(&entries)
}

/// The ecosystems of the missing networks.
pub fn missing_groups(missing: &Vec<String>) -> (groups: Vec<AggregationGroup>)
    ensures
        group_views(groups@) == aggregated(missing_entries(missing.deep_view())),
{
    let mut entries: Vec<(String, Option<String>)> = Vec::new();
    let mut i: usize = 0;
    while i < missing.len()
        invariant
            i <= missing.len(),
            entry_views(entries@) == missing_entries(missing.deep_view().take(i as int)),
        decreases missing.len() - i,
    {
        let ghost before = entry_views(entries@);
        let name = missing[i].clone();
        entries.push((name, None));
        proof {
            let all = missing.deep_view();
            assert(all[i as int] == missing@[i as int]@);
            assert(entry_views(entries@) =~= before.push((all[i as int], None::<Seq<char>>)));
            assert(missing_entries(all.take(i + 1)) =~= missing_entries(all.take(i as int)).push(
                (all[i as int], None::<Seq<char>>),
            ));
        }
        i += 1;
    }
    proof {
        assert(missing.deep_view().take(missing.len() as int) =~= missing.deep_view());
    }
    aggregate(&entries)
}

/// One line of CSV for a found network: its name in Title Case and its
/// address.
pub open spec fn csv_line(name: Seq<char>, address: Seq<char>) -> Seq<char> {
    title_case(name) + seq![','] + address + seq!['\n']
}

/// The lines of CSV for the found networks.
pub open spec fn csv_found_lines(found: Seq<(Seq<char>, Seq<char>)>) -> Seq<char>
    decreases found.len(),
{
    if found.len() == 0 {
        Seq::empty()
    } else {
        csv_found_lines(found.drop_last()) + csv_line(found.last().0, found.last().1)
    }
}

/// The cells of CSV for the missing networks: each name in Title Case with a
/// comma behind it, all on one line.
pub open spec fn csv_missing_cells(missing: Seq<Seq<char>>) -> Seq<char>
    decreases missing.len(),
{
    if missing.len() == 0 {
        Seq::empty()
    } else {
        csv_missing_cells(missing.drop_last()) + title_case(missing.last()) + seq![',']
    }
}

/// How a network is called within its ecosystem: prefix and suffix in Title
/// Case, with a space between them.
pub open spec fn group_label(prefix: Seq<char>, suffix: Seq<char>) -> Seq<char> {
    title_case(prefix) + seq![' '] + title_case(suffix)
}

/// What CSV holds for one member of a group: its label and a comma, and for
/// a member with an address the address and the end of the line.
pub open spec fn csv_member(prefix: Seq<char>, member: MemberView) -> Seq<char> {
    group_label(prefix, member.suffix) + seq![','] + match member.address {
        Some(address) => address + seq!['\n'],
        None => Seq::empty(),
    }
}

/// What CSV holds for the members of a group, in their order.
pub open spec fn csv_members(prefix: Seq<char>, members: Seq<MemberView>) -> Seq<char>
    decreases members.len(),
{
    if members.len() == 0 {
        Seq::empty()
    } else {
        csv_members(prefix, members.drop_last()) + csv_member(prefix, members.last())
    }
}

/// What CSV holds for groups, in their order.
pub open spec fn csv_groups(groups: Seq<GroupView>) -> Seq<char>
    decreases groups.len(),
{
    if groups.len() == 0 {
        Seq::empty()
    } else {
        csv_groups(groups.drop_last()) + csv_members(groups.last().prefix, groups.last().members)
    }
}

/// The listing as CSV: the header, the found networks, and where networks
/// are missing a section for them. With `aggregate` the networks come by
/// ecosystem and are called by their labels.
pub open spec fn list_csv(
    found: Seq<(Seq<char>, Seq<char>)>,
    missing: Seq<Seq<char>>,
    aggregate: bool,
) -> Seq<char> {
    "Network,Address\n"@ + (if aggregate {
        csv_groups(aggregated(found_entries(found)))
    } else {
        csv_found_lines(found)
    }) + (if missing.len() == 0 {
        Seq::empty()
    } else {
        "\nMissing Networks\n"@ + (if aggregate {
            csv_groups(aggregated(missing_entries(missing)))
        } else {
            csv_missing_cells(missing)
        })
    })
}

fn push_csv_groups(out: &mut String, groups: &Vec<AggregationGroup>)
    ensures
        final(out)@ == old(out)@ + csv_groups(group_views(groups@)),
{
    let ghost base = out@;
    let ghost all = group_views(groups@);
    let mut g: usize = 0;
    proof {
        assert(all.take(0) =~= Seq::<GroupView>::empty());
        assert(base + csv_groups(all.take(0)) =~= base);
    }
    while g < groups.len()
        invariant
            g <= groups.len(),
            all == group_views(groups@),
            out@ == base + csv_groups(all.take(g as int)),
        decreases groups.len() - g,
    {
        let group = &groups[g];
        let ghost start = out@;
        let ghost members = group@.members;
        let prefix_title = camel_to_title_case(group.prefix.as_str());
        let mut m: usize = 0;
        proof {
            assert(all.take(g + 1).drop_last() =~= all.take(g as int));
            assert(all.take(g + 1).last() == group@);
            assert(members.take(0) =~= Seq::<MemberView>::empty());
            assert(start + csv_members(group@.prefix, members.take(0)) =~= start);
        }
        while m < group.members.len()
            invariant
                m <= group.members.len(),
                members == group@.members,
                prefix_title@ == title_case(group@.prefix),
                out@ == start + csv_members(group@.prefix, members.take(m as int)),
            decreases group.members.len() - m,
        {
            let member = &group.members[m];
            let ghost before = out@;
            proof {
                assert(members.take(m + 1).drop_last() =~= members.take(m as int));
                assert(members.take(m + 1).last() == member@);
            }
            out.append(prefix_title.as_str());
            push_char(out, ' ');
            let suffix_title = camel_to_title_case(member.suffix.as_str());
            out.append(suffix_title.as_str());
            push_char(out, ',');
            match &member.address {
                Some(address) => {
                    out.append(address.as_str());
                    push_char(out, '\n');
                },
                None => {},
            }
            proof {
                assert(out@ =~= before + csv_member(group@.prefix, member@));
                assert(out@ =~= start + csv_members(group@.prefix, members.take(m + 1)));
            }
            m += 1;
        }
        proof {
            assert(members.take(group.members.len() as int) =~= members);
            assert(out@ =~= base + csv_groups(all.take(g + 1)));
        }
        g += 1;
    }
    proof {
        assert(all.take(groups.len() as int) =~= all);
    }
}

/// Renders the listing as CSV.
pub fn render_csv(result: &ReconciliationResult, aggregate: bool) -> (text: String)
    ensures
        text@ == list_csv(result.found.deep_view(), result.missing.deep_view(), aggregate),
{
    let ghost found = result.found.deep_view();
    let ghost missing = result.missing.deep_view();
    let mut out = "Network,Address\n".to_owned();
    let ghost header = out@;
    if aggregate {
        let groups = found_groups(&result.found);
        push_csv_groups(&mut out, &groups);
    } else {
        let mut i: usize = 0;
        proof {
            assert(found.take(0) =~= Seq::<(Seq<char>, Seq<char>)>::empty());
            assert(header + csv_found_lines(found.take(0)) =~= header);
        }
        while i < result.found.len()
            invariant
                i <= result.found.len(),
                found == result.found.deep_view(),
                out@ == header + csv_found_lines(found.take(i as int)),
            decreases result.found.len() - i,
        {
            let ghost before = out@;
            proof {
                assert(found.take(i + 1).drop_last() =~= found.take(i as int));
                assert(found.take(i + 1).last() == found[i as int]);
                assert(found[i as int] == (result.found@[i as int].0@, result.found@[i as int].1@));
            }
            let title = camel_to_title_case(result.found[i].0.as_str());
            out.append(title.as_str());
            push_char(&mut out, ',');
            out.append(result.found[i].1.as_str());
            push_char(&mut out, '\n');
            proof {
                assert(out@ =~= before + csv_line(found[i as int].0, found[i as int].1));
                assert(out@ =~= header + csv_found_lines(found.take(i + 1)));
            }
            i += 1;
        }
        proof {
            assert(found.take(result.found.len() as int) =~= found);
        }
    }
    let ghost first = out@;
    if result.missing.len() > 0 {
        out.append("\nMissing Networks\n");
        let ghost titled = out@;
        if aggregate {
            let groups = missing_groups(&result.missing);
            push_csv_groups(&mut out, &groups);
        } else {
            let mut i: usize = 0;
            proof {
                assert(missing.take(0) =~= Seq::<Seq<char>>::empty());
                assert(titled + csv_missing_cells(missing.take(0)) =~= titled);
            }
            while i < result.missing.len()
                invariant
                    i <= result.missing.len(),
                    missing == result.missing.deep_view(),
                    out@ == titled + csv_missing_cells(missing.take(i as int)),
                decreases result.missing.len() - i,
            {
                let ghost before = out@;
                proof {
                    assert(missing.take(i + 1).drop_last() =~= missing.take(i as int));
                    assert(missing.take(i + 1).last() == missing[i as int]);
                    assert(missing[i as int] == result.missing@[i as int]@);
                }
                let title = camel_to_title_case(result.missing[i].as_str());
                out.append(title.as_str());
                push_char(&mut out, ',');
                proof {
                    assert(out@ =~= titled + csv_missing_cells(missing.take(i + 1)));
                }
                i += 1;
            }
            proof {
                assert(missing.take(result.missing.len() as int) =~= missing);
            }
        }
        proof {
            let section = if aggregate {
                csv_groups(aggregated(missing_entries(missing)))
            } else {
                csv_missing_cells(missing)
            };
            assert(out@ =~= first + ("\nMissing Networks\n"@ + section));
        }
    } else {
        proof {
            assert(out@ =~= first + Seq::<char>::empty());
        }
    }
    out
}

/// The object that holds each found network's address under its name. Of
/// two networks with one name the later decides.
pub open spec fn flat_deployments(found: Seq<(Seq<char>, Seq<char>)>) -> Map<Seq<char>, JsonDoc>
    decreases found.len(),
{
    if found.len() == 0 {
        no_fields()
    } else {
        flat_deployments(found.drop_last()).insert(found.last().0, JsonDoc::Text(found.last().1))
    }
}

/// The object that holds the address of each member of a group under its
/// suffix. A member without address adds nothing, and of two members with
/// one suffix the later decides.
pub open spec fn member_fields(members: Seq<MemberView>) -> Map<Seq<char>, JsonDoc>
    decreases members.len(),
{
    if members.len() == 0 {
        no_fields()
    } else {
        let rest = member_fields(members.drop_last());
        match members.last().address {
            Some(address) => rest.insert(members.last().suffix, JsonDoc::Text(address)),
            None => rest,
        }
    }
}

/// The object that holds, under the prefix of each group, the object of the
/// group's members.
pub open spec fn nested_deployments(groups: Seq<GroupView>) -> Map<Seq<char>, JsonDoc>
    decreases groups.len(),
{
    if groups.len() == 0 {
        no_fields()
    } else {
        nested_deployments(groups.drop_last()).insert(
            groups.last().prefix,
            JsonDoc::Object(member_fields(groups.last().members)),
        )
    }
}

/// The texts of a list of names, as documents.
pub open spec fn name_docs(names: Seq<Seq<char>>) -> Seq<JsonDoc>
    decreases names.len(),
{
    if names.len() == 0 {
        Seq::empty()
    } else {
        name_docs(names.drop_last()).push(JsonDoc::Text(names.last()))
    }
}

/// The suffixes of the members of a group, as documents.
pub open spec fn suffix_docs(members: Seq<MemberView>) -> Seq<JsonDoc>
    decreases members.len(),
{
    if members.len() == 0 {
        Seq::empty()
    } else {
        suffix_docs(members.drop_last()).push(JsonDoc::Text(members.last().suffix))
    }
}

/// The object that holds, under the prefix of each group, the list of the
/// suffixes of the group's members.
pub open spec fn nested_missing(groups: Seq<GroupView>) -> Map<Seq<char>, JsonDoc>
    decreases groups.len(),
{
    if groups.len() == 0 {
        no_fields()
    } else {
        nested_missing(groups.drop_last()).insert(
            groups.last().prefix,
            JsonDoc::List(suffix_docs(groups.last().members)),
        )
    }
}

/// What the document says of the found networks.
pub open spec fn deployments_doc(found: Seq<(Seq<char>, Seq<char>)>, aggregate: bool) -> JsonDoc {
    if aggregate {
        JsonDoc::Object(nested_deployments(aggregated(found_entries(found))))
    } else {
        JsonDoc::Object(flat_deployments(found))
    }
}

/// What the document says of the missing networks.
pub open spec fn missing_doc(missing: Seq<Seq<char>>, aggregate: bool) -> JsonDoc {
    if aggregate {
        JsonDoc::Object(nested_missing(aggregated(missing_entries(missing))))
    } else {
        JsonDoc::List(name_docs(missing))
    }
}

/// The listing as a document: `deployments` where networks were found, and
/// `missing` where networks are missing.
pub open spec fn list_document(
    found: Seq<(Seq<char>, Seq<char>)>,
    missing: Seq<Seq<char>>,
    aggregate: bool,
) -> Map<Seq<char>, JsonDoc> {
    let first = if found.len() > 0 {
        no_fields().insert("deployments"@, deployments_doc(found, aggregate))
    } else {
        no_fields()
    };
    if missing.len() > 0 {
        first.insert("missing"@, missing_doc(missing, aggregate))
    } else {
        first
    }
}

fn flat_object(found: &Vec<(String, String)>) -> (object: JsonObject)
    ensures
        json_fields(object) == flat_deployments(found.deep_view()),
{
    let ghost all = found.deep_view();
    let mut object = new_object();
    let mut i: usize = 0;
    proof {
        assert(all.take(0) =~= Seq::<(Seq<char>, Seq<char>)>::empty());
    }
    while i < found.len()
        invariant
            i <= found.len(),
            all == found.deep_view(),
            json_fields(object) == flat_deployments(all.take(i as int)),
        decreases found.len() - i,
    {
        proof {
            assert(all.take(i + 1).drop_last() =~= all.take(i as int));
            assert(all.take(i + 1).last() == all[i as int]);
            assert(all[i as int] == (found@[i as int].0@, found@[i as int].1@));
        }
        insert_field(&mut object, found[i].0.clone(), text_value(found[i].1.clone()));
        i += 1;
    }
    proof {
        assert(all.take(found.len() as int) =~= all);
    }
    object
}

fn member_object(members: &Vec<GroupMember>) -> (object: JsonObject)
    ensures
        json_fields(object) == member_fields(members@.map_values(|m: GroupMember| m@)),
{
    let ghost all = members@.map_values(|m: GroupMember| m@);
    let mut object = new_object();
    let mut i: usize = 0;
    proof {
        assert(all.take(0) =~= Seq::<MemberView>::empty());
    }
    while i < members.len()
        invariant
            i <= members.len(),
            all == members@.map_values(|m: GroupMember| m@),
            json_fields(object) == member_fields(all.take(i as int)),
        decreases members.len() - i,
    {
        proof {
            assert(all.take(i + 1).drop_last() =~= all.take(i as int));
            assert(all.take(i + 1).last() == members@[i as int]@);
        }
        match &members[i].address {
            Some(address) => {
                insert_field(&mut object, members[i].suffix.clone(), text_value(address.clone()));
            },
            None => {},
        }
        i += 1;
    }
    proof {
        assert(all.take(members.len() as int) =~= all);
    }
    object
}

fn nested_object(groups: &Vec<AggregationGroup>) -> (object: JsonObject)
    ensures
        json_fields(object) == nested_deployments(group_views(groups@)),
{
    let ghost all = group_views(groups@);
    let mut object = new_object();
    let mut i: usize = 0;
    proof {
        assert(all.take(0) =~= Seq::<GroupView>::empty());
    }
    while i < groups.len()
        invariant
            i <= groups.len(),
            all == group_views(groups@),
            json_fields(object) == nested_deployments(all.take(i as int)),
        decreases groups.len() - i,
    {
        proof {
            assert(all.take(i + 1).drop_last() =~= all.take(i as int));
            assert(all.take(i + 1).last() == groups@[i as int]@);
        }
        let inner = member_object(&groups[i].members);
        insert_field(&mut object, groups[i].prefix.clone(), object_value(inner));
        i += 1;
    }
    proof {
        assert(all.take(groups.len() as int) =~= all);
    }
    object
}

fn name_list(names: &Vec<String>) -> (items: Vec<serde_json::Value>)
    ensures
        docs_of(items@) == name_docs(names.deep_view()),
{
    let ghost all = names.deep_view();
    let mut items: Vec<serde_json::Value> = Vec::new();
    let mut i: usize = 0;
    proof {
        assert(all.take(0) =~= Seq::<Seq<char>>::empty());
        assert(docs_of(items@) =~= Seq::<JsonDoc>::empty());
    }
    while i < names.len()
        invariant
            i <= names.len(),
            all == names.deep_view(),
            docs_of(items@) == name_docs(all.take(i as int)),
        decreases names.len() - i,
    {
        let ghost before = docs_of(items@);
        proof {
            assert(all.take(i + 1).drop_last() =~= all.take(i as int));
            assert(all.take(i + 1).last() == names@[i as int]@);
        }
        let value = text_value(names[i].clone());
        items.push(value);
        proof {
            assert(docs_of(items@) =~= before.push(json_doc(value)));
        }
        i += 1;
    }
    proof {
        assert(all.take(names.len() as int) =~= all);
    }
    items
}

fn suffix_list(members: &Vec<GroupMember>) -> (items: Vec<serde_json::Value>)
    ensures
        docs_of(items@) == suffix_docs(members@.map_values(|m: GroupMember| m@)),
{
    let ghost all = members@.map_values(|m: GroupMember| m@);
    let mut items: Vec<serde_json::Value> = Vec::new();
    let mut i: usize = 0;
    proof {
        assert(all.take(0) =~= Seq::<MemberView>::empty());
        assert(docs_of(items@) =~= Seq::<JsonDoc>::empty());
    }
    while i < members.len()
        invariant
            i <= members.len(),
            all == members@.map_values(|m: GroupMember| m@),
            docs_of(items@) == suffix_docs(all.take(i as int)),
        decreases members.len() - i,
    {
        let ghost before = docs_of(items@);
        proof {
            assert(all.take(i + 1).drop_last() =~= all.take(i as int));
            assert(all.take(i + 1).last() == members@[i as int]@);
        }
        let value = text_value(members[i].suffix.clone());
        items.push(value);
        proof {
            assert(docs_of(items@) =~= before.push(json_doc(value)));
        }
        i += 1;
    }
    proof {
        assert(all.take(members.len() as int) =~= all);
    }
    items
}

fn missing_object(groups: &Vec<AggregationGroup>) -> (object: JsonObject)
    ensures
        json_fields(object) == nested_missing(group_views(groups@)),
{
    let ghost all = group_views(groups@);
    let mut object = new_object();
    let mut i: usize = 0;
    proof {
        assert(all.take(0) =~= Seq::<GroupView>::empty());
    }
    while i < groups.len()
        invariant
            i <= groups.len(),
            all == group_views(groups@),
            json_fields(object) == nested_missing(all.take(i as int)),
        decreases groups.len() - i,
    {
        proof {
            assert(all.take(i + 1).drop_last() =~= all.take(i as int));
            assert(all.take(i + 1).last() == groups@[i as int]@);
        }
        let items = suffix_list(&groups[i].members);
        insert_field(&mut object, groups[i].prefix.clone(), list_value(items));
        i += 1;
    }
    proof {
        assert(all.take(groups.len() as int) =~= all);
    }
    object
}

/// Builds the document of the listing.
pub fn build_document(result: &ReconciliationResult, aggregate: bool) -> (document: JsonObject)
    ensures
        json_fields(document) == list_document(
            result.found.deep_view(),
            result.missing.deep_view(),
            aggregate,
        ),
{
    let mut document = new_object();
    if result.found.len() > 0 {
        let deployments = if aggregate {
            let groups = found_groups(&result.found);
            nested_object(&groups)
        } else {
            flat_object(&result.found)
        };
        insert_field(&mut document, "deployments".to_owned(), object_value(deployments));
    }
    if result.missing.len() > 0 {
        let missing = if aggregate {
            let groups = missing_groups(&result.missing);
            object_value(missing_object(&groups))
        } else {
            list_value(name_list(&result.missing))
        };
        insert_field(&mut document, "missing".to_owned(), missing);
    }
    document
}

/// Renders the listing as a JSON document: the text that the writer gives
/// for the document of the listing. Where the writer gives none, the
/// rendering fails, with the writer's message.
pub fn render_json(result: &ReconciliationResult, aggregate: bool) -> (outcome: Result<
    String,
    String,
>)
    ensures
        match outcome {
            Ok(text) => json_text(
                list_document(result.found.deep_view(), result.missing.deep_view(), aggregate),
            ) == Some(text@),
            Err(_) => json_text(
                list_document(result.found.deep_view(), result.missing.deep_view(), aggregate),
            ) is None,
        },
{
    let document = build_document(result, aggregate);
    match to_text(&document) {
        Ok(text) => Ok(text),
        Err(error) => Err(error_text(&error)),
    }
}

/// The line above the table of the found networks.
pub open spec fn found_heading(found: nat) -> Seq<char> {
    "Found "@ + decimal_text(found) + " deployment(s):"@
}

/// The line above the table of the found networks by ecosystem.
pub open spec fn ecosystems_heading(ecosystems: nat, found: nat) -> Seq<char> {
    "Found "@ + decimal_text(ecosystems) + " Ecosystem(s) for a total of "@ + decimal_text(found)
        + " deployment(s):"@
}

/// The line above the table of the missing networks.
pub open spec fn missing_heading(missing: nat) -> Seq<char> {
    "\nFound the following "@ + decimal_text(missing)
        + " chain(s) in hardhat config without corresponding deployment(s):"@
}

/// The header of a table: `Network`, and `Address` for a table of two
/// columns.
pub open spec fn header_row(with_address: bool) -> Seq<CellView> {
    if with_address {
        seq![bold("Network"@), bold("Address"@)]
    } else {
        seq![bold("Network"@)]
    }
}

/// The row of a network outside any group: its name in Title Case and, in a
/// table of two columns, its address.
pub open spec fn network_row(name: Seq<char>, address: Option<Seq<char>>) -> Seq<CellView> {
    match address {
        Some(address) => seq![plain(title_case(name)), plain(address)],
        None => seq![plain(title_case(name))],
    }
}

/// The rows of the found networks.
pub open spec fn found_rows(found: Seq<(Seq<char>, Seq<char>)>) -> Seq<Seq<CellView>>
    decreases found.len(),
{
    if found.len() == 0 {
        Seq::empty()
    } else {
        found_rows(found.drop_last()).push(network_row(found.last().0, Some(found.last().1)))
    }
}

/// The rows of the missing networks.
pub open spec fn missing_rows(missing: Seq<Seq<char>>) -> Seq<Seq<CellView>>
    decreases missing.len(),
{
    if missing.len() == 0 {
        Seq::empty()
    } else {
        missing_rows(missing.drop_last()).push(network_row(missing.last(), None))
    }
}

/// The row that opens a group: its prefix in Title Case with a colon, in
/// bold, and in a table of two columns an empty cell.
pub open spec fn group_row(prefix: Seq<char>, with_address: bool) -> Seq<CellView> {
    if with_address {
        seq![bold(title_case(prefix) + seq![':']), plain(Seq::empty())]
    } else {
        seq![bold(title_case(prefix) + seq![':'])]
    }
}

/// The row of a member of a group: its suffix in Title Case behind two
/// spaces and, in a table of two columns, its address.
pub open spec fn member_row(member: MemberView, with_address: bool) -> Seq<CellView> {
    if with_address {
        seq![
            plain(seq![' ', ' '] + title_case(member.suffix)),
            plain(
                match member.address {
                    Some(address) => address,
                    None => Seq::empty(),
                },
            ),
        ]
    } else {
        seq![plain(seq![' ', ' '] + title_case(member.suffix))]
    }
}

/// The rows of the members of a group.
pub open spec fn member_rows(members: Seq<MemberView>, with_address: bool) -> Seq<Seq<CellView>>
    decreases members.len(),
{
    if members.len() == 0 {
        Seq::empty()
    } else {
        member_rows(members.drop_last(), with_address).push(
            member_row(members.last(), with_address),
        )
    }
}

/// The rows of groups: for each group the row that opens it and the rows of
/// its members.
pub open spec fn group_rows(groups: Seq<GroupView>, with_address: bool) -> Seq<Seq<CellView>>
    decreases groups.len(),
{
    if groups.len() == 0 {
        Seq::empty()
    } else {
        group_rows(groups.drop_last(), with_address).push(
            group_row(groups.last().prefix, with_address),
        ) + member_rows(groups.last().members, with_address)
    }
}

/// The section of the found networks.
pub open spec fn found_section(found: Seq<(Seq<char>, Seq<char>)>, aggregate: bool) -> SectionView {
    if aggregate {
        let groups = aggregated(found_entries(found));
        SectionView {
            heading: ecosystems_heading(groups.len(), found.len()),
            rows: seq![header_row(true)] + group_rows(groups, true),
        }
    } else {
        SectionView {
            heading: found_heading(found.len()),
            rows: seq![header_row(true)] + found_rows(found),
        }
    }
}

/// The section of the missing networks.
pub open spec fn missing_section(missing: Seq<Seq<char>>, aggregate: bool) -> SectionView {
    SectionView {
        heading: missing_heading(missing.len()),
        rows: seq![header_row(false)] + if aggregate {
            group_rows(aggregated(missing_entries(missing)), false)
        } else {
            missing_rows(missing)
        },
    }
}

/// The listing as tables: one for the found networks where there are any,
/// then one for the missing networks where there are any.
pub open spec fn list_sections(
    found: Seq<(Seq<char>, Seq<char>)>,
    missing: Seq<Seq<char>>,
    aggregate: bool,
) -> Seq<SectionView> {
    (if found.len() > 0 {
        seq![found_section(found, aggregate)]
    } else {
        Seq::empty()
    }) + (if missing.len() > 0 {
        seq![missing_section(missing, aggregate)]
    } else {
        Seq::empty()
    })
}

fn make_header(with_address: bool) -> (row: TableRow)
    ensures
        row@ == header_row(with_address),
{
    if with_address {
        row_of_two(
            cell("Network".to_owned(), CellStyle::Bold),
            cell("Address".to_owned(), CellStyle::Bold),
        )
    } else {
        row_of_one(cell("Network".to_owned(), CellStyle::Bold))
    }
}

fn push_group_rows(rows: &mut Vec<TableRow>, groups: &Vec<AggregationGroup>, with_address: bool)
    ensures
        row_views(final(rows)@) == row_views(old(rows)@) + group_rows(
            group_views(groups@),
            with_address,
        ),
{
    let ghost base = row_views(rows@);
    let ghost all = group_views(groups@);
    let mut g: usize = 0;
    proof {
        assert(all.take(0) =~= Seq::<GroupView>::empty());
        assert(base + group_rows(all.take(0), with_address) =~= base);
    }
    while g < groups.len()
        invariant
            g <= groups.len(),
            all == group_views(groups@),
            row_views(rows@) == base + group_rows(all.take(g as int), with_address),
        decreases groups.len() - g,
    {
        let group = &groups[g];
        let ghost before = row_views(rows@);
        let ghost members = group@.members;
        proof {
            assert(all.take(g + 1).drop_last() =~= all.take(g as int));
            assert(all.take(g + 1).last() == group@);
        }
        let mut head = camel_to_title_case(group.prefix.as_str());
        push_char(&mut head, ':');
        proof {
            assert(head@ =~= title_case(group@.prefix) + seq![':']);
        }
        let opening = if with_address {
            row_of_two(cell(head, CellStyle::Bold), cell(String::new(), CellStyle::Plain))
        } else {
            row_of_one(cell(head, CellStyle::Bold))
        };
        proof {
            assert(opening@ =~= group_row(group@.prefix, with_address));
        }
        rows.push(opening);
        let ghost start = row_views(rows@);
        proof {
            assert(start =~= before.push(group_row(group@.prefix, with_address)));
            assert(members.take(0) =~= Seq::<MemberView>::empty());
            assert(start + member_rows(members.take(0), with_address) =~= start);
        }
        let mut m: usize = 0;
        while m < group.members.len()
            invariant
                m <= group.members.len(),
                members == group@.members,
                row_views(rows@) == start + member_rows(members.take(m as int), with_address),
            decreases group.members.len() - m,
        {
            let member = &group.members[m];
            let ghost so_far = row_views(rows@);
            proof {
                assert(members.take(m + 1).drop_last() =~= members.take(m as int));
                assert(members.take(m + 1).last() == member@);
            }
            let mut label = "  ".to_owned();
            proof {
                reveal_strlit("  ");
                assert("  "@ =~= seq![' ', ' ']);
            }
            let title = camel_to_title_case(member.suffix.as_str());
            label.append(title.as_str());
            let row = if with_address {
                let address = match &member.address {
                    Some(address) => address.clone(),
                    None => String::new(),
                };
                row_of_two(cell(label, CellStyle::Plain), cell(address, CellStyle::Plain))
            } else {
                row_of_one(cell(label, CellStyle::Plain))
            };
            proof {
                assert(row@ =~= member_row(member@, with_address));
            }
            rows.push(row);
            proof {
                assert(row_views(rows@) =~= so_far.push(member_row(member@, with_address)));
                assert(row_views(rows@) =~= start + member_rows(
                    members.take(m + 1),
                    with_address,
                ));
            }
            m += 1;
        }
        proof {
            assert(members.take(group.members.len() as int) =~= members);
            assert(row_views(rows@) =~= base + group_rows(all.take(g + 1), with_address));
        }
        g += 1;
    }
    proof {
        assert(all.take(groups.len() as int) =~= all);
    }
}

fn table_of_found(found: &Vec<(String, String)>, aggregate: bool) -> (section: TableSection)
    ensures
        section@ == found_section(found.deep_view(), aggregate),
{
    let ghost all = found.deep_view();
    let mut rows: Vec<TableRow> = Vec::new();
    rows.push(make_header(true));
    let ghost top = row_views(rows@);
    proof {
        assert(top =~= seq![header_row(true)]);
    }
    let mut heading = "Found ".to_owned();
    if aggregate {
        let groups = found_groups(found);
        push_decimal(&mut heading, groups.len() as u64);
        heading.append(" Ecosystem(s) for a total of ");
        push_decimal(&mut heading, found.len() as u64);
        heading.append(" deployment(s):");
        push_group_rows(&mut rows, &groups, true);
        proof {
            assert(group_views(groups@).len() == groups.len());
            assert(heading@ =~= ecosystems_heading(groups.len() as nat, all.len()));
        }
    } else {
        push_decimal(&mut heading, found.len() as u64);
        heading.append(" deployment(s):");
        proof {
            assert(heading@ =~= found_heading(all.len()));
            assert(all.take(0) =~= Seq::<(Seq<char>, Seq<char>)>::empty());
            assert(top + found_rows(all.take(0)) =~= top);
        }
        let mut i: usize = 0;
        while i < found.len()
            invariant
                i <= found.len(),
                all == found.deep_view(),
                row_views(rows@) == top + found_rows(all.take(i as int)),
            decreases found.len() - i,
        {
            let ghost before = row_views(rows@);
            proof {
                assert(all.take(i + 1).drop_last() =~= all.take(i as int));
                assert(all.take(i + 1).last() == all[i as int]);
                assert(all[i as int] == (found@[i as int].0@, found@[i as int].1@));
            }
            let title = camel_to_title_case(found[i].0.as_str());
            let row = row_of_two(
                cell(title, CellStyle::Plain),
                cell(found[i].1.clone(), CellStyle::Plain),
            );
            proof {
                assert(row@ =~= network_row(all[i as int].0, Some(all[i as int].1)));
            }
            rows.push(row);
            proof {
                assert(row_views(rows@) =~= before.push(
                    network_row(all[i as int].0, Some(all[i as int].1)),
                ));
                assert(row_views(rows@) =~= top + found_rows(all.take(i + 1)));
            }
            i += 1;
        }
        proof {
            assert(all.take(found.len() as int) =~= all);
        }
    }
    TableSection { heading, rows }
}

fn table_of_missing(missing: &Vec<String>, aggregate: bool) -> (section: TableSection)
    ensures
        section@ == missing_section(missing.deep_view(), aggregate),
{
    let ghost all = missing.deep_view();
    let mut rows: Vec<TableRow> = Vec::new();
    rows.push(make_header(false));
    let ghost top = row_views(rows@);
    proof {
        assert(top =~= seq![header_row(false)]);
    }
    let mut heading = "\nFound the following ".to_owned();
    push_decimal(&mut heading, missing.len() as u64);
    heading.append(" chain(s) in hardhat config without corresponding deployment(s):");
    proof {
        assert(heading@ =~= missing_heading(all.len()));
    }
    if aggregate {
        let groups = missing_groups(missing);
        push_group_rows(&mut rows, &groups, false);
    } else {
        proof {
            assert(all.take(0) =~= Seq::<Seq<char>>::empty());
            assert(top + missing_rows(all.take(0)) =~= top);
        }
        let mut i: usize = 0;
        while i < missing.len()
            invariant
                i <= missing.len(),
                all == missing.deep_view(),
                row_views(rows@) == top + missing_rows(all.take(i as int)),
            decreases missing.len() - i,
        {
            let ghost before = row_views(rows@);
            proof {
                assert(all.take(i + 1).drop_last() =~= all.take(i as int));
                assert(all.take(i + 1).last() == missing@[i as int]@);
            }
            let title = camel_to_title_case(missing[i].as_str());
            let row = row_of_one(cell(title, CellStyle::Plain));
            proof {
                assert(row@ =~= network_row(all[i as int], None));
            }
            rows.push(row);
            proof {
                assert(row_views(rows@) =~= before.push(network_row(all[i as int], None)));
                assert(row_views(rows@) =~= top + missing_rows(all.take(i + 1)));
            }
            i += 1;
        }
        proof {
            assert(all.take(missing.len() as int) =~= all);
        }
    }
    TableSection { heading, rows }
}

/// Renders the listing as tables.
pub fn render_tables(result: &ReconciliationResult, aggregate: bool) -> (sections: Vec<
    TableSection,
>)
    ensures
        section_views(sections@) == list_sections(
            result.found.deep_view(),
            result.missing.deep_view(),
            aggregate,
        ),
{
    let mut sections: Vec<TableSection> = Vec::new();
    proof {
        assert(section_views(sections@) =~= Seq::<SectionView>::empty());
    }
    if result.found.len() > 0 {
        let ghost before = section_views(sections@);
        let section = table_of_found(&result.found, aggregate);
        sections.push(section);
        proof {
            assert(section_views(sections@) =~= before.push(
                found_section(result.found.deep_view(), aggregate),
            ));
        }
    }
    if result.missing.len() > 0 {
        let ghost before = section_views(sections@);
        let section = table_of_missing(&result.missing, aggregate);
        sections.push(section);
        proof {
            assert(section_views(sections@) =~= before.push(
                missing_section(result.missing.deep_view(), aggregate),
            ));
        }
    }
    proof {
        assert(section_views(sections@) =~= list_sections(
            result.found.deep_view(),
            result.missing.deep_view(),
            aggregate,
        ));
    }
    sections
}

/// The form in which a command gives its answer.
#[derive(Debug, Clone, Copy, PartialEq, Eq, Structural)]
pub enum OutputFormat {
    Table,
    Json,
    Csv,
}

/// What a command has rendered: a text to print or to write to a file, or the
/// tables to draw.
#[derive(Debug, Clone, PartialEq, Eq)]
pub enum Rendered {
    Text(String),
    Tables(Vec<TableSection>),
}

/// The answer of the listing.
#[derive(Debug, Clone, PartialEq, Eq)]
pub struct ListOutput {
    /// The records that could not be used; their networks are listed as
    /// missing.
    pub warnings: Vec<StoreWarning>,
    /// The listing in the form asked for.
    pub rendered: Rendered,
}

/// Why the listing gives no answer.
#[derive(Debug, Clone, PartialEq, Eq)]
pub enum ListError {
    /// The configuration cannot be read.
    Config(ConfigError),
    /// The document could not be written, for the given reason.
    Render(String),
}

/// Whether something rendered is the given listing in the given form.
pub open spec fn renders(
    rendered: Rendered,
    found: Seq<(Seq<char>, Seq<char>)>,
    missing: Seq<Seq<char>>,
    aggregate: bool,
    format: OutputFormat,
) -> bool {
    match format {
        OutputFormat::Csv => rendered matches Rendered::Text(text) && text@ == list_csv(
            found,
            missing,
            aggregate,
        ),
        OutputFormat::Json => rendered matches Rendered::Text(text) && json_text(
            list_document(found, missing, aggregate),
        ) == Some(text@),
        OutputFormat::Table => rendered matches Rendered::Tables(sections) && section_views(
            sections@,
        ) == list_sections(found, missing, aggregate),
    }
}

/// Renders a reconciliation in the form asked for.
pub fn render_listing(result: &ReconciliationResult, aggregate: bool, format: OutputFormat) -> (outcome:
    Result<Rendered, String>)
    ensures
        match outcome {
            Ok(rendered) => renders(
                rendered,
                result.found.deep_view(),
                result.missing.deep_view(),
                aggregate,
                format,
            ),
            Err(_) => format == OutputFormat::Json && json_text(
                list_document(result.found.deep_view(), result.missing.deep_view(), aggregate),
            ) is None,
        },
{
    match format {
        OutputFormat::Csv => Ok(Rendered::Text(render_csv(result, aggregate))),
        OutputFormat::Table => Ok(Rendered::Tables(render_tables(result, aggregate))),
        OutputFormat::Json => match render_json(result, aggregate) {
            Ok(text) => Ok(Rendered::Text(text)),
            Err(message) => Err(message),
        },
    }
}

/// Lists the deployments of a project: reads the networks from the text of
/// its configuration, reconciles them with the store, and renders the found
/// and the missing networks in the form asked for.
///
/// A configuration that cannot be read is the only error but one: a JSON
/// document for which the writer gives no text. A record that cannot be used
/// is never an error: it comes back as a warning.
pub fn list_deployments(
    content: &str,
    store: &Vec<StoreEntry>,
    aggregate: bool,
    format: OutputFormat,
) -> (outcome: Result<ListOutput, ListError>)
    ensures
        match config_outcome(regex_captures(NETWORK_PATTERN@, content@)) {
            Err(failure) => outcome matches Err(ListError::Config(error)) && failure_of(error)
                == failure,
            Ok(networks) => match outcome {
                Ok(output) => {
                    &&& warned(output.warnings@) == failing_of(entries_of(networks), store@)
                    &&& all_explained(output.warnings@, store@)
                    &&& renders(
                        output.rendered,
                        found_of(entries_of(networks), store@),
                        missing_of(entries_of(networks), store@),
                        aggregate,
                        format,
                    )
                },
                Err(ListError::Render(_)) => format == OutputFormat::Json && json_text(
                    list_document(
                        found_of(entries_of(networks), store@),
                        missing_of(entries_of(networks), store@),
                        aggregate,
                    ),
                ) is None,
                Err(ListError::Config(_)) => false,
            },
        },
{
    let networks = match parse_hardhat_config(content) {
        Ok(networks) => networks,
        Err(error) => {
            return Err(ListError::Config(error));
        },
    };
    proof {
        networks.lemma_entries_determined();
    }
    let (result, warnings) = reconcile(&networks, store);
    match render_listing(&result, aggregate, format) {
        Ok(rendered) => Ok(ListOutput { warnings, rendered }),
        Err(message) => Err(ListError::Render(message)),
    }
}

/// The listing of a project is decided by the mapping of its networks and
/// by the store: two well-formed mappings that are the same mapping, however
/// each was built, give the same found and missing networks, and so the
/// same CSV.
pub proof fn lemma_listing_is_determined(
    one: NetworkMap,
    other: NetworkMap,
    store: Seq<StoreEntry>,
    aggregate: bool,
)
    requires
        one.wf(),
        other.wf(),
        one@ == other@,
    ensures
        found_of(one.entries(), store) == found_of(other.entries(), store),
        missing_of(one.entries(), store) == missing_of(other.entries(), store),
        list_csv(found_of(one.entries(), store), missing_of(one.entries(), store), aggregate)
            == list_csv(
            found_of(other.entries(), store),
            missing_of(other.entries(), store),
            aggregate,
        ),
{
    lemma_sorted_entries_unique(one.entries(), other.entries());
}

} // verus!
