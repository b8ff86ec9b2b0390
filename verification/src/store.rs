//! The deployment store: one directory for each chain, each with a record of
//! the addresses deployed there.

use crate::json::{error_text, json_record, parse_record};
use crate::text::{
    decimal_text, lemma_decimal_round_trip, parse_decimal, parse_u64, push_decimal, text_eq,
};
use vstd::prelude::*;
use vstd::string::*;

verus! {

/// What was found where the record of a chain should be.
#[derive(Debug, Clone, PartialEq, Eq)]
pub enum RecordContent {
    /// There is no record.
    Absent,
    /// There is a record, and reading it failed for the given reason.
    Unreadable(String),
    /// The text of the record.
    Text(String),
}

/// One entry of the store's directory.
#[derive(Debug, Clone, PartialEq, Eq)]
pub struct StoreEntry {
    /// The name of the entry, such as `chain-137`.
    pub name: String,
    /// Whether the entry is a directory.
    pub is_dir: bool,
    /// The record found in it.
    pub record: RecordContent,
}

/// The deployment recorded for a chain: at most one address.
#[derive(Debug, Clone, PartialEq, Eq)]
pub struct DeploymentRecord {
    pub chain_id: u64,
    pub address: Option<String>,
}

/// Why the record of a chain gives no answer.
#[derive(Debug, Clone, PartialEq, Eq)]
pub enum StoreError {
    /// The record is there and could not be read.
    Read { path: String, cause: String },
    /// The record was read and is no JSON document.
    Parse { path: String, cause: String },
}

impl StoreError {
    /// The message shown to the user.
    pub fn message(&self) -> (text: String)
        ensures
            text@ == match *self {
                StoreError::Read { path, cause } => "Failed to read deployed_addresses.json: "@
                    + cause@,
                StoreError::Parse { path, cause } => "Failed to parse deployed_addresses.json: "@
                    + cause@,
            },
    {
        match self {
            StoreError::Read { path: _, cause } => {
                let mut text = "Failed to read deployed_addresses.json: ".to_owned();
                text.append(cause.as_str());
                text
            },
            StoreError::Parse { path: _, cause } => {
                let mut text = "Failed to parse deployed_addresses.json: ".to_owned();
                text.append(cause.as_str());
                text
            },
        }
    }
}

/// The first address among the fields of a record: the value of the first
/// field whose value is a string.
pub open spec fn first_address(fields: Seq<(Seq<char>, Option<Seq<char>>)>) -> Option<Seq<char>>
    decreases fields.len(),
{
    if fields.len() == 0 {
        None
    } else if fields[0].1 is Some {
        fields[0].1
    } else {
        first_address(fields.skip(1))
    }
}

/// Picks the address that a record stands for: the first that its fields
/// hold, in their order.
pub fn select_address(fields: &Vec<(String, Option<String>)>) -> (address: Option<String>)
    ensures
        address.deep_view() == first_address(fields.deep_view()),
{
    let ghost all = fields.deep_view();
    let mut i: usize = 0;
    proof {
        assert(all.skip(0) =~= all);
    }
    while i < fields.len()
        invariant
            i <= fields.len(),
            all == fields.deep_view(),
            first_address(all) == first_address(all.skip(i as int)),
        decreases fields.len() - i,
    {
        proof {
            assert(all.skip(i as int)[0] == all[i as int]);
            assert(all[i as int] == fields@[i as int].deep_view());
            assert(all.skip(i as int).skip(1) =~= all.skip(i + 1));
        }
        match &fields[i].1 {
            Some(address) => {
                return Some(address.clone());
            },
            None => {},
        }
        i += 1;
    }
    None
}

/// The address that a record resolves to, if it resolves to one.
pub open spec fn record_address(record: RecordContent) -> Option<Seq<char>> {
    match record {
        RecordContent::Text(text) => match json_record(text@) {
            Some(Some(fields)) => first_address(fields),
            _ => None,
        },
        _ => None,
    }
}

/// Whether a record is there and cannot be used: it could not be read, or it
/// is no JSON document.
pub open spec fn record_fails(record: RecordContent) -> bool {
    match record {
        RecordContent::Absent => false,
        RecordContent::Unreadable(_) => true,
        RecordContent::Text(text) => json_record(text@) is None,
    }
}

/// Whether an error is the one that a record gives when it is looked up
/// under a path: a read error with the reason found for a record that could
/// not be read, a parse error for a record that is no JSON document, each
/// with the path.
pub open spec fn error_fits(error: StoreError, record: RecordContent, path: Seq<char>) -> bool {
    match error {
        StoreError::Read { path: at, cause } => {
            &&& record matches RecordContent::Unreadable(reason)
            &&& cause@ == reason@
            &&& at@ == path
        },
        StoreError::Parse { path: at, cause } => {
            &&& record matches RecordContent::Text(text)
            &&& json_record(text@) is None
            &&& at@ == path
        },
    }
}

/// Resolves the record of a chain to at most one address.
///
/// A record that is absent, that is no JSON object, or that holds no address
/// gives `None`. A record that could not be read, or that is no JSON
/// document, is an error, which names the given path.
pub fn get_deployment_address(path: &str, record: &RecordContent) -> (outcome: Result<
    Option<String>,
    StoreError,
>)
    ensures
        match outcome {
            Ok(address) => !record_fails(*record) && address.deep_view() == record_address(*record),
            Err(error) => error_fits(error, *record, path@),
        },
{
    match record {
        RecordContent::Absent => Ok(None),
        RecordContent::Unreadable(reason) => Err(
            StoreError::Read { path: path.to_owned(), cause: reason.clone() },
        ),
        RecordContent::Text(text) => match parse_record(text.as_str()) {
            Err(error) => Err(
                StoreError::Parse { path: path.to_owned(), cause: error_text(&error) },
            ),
            Ok(None) => Ok(None),
            Ok(Some(fields)) => Ok(select_address(&fields)),
        },
    }
}

/// The number of directories among the entries of a store.
pub open spec fn directory_count(entries: Seq<StoreEntry>) -> nat
    decreases entries.len(),
{
    if entries.len() == 0 {
        0
    } else {
        directory_count(entries.drop_last()) + if entries.last().is_dir {
            1nat
        } else {
            0nat
        }
    }
}

/// Counts the deployments of a store: its directories.
pub fn count_deployments(store: &Vec<StoreEntry>) -> (count: usize)
    ensures
        count == directory_count(store@),
{
    let mut count: usize = 0;
    let mut i: usize = 0;
    while i < store.len()
        invariant
            i <= store.len(),
            count <= i,
            count == directory_count(store@.take(i as int)),
        decreases store.len() - i,
    {
        proof {
            assert(store@.take(i + 1).drop_last() =~= store@.take(i as int));
        }
        if store[i].is_dir {
            count += 1;
        }
        i += 1;
    }
    proof {
        assert(store@.take(store.len() as int) =~= store@);
    }
    count
}

/// What the name of every chain directory starts with.
pub open spec fn chain_prefix() -> Seq<char> {
    seq!['c', 'h', 'a', 'i', 'n', '-']
}

/// The name of the directory of a chain.
pub open spec fn chain_dir_text(chain_id: u64) -> Seq<char> {
    chain_prefix() + decimal_text(chain_id as nat)
}

/// The chain that a directory name stands for, if it stands for one.
pub open spec fn dir_chain_id(name: Seq<char>) -> Option<u64> {
    if name.len() >= 6 && name.take(6) == chain_prefix() {
        parse_decimal(name.skip(6))
    } else {
        None
    }
}

proof fn lemma_chain_prefix_literal()
    ensures
        "chain-"@ == chain_prefix(),
{
    reveal_strlit("chain-");
    assert("chain-"@ =~= chain_prefix());
}

/// The name of the directory of a chain: `chain-` and the id in base ten.
pub fn chain_dir_name(chain_id: u64) -> (name: String)
    ensures
        name@ == chain_dir_text(chain_id),
{
    let mut name = "chain-".to_owned();
    proof {
        lemma_chain_prefix_literal();
    }
    push_decimal(&mut name, chain_id);
    name
}

/// Reads the chain id out of the name of a chain directory.
pub fn chain_id_of_dir(name: &str) -> (chain_id: Option<u64>)
    ensures
        chain_id == dir_chain_id(name@),
{
    let n = name.unicode_len();
    if n < 6 {
        return None;
    }
    let head = name.substring_char(0, 6);
    proof {
        lemma_chain_prefix_literal();
        assert(name@.subrange(0, 6) =~= name@.take(6));
        assert(name@.subrange(6, n as int) =~= name@.skip(6));
    }
    if !text_eq(head, "chain-") {
        return None;
    }
    parse_u64(name.substring_char(6, n))
}

/// The name of the directory of a chain stands for that chain.
pub proof fn lemma_chain_dir_round_trip(chain_id: u64)
    ensures
        dir_chain_id(chain_dir_text(chain_id)) == Some(chain_id),
{
    let digits = decimal_text(chain_id as nat);
    let name = chain_dir_text(chain_id);
    lemma_decimal_round_trip(chain_id);
    assert(name.take(6) =~= chain_prefix());
    assert(name.skip(6) =~= digits);
}

/// A record gives an address exactly when one of its fields holds one, and
/// the address that it gives is the one of the first such field.
pub proof fn lemma_first_address_is_first(fields: Seq<(Seq<char>, Option<Seq<char>>)>)
    ensures
        first_address(fields) is Some <==> exists|i: int|
            0 <= i < fields.len() && (#[trigger] fields[i]).1 is Some,
        first_address(fields) is Some ==> exists|i: int|
            0 <= i < fields.len() && (#[trigger] fields[i]).1 == first_address(fields) && forall|
                k: int,
            |
                0 <= k < i ==> (#[trigger] fields[k]).1 is None,
    decreases fields.len(),
{
    if fields.len() > 0 {
        if fields[0].1 is Some {
            assert(fields[0].1 == first_address(fields));
        } else {
            let rest = fields.skip(1);
            lemma_first_address_is_first(rest);
            if first_address(rest) is Some {
                let i = choose|i: int|
                    0 <= i < rest.len() && (#[trigger] rest[i]).1 == first_address(rest) && forall|
                        k: int,
                    |
                        0 <= k < i ==> (#[trigger] rest[k]).1 is None;
                assert(fields[i + 1] == rest[i]);
                assert forall|k: int| 0 <= k < i + 1 implies (#[trigger] fields[k]).1 is None by {
                    if k > 0 {
                        assert(fields[k] == rest[k - 1]);
                    }
                }
            }
            if exists|i: int| 0 <= i < fields.len() && (#[trigger] fields[i]).1 is Some {
                let i = choose|i: int| 0 <= i < fields.len() && (#[trigger] fields[i]).1 is Some;
                assert(rest[i - 1] == fields[i]);
            }
        }
    }
}

} // verus!
