//! Reconciliation: which declared networks have a deployment, which have
//! none, and which stored deployments no network refers to.

use crate::config::{entries_map, has_chain_id, lemma_entry_in_map, strictly_sorted, NetworkMap};
use crate::store::{
    chain_dir_name, chain_dir_text, chain_id_of_dir, DeploymentRecord, dir_chain_id, error_fits,
    get_deployment_address, record_address, record_fails, RecordContent, StoreEntry, StoreError,
};
use crate::text::{lemma_text_lt_asymmetric, text_eq, text_lt};
use vstd::prelude::*;
use vstd::relations::*;
use vstd::seq_lib::*;
use vstd::string::*;

verus! {

/// The outcome of a reconciliation.
#[derive(Debug, Clone, PartialEq, Eq)]
pub struct ReconciliationResult {
    /// The networks with a deployment, each with its address, in order of
    /// names.
    pub found: Vec<(String, String)>,
    /// The networks without a deployment, in order of names.
    pub missing: Vec<String>,
    /// The chains with a stored deployment that no network refers to, in
    /// ascending order.
    pub orphaned: Vec<u64>,
}

/// A record that could not be used, and the network that it was read for.
#[derive(Debug, Clone, PartialEq, Eq)]
pub struct StoreWarning {
    pub network: String,
    pub chain_id: u64,
    pub error: StoreError,
}

/// The name of the network that stands for Hardhat's own local chain, and
/// that no reconciliation looks at.
pub open spec fn hardhat_name() -> Seq<char> {
    seq!['h', 'a', 'r', 'd', 'h', 'a', 't']
}

/// The name of the record inside the directory of a chain.
pub open spec fn record_file() -> Seq<char> {
    "/deployed_addresses.json"@
}

/// The first entry of a store with the given name.
pub open spec fn find_entry(store: Seq<StoreEntry>, name: Seq<char>) -> Option<StoreEntry>
    decreases store.len(),
{
    if store.len() == 0 {
        None
    } else if store[0].name@ == name {
        Some(store[0])
    } else {
        find_entry(store.skip(1), name)
    }
}

/// The record that a store holds for a chain: the one of the chain's
/// directory, where the store has that directory.
pub open spec fn chain_record(store: Seq<StoreEntry>, chain_id: u64) -> RecordContent {
    match find_entry(store, chain_dir_text(chain_id)) {
        Some(entry) => if entry.is_dir {
            entry.record
        } else {
            RecordContent::Absent
        },
        None => RecordContent::Absent,
    }
}

/// The address that a store resolves a chain to.
pub open spec fn chain_address(store: Seq<StoreEntry>, chain_id: u64) -> Option<Seq<char>> {
    record_address(chain_record(store, chain_id))
}

/// The networks with a deployment: every network but Hardhat's own whose
/// chain resolves to an address, with that address, in the order given.
pub open spec fn found_of(entries: Seq<(Seq<char>, u64)>, store: Seq<StoreEntry>) -> Seq<
    (Seq<char>, Seq<char>),
>
    decreases entries.len(),
{
    if entries.len() == 0 {
        Seq::empty()
    } else {
        let rest = found_of(entries.drop_last(), store);
        let (name, chain_id) = entries.last();
        if name != hardhat_name() && chain_address(store, chain_id) is Some {
            rest.push((name, chain_address(store, chain_id)->0))
        } else {
            rest
        }
    }
}

/// The networks without a deployment: every network but Hardhat's own whose
/// chain resolves to no address, in the order given.
pub open spec fn missing_of(entries: Seq<(Seq<char>, u64)>, store: Seq<StoreEntry>) -> Seq<
    Seq<char>,
>
    decreases entries.len(),
{
    if entries.len() == 0 {
        Seq::empty()
    } else {
        let rest = missing_of(entries.drop_last(), store);
        let (name, chain_id) = entries.last();
        if name != hardhat_name() && chain_address(store, chain_id) is None {
            rest.push(name)
        } else {
            rest
        }
    }
}

/// The networks whose record is there and cannot be used, in the order
/// given. Each of them is among the missing.
pub open spec fn failing_of(entries: Seq<(Seq<char>, u64)>, store: Seq<StoreEntry>) -> Seq<
    (Seq<char>, u64),
>
    decreases entries.len(),
{
    if entries.len() == 0 {
        Seq::empty()
    } else {
        let rest = failing_of(entries.drop_last(), store);
        let (name, chain_id) = entries.last();
        if name != hardhat_name() && record_fails(chain_record(store, chain_id)) {
            rest.push(entries.last())
        } else {
            rest
        }
    }
}

/// The chains of the directories of a store that no network refers to, one
/// for each such directory, in the order of the store.
pub open spec fn orphans_of(store: Seq<StoreEntry>, entries: Seq<(Seq<char>, u64)>) -> Seq<u64>
    decreases store.len(),
{
    if store.len() == 0 {
        Seq::empty()
    } else {
        let rest = orphans_of(store.drop_last(), entries);
        let entry = store.last();
        match dir_chain_id(entry.name@) {
            Some(chain_id) => if entry.is_dir && !has_chain_id(entries, chain_id) {
                rest.push(chain_id)
            } else {
                rest
            },
            None => rest,
        }
    }
}

/// Whether a list of chain ids is in ascending order.
pub open spec fn ascending(ids: Seq<u64>) -> bool {
    forall|i: int, j: int| 0 <= i < j < ids.len() ==> ids[i] <= ids[j]
}

/// The order of chain ids.
pub open spec fn id_leq() -> spec_fn(u64, u64) -> bool {
    |a: u64, b: u64| a <= b
}

/// A list of chain ids put in ascending order.
pub open spec fn sorted_ids(ids: Seq<u64>) -> Seq<u64> {
    ids.sort_by(id_leq())
}

/// A list in ascending order that holds the chain ids of another, each as
/// often as the other does, is the other put in ascending order.
pub proof fn lemma_ascending_is_sorted(listed: Seq<u64>, ordered: Seq<u64>)
    requires
        ascending(ordered),
        ordered.to_multiset() == listed.to_multiset(),
    ensures
        ordered == sorted_ids(listed),
{
    let leq = id_leq();
    assert(total_ordering(leq)) by {
        assert(reflexive(leq));
        assert(antisymmetric(leq));
        assert(transitive(leq));
        assert(strongly_connected(leq));
    }
    listed.lemma_sort_by_ensures(leq);
    assert(sorted_by(ordered, leq));
    lemma_sorted_unique(ordered, listed.sort_by(leq), leq);
}

/// The networks that warnings speak of, each with its chain.
pub open spec fn warned(warnings: Seq<StoreWarning>) -> Seq<(Seq<char>, u64)> {
    warnings.map_values(|w: StoreWarning| (w.network@, w.chain_id))
}

/// The path of the record of a chain within the store.
pub open spec fn record_path(chain_id: u64) -> Seq<char> {
    chain_dir_text(chain_id) + record_file()
}

/// Whether the error of a warning is the one that the record of its chain
/// gives.
pub open spec fn explained(warning: StoreWarning, store: Seq<StoreEntry>) -> bool {
    error_fits(warning.error, chain_record(store, warning.chain_id), record_path(warning.chain_id))
}

/// Whether each of the warnings is explained by the store.
pub open spec fn all_explained(warnings: Seq<StoreWarning>, store: Seq<StoreEntry>) -> bool {
    forall|k: int| 0 <= k < warnings.len() ==> explained(#[trigger] warnings[k], store)
}

/// The place of the first entry of a store with the given name.
fn find_dir(store: &Vec<StoreEntry>, name: &str) -> (at: Option<usize>)
    ensures
        match at {
            Some(k) => k < store.len() && find_entry(store@, name@) == Some(store@[k as int]),
            None => find_entry(store@, name@) is None,
        },
{
    let mut i: usize = 0;
    proof {
        assert(store@.skip(0) =~= store@);
    }
    while i < store.len()
        invariant
            i <= store.len(),
            find_entry(store@, name@) == find_entry(store@.skip(i as int), name@),
        decreases store.len() - i,
    {
        proof {
            assert(store@.skip(i as int)[0] == store@[i as int]);
            assert(store@.skip(i as int).skip(1) =~= store@.skip(i + 1));
        }
        if text_eq(store[i].name.as_str(), name) {
            return Some(i);
        }
        i += 1;
    }
    None
}

/// Puts a chain id into an ascending list, at its place.
fn insert_ascending(ids: &mut Vec<u64>, chain_id: u64)
    requires
        ascending(old(ids)@),
    ensures
        ascending(final(ids)@),
        final(ids)@.to_multiset() == old(ids)@.to_multiset().insert(chain_id),
{
    let mut at: usize = 0;
    while at < ids.len() && ids[at] <= chain_id
        invariant
            at <= ids.len(),
            forall|k: int| 0 <= k < at ==> ids@[k] <= chain_id,
        decreases ids.len() - at,
    {
        at += 1;
    }
    proof {
        to_multiset_insert(ids@, at as int, chain_id);
    }
    ids.insert(at, chain_id);
}

/// Resolves a chain to at most one address: by the record of the chain's
/// directory, where the store has that directory.
///
/// The error of a record that is there and cannot be used names the record by
/// the name of the directory and of the record in it.
pub fn resolve_chain(store: &Vec<StoreEntry>, chain_id: u64) -> (outcome: Result<
    DeploymentRecord,
    StoreError,
>)
    ensures
        match outcome {
            Ok(record) => {
                &&& record.chain_id == chain_id
                &&& !record_fails(chain_record(store@, chain_id))
                &&& record.address.deep_view() == chain_address(store@, chain_id)
            },
            Err(error) => {
                &&& record_fails(chain_record(store@, chain_id))
                &&& error_fits(error, chain_record(store@, chain_id), record_path(chain_id))
            },
        },
{
    let dir = chain_dir_name(chain_id);
    let resolved = match find_dir(store, dir.as_str()) {
        Some(k) => if store[k].is_dir {
            let mut path = dir.clone();
            path.append("/deployed_addresses.json");
            get_deployment_address(path.as_str(), &store[k].record)
        } else {
            Ok(None)
        },
        None => Ok(None),
    };
    match resolved {
        Ok(address) => Ok(DeploymentRecord { chain_id, address }),
        Err(error) => Err(error),
    }
}

/// Collects the chains of the directories of a store that no network refers
/// to, in ascending order.
pub fn find_orphans(networks: &NetworkMap, store: &Vec<StoreEntry>) -> (orphaned: Vec<u64>)
    ensures
        orphaned@ == sorted_ids(orphans_of(store@, networks.entries())),
        ascending(orphaned@),
        orphaned@.to_multiset() == orphans_of(store@, networks.entries()).to_multiset(),
{
    let ghost entries = networks.entries();
    let mut orphaned: Vec<u64> = Vec::new();
    let mut j: usize = 0;
    proof {
        assert(store@.take(0) =~= Seq::<StoreEntry>::empty());
    }
    while j < store.len()
        invariant
            j <= store.len(),
            entries == networks.entries(),
            ascending(orphaned@),
            orphaned@.to_multiset() == orphans_of(store@.take(j as int), entries).to_multiset(),
        decreases store.len() - j,
    {
        proof {
            assert(store@.take(j + 1).drop_last() =~= store@.take(j as int));
            assert(store@.take(j + 1).last() == store@[j as int]);
        }
        if store[j].is_dir {
            match chain_id_of_dir(store[j].name.as_str()) {
                Some(chain_id) => {
                    if !networks.contains_chain_id(chain_id) {
                        proof {
                            to_multiset_build(orphans_of(store@.take(j as int), entries), chain_id);
                        }
                        insert_ascending(&mut orphaned, chain_id);
                    }
                },
                None => {},
            }
        }
        j += 1;
    }
    proof {
        assert(store@.take(store.len() as int) =~= store@);
        lemma_ascending_is_sorted(orphans_of(store@, entries), orphaned@);
    }
    orphaned
}

/// Reconciles the declared networks with the store.
///
/// Every network but Hardhat's own is looked up by the directory of its
/// chain: it is found where the record there resolves to an address, and
/// missing otherwise. A record that is there and cannot be used leaves its
/// network missing and gives a warning; it never stops the reconciliation.
/// The directories of chains that no network refers to are the orphans.
pub fn reconcile(networks: &NetworkMap, store: &Vec<StoreEntry>) -> (outcome: (
    ReconciliationResult,
    Vec<StoreWarning>,
))
    ensures
        outcome.0.found.deep_view() == found_of(networks.entries(), store@),
        outcome.0.missing.deep_view() == missing_of(networks.entries(), store@),
        outcome.0.orphaned@ == sorted_ids(orphans_of(store@, networks.entries())),
        ascending(outcome.0.orphaned@),
        outcome.0.orphaned@.to_multiset() == orphans_of(store@, networks.entries()).to_multiset(),
        warned(outcome.1@) == failing_of(networks.entries(), store@),
        all_explained(outcome.1@, store@),
{
    let ghost entries = networks.entries();
    let mut found: Vec<(String, String)> = Vec::new();
    let mut missing: Vec<String> = Vec::new();
    let mut warnings: Vec<StoreWarning> = Vec::new();
    let mut i: usize = 0;
    proof {
        reveal_strlit("hardhat");
        assert("hardhat"@ =~= hardhat_name());
        assert(found.deep_view() =~= found_of(entries.take(0), store@));
        assert(missing.deep_view() =~= missing_of(entries.take(0), store@));
        assert(warned(warnings@) =~= failing_of(entries.take(0), store@));
    }
    let n = networks.len();
    while i < n
        invariant
            i <= n,
            n == entries.len(),
            entries == networks.entries(),
            "hardhat"@ == hardhat_name(),
            found.deep_view() == found_of(entries.take(i as int), store@),
            missing.deep_view() == missing_of(entries.take(i as int), store@),
            warned(warnings@) == failing_of(entries.take(i as int), store@),
            all_explained(warnings@, store@),
        decreases n - i,
    {
        let entry = networks.entry(i);
        proof {
            assert(entries.take(i + 1).drop_last() =~= entries.take(i as int));
            assert(entries.take(i + 1).last() == entry@);
        }
        if !text_eq(entry.name.as_str(), "hardhat") {
            let resolved = resolve_chain(store, entry.chain_id);
            let ghost old_found = found.deep_view();
            let ghost old_missing = missing.deep_view();
            let ghost old_warned = warned(warnings@);
            match resolved {
                Ok(DeploymentRecord { chain_id: _, address: Some(address) }) => {
                    let ghost pair = (entry.name@, address@);
                    found.push((entry.name.clone(), address));
                    proof {
                        assert(found.deep_view() =~= old_found.push(pair));
                    }
                },
                Ok(DeploymentRecord { chain_id: _, address: None }) => {
                    missing.push(entry.name.clone());
                    proof {
                        assert(missing.deep_view() =~= old_missing.push(entry.name@));
                    }
                },
                Err(error) => {
                    missing.push(entry.name.clone());
                    warnings.push(
                        StoreWarning {
                            network: entry.name.clone(),
                            chain_id: entry.chain_id,
                            error,
                        },
                    );
                    proof {
                        assert(missing.deep_view() =~= old_missing.push(entry.name@));
                        assert(warned(warnings@) =~= old_warned.push(entry@));
                    }
                },
            }
        }
        i += 1;
    }
    proof {
        assert(entries.take(n as int) =~= entries);
    }
    let orphaned = find_orphans(networks, store);
    (ReconciliationResult { found, missing, orphaned }, warnings)
}

/// The names of the found networks.
pub open spec fn found_names(found: Seq<(Seq<char>, Seq<char>)>) -> Seq<Seq<char>> {
    found.map_values(|pair: (Seq<char>, Seq<char>)| pair.0)
}

/// Whether some entry has the given name, is not Hardhat's own network, and
/// resolves to an address (`resolves`) or to none (`!resolves`).
pub open spec fn classified(
    entries: Seq<(Seq<char>, u64)>,
    store: Seq<StoreEntry>,
    name: Seq<char>,
    resolves: bool,
) -> bool {
    exists|i: int|
        0 <= i < entries.len() && (#[trigger] entries[i]).0 == name && name != hardhat_name() && (
        chain_address(store, entries[i].1) is Some) == resolves
}

proof fn lemma_classified_grows(
    entries: Seq<(Seq<char>, u64)>,
    store: Seq<StoreEntry>,
    name: Seq<char>,
    resolves: bool,
)
    requires
        entries.len() > 0,
    ensures
        classified(entries, store, name, resolves) <==> classified(
            entries.drop_last(),
            store,
            name,
            resolves,
        ) || (entries.last().0 == name && name != hardhat_name() && (chain_address(
            store,
            entries.last().1,
        ) is Some) == resolves),
{
    let front = entries.drop_last();
    let n = entries.len() - 1;
    if classified(entries, store, name, resolves) {
        let i = choose|i: int|
            0 <= i < entries.len() && (#[trigger] entries[i]).0 == name && name != hardhat_name()
                && (chain_address(store, entries[i].1) is Some) == resolves;
        if i < n {
            assert(front[i] == entries[i]);
        }
    }
    if classified(front, store, name, resolves) {
        let i = choose|i: int|
            0 <= i < front.len() && (#[trigger] front[i]).0 == name && name != hardhat_name() && (
            chain_address(store, front[i].1) is Some) == resolves;
        assert(entries[i] == front[i]);
    }
    if entries.last().0 == name && name != hardhat_name() && (chain_address(
        store,
        entries.last().1,
    ) is Some) == resolves {
        assert(entries[n] == entries.last());
    }
}

/// A network is found exactly when an entry of its name, other than
/// Hardhat's own, resolves to an address, and missing exactly when one
/// resolves to none.
pub proof fn lemma_found_and_missing_members(
    entries: Seq<(Seq<char>, u64)>,
    store: Seq<StoreEntry>,
)
    ensures
        forall|name: Seq<char>| #[trigger]
            found_names(found_of(entries, store)).contains(name) <==> classified(
                entries,
                store,
                name,
                true,
            ),
        forall|name: Seq<char>| #[trigger]
            missing_of(entries, store).contains(name) <==> classified(entries, store, name, false),
    decreases entries.len(),
{
    if entries.len() == 0 {
        assert(found_names(found_of(entries, store)) =~= Seq::<Seq<char>>::empty());
    } else {
        let front = entries.drop_last();
        lemma_found_and_missing_members(front, store);
        let last_name = entries.last().0;
        let resolved = chain_address(store, entries.last().1);
        let old_found = found_names(found_of(front, store));
        let new_found = found_names(found_of(entries, store));
        let old_missing = missing_of(front, store);
        let new_missing = missing_of(entries, store);
        if last_name != hardhat_name() && resolved is Some {
            assert(new_found =~= old_found.push(last_name));
        } else {
            assert(new_found =~= old_found);
        }
        assert forall|name: Seq<char>| #[trigger]
            new_found.contains(name) <==> classified(entries, store, name, true) by {
            lemma_classified_grows(entries, store, name, true);
            if last_name != hardhat_name() && resolved is Some {
                lemma_push_contains(old_found, last_name, name);
            }
        }
        assert forall|name: Seq<char>| #[trigger]
            new_missing.contains(name) <==> classified(entries, store, name, false) by {
            lemma_classified_grows(entries, store, name, false);
            if last_name != hardhat_name() && resolved is None {
                lemma_push_contains(old_missing, last_name, name);
            }
        }
    }
}

proof fn lemma_push_contains(s: Seq<Seq<char>>, added: Seq<char>, name: Seq<char>)
    ensures
        s.push(added).contains(name) <==> s.contains(name) || added == name,
{
    let t = s.push(added);
    if s.contains(name) {
        let i = choose|i: int| 0 <= i < s.len() && s[i] == name;
        assert(t[i] == name);
    }
    if added == name {
        assert(t[s.len() as int] == name);
    }
    if t.contains(name) {
        let i = choose|i: int| 0 <= i < t.len() && t[i] == name;
        if i < s.len() {
            assert(s[i] == name);
        }
    }
}

/// Hardhat's own network is neither found nor missing.
pub proof fn lemma_hardhat_excluded(entries: Seq<(Seq<char>, u64)>, store: Seq<StoreEntry>)
    ensures
        !found_names(found_of(entries, store)).contains(hardhat_name()),
        !missing_of(entries, store).contains(hardhat_name()),
{
    lemma_found_and_missing_members(entries, store);
}

/// The found and the missing networks are, together, all the declared
/// networks but Hardhat's own, and no network is both found and missing.
pub proof fn lemma_found_and_missing_partition(
    entries: Seq<(Seq<char>, u64)>,
    store: Seq<StoreEntry>,
)
    requires
        strictly_sorted(entries),
    ensures
        found_names(found_of(entries, store)).to_set().union(missing_of(entries, store).to_set())
            == entries_map(entries).dom().remove(hardhat_name()),
        found_names(found_of(entries, store)).to_set().disjoint(
            missing_of(entries, store).to_set(),
        ),
{
    lemma_found_and_missing_members(entries, store);
    let found = found_names(found_of(entries, store));
    let missing = missing_of(entries, store);
    let declared = entries_map(entries).dom().remove(hardhat_name());
    assert forall|name: Seq<char>|
        (found.contains(name) || missing.contains(name)) == declared.contains(name) by {
        if declared.contains(name) {
            let i = choose|i: int| 0 <= i < entries.len() && (#[trigger] entries[i]).0 == name;
            if chain_address(store, entries[i].1) is Some {
                assert(classified(entries, store, name, true));
            } else {
                assert(classified(entries, store, name, false));
            }
        }
    }
    assert(found.to_set().union(missing.to_set()) =~= declared);
    assert forall|name: Seq<char>| !(found.contains(name) && missing.contains(name)) by {
        if found.contains(name) && missing.contains(name) {
            let i = choose|i: int|
                0 <= i < entries.len() && (#[trigger] entries[i]).0 == name && name
                    != hardhat_name() && (chain_address(store, entries[i].1) is Some) == true;
            let j = choose|j: int|
                0 <= j < entries.len() && (#[trigger] entries[j]).0 == name && name
                    != hardhat_name() && (chain_address(store, entries[j].1) is Some) == false;
            if i < j {
                lemma_text_lt_asymmetric(entries[i].0, entries[j].0);
            } else if j < i {
                lemma_text_lt_asymmetric(entries[j].0, entries[i].0);
            }
        }
    }
}

/// The found and the missing networks are each in strictly ascending order
/// of names.
pub proof fn lemma_found_and_missing_sorted(
    entries: Seq<(Seq<char>, u64)>,
    store: Seq<StoreEntry>,
)
    requires
        strictly_sorted(entries),
    ensures
        forall|i: int, j: int|
            0 <= i < j < found_of(entries, store).len() ==> text_lt(
                (#[trigger] found_of(entries, store)[i]).0,
                (#[trigger] found_of(entries, store)[j]).0,
            ),
        forall|i: int, j: int|
            0 <= i < j < missing_of(entries, store).len() ==> text_lt(
                #[trigger] missing_of(entries, store)[i],
                #[trigger] missing_of(entries, store)[j],
            ),
    decreases entries.len(),
{
    if entries.len() > 0 {
        let front = entries.drop_last();
        let n = entries.len() - 1;
        assert(strictly_sorted(front)) by {
            assert forall|i: int, j: int| 0 <= i < j < front.len() implies text_lt(
                (#[trigger] front[i]).0,
                (#[trigger] front[j]).0,
            ) by {
                assert(front[i] == entries[i] && front[j] == entries[j]);
            }
        }
        lemma_found_and_missing_sorted(front, store);
        lemma_found_and_missing_members(front, store);
        let last_name = entries.last().0;
        let found = found_of(entries, store);
        let missing = missing_of(entries, store);
        let old_found = found_of(front, store);
        let old_missing = missing_of(front, store);
        assert forall|i: int, j: int| 0 <= i < j < found.len() implies text_lt(
            (#[trigger] found[i]).0,
            (#[trigger] found[j]).0,
        ) by {
            if j == old_found.len() {
                let name = old_found[i].0;
                assert(found_names(old_found)[i] == name);
                assert(found_names(old_found).contains(name));
                let k = choose|k: int|
                    0 <= k < front.len() && (#[trigger] front[k]).0 == name && name
                        != hardhat_name() && (chain_address(store, front[k].1) is Some) == true;
                assert(front[k] == entries[k]);
                assert(entries[n] == entries.last());
            }
        }
        assert forall|i: int, j: int| 0 <= i < j < missing.len() implies text_lt(
            #[trigger] missing[i],
            #[trigger] missing[j],
        ) by {
            if j == old_missing.len() {
                let name = old_missing[i];
                assert(old_missing.contains(name));
                let k = choose|k: int|
                    0 <= k < front.len() && (#[trigger] front[k]).0 == name && name
                        != hardhat_name() && (chain_address(store, front[k].1) is Some) == false;
                assert(front[k] == entries[k]);
                assert(entries[n] == entries.last());
            }
        }
    }
}

/// No orphan is the chain of a declared network.
pub proof fn lemma_orphans_unreferenced(store: Seq<StoreEntry>, entries: Seq<(Seq<char>, u64)>)
    ensures
        forall|i: int|
            0 <= i < orphans_of(store, entries).len() ==> !has_chain_id(
                entries,
                #[trigger] orphans_of(store, entries)[i],
            ),
    decreases store.len(),
{
    if store.len() > 0 {
        lemma_orphans_unreferenced(store.drop_last(), entries);
        let rest = orphans_of(store.drop_last(), entries);
        let all = orphans_of(store, entries);
        assert forall|i: int| 0 <= i < all.len() implies !has_chain_id(
            entries,
            #[trigger] all[i],
        ) by {
            if i < rest.len() {
                assert(all[i] == rest[i]);
            }
        }
    }
}

/// A chain id is that of an entry exactly when it is a value of the mapping
/// that the entries stand for.
pub proof fn lemma_chain_ids_are_values(entries: Seq<(Seq<char>, u64)>, chain_id: u64)
    requires
        strictly_sorted(entries),
    ensures
        has_chain_id(entries, chain_id) <==> entries_map(entries).contains_value(chain_id),
{
    let map = entries_map(entries);
    if has_chain_id(entries, chain_id) {
        let i = choose|i: int| 0 <= i < entries.len() && (#[trigger] entries[i]).1 == chain_id;
        lemma_entry_in_map(entries, i);
        assert(map.dom().contains(entries[i].0) && map[entries[i].0] == chain_id);
    }
    if map.contains_value(chain_id) {
        let name = choose|name: Seq<char>| #[trigger]
            map.dom().contains(name) && map[name] == chain_id;
        let i = choose|i: int| 0 <= i < entries.len() && (#[trigger] entries[i]).0 == name;
        lemma_entry_in_map(entries, i);
        assert(entries[i].1 == chain_id);
    }
}

/// Whatever list holds the orphans of a store, in whatever order, holds no
/// chain that is a value of the mapping of the declared networks.
pub proof fn lemma_orphans_absent_from_config(
    store: Seq<StoreEntry>,
    entries: Seq<(Seq<char>, u64)>,
    orphaned: Seq<u64>,
)
    requires
        strictly_sorted(entries),
        orphaned.to_multiset() == orphans_of(store, entries).to_multiset(),
    ensures
        forall|i: int|
            0 <= i < orphaned.len() ==> !entries_map(entries).contains_value(
                #[trigger] orphaned[i],
            ),
{
    let listed = orphans_of(store, entries);
    lemma_orphans_unreferenced(store, entries);
    assert forall|i: int| 0 <= i < orphaned.len() implies !entries_map(entries).contains_value(
        #[trigger] orphaned[i],
    ) by {
        let id = orphaned[i];
        to_multiset_contains(orphaned, id);
        to_multiset_contains(listed, id);
        assert(orphaned.contains(id));
        assert(listed.contains(id));
        let k = choose|k: int| 0 <= k < listed.len() && listed[k] == id;
        assert(!has_chain_id(entries, listed[k]));
        lemma_chain_ids_are_values(entries, id);
    }
}

/// Every network whose record cannot be used is among the missing.
pub proof fn lemma_failing_are_missing(entries: Seq<(Seq<char>, u64)>, store: Seq<StoreEntry>)
    ensures
        forall|i: int|
            0 <= i < failing_of(entries, store).len() ==> missing_of(entries, store).contains(
                (#[trigger] failing_of(entries, store)[i]).0,
            ),
    decreases entries.len(),
{
    if entries.len() > 0 {
        let front = entries.drop_last();
        lemma_failing_are_missing(front, store);
        let failing = failing_of(entries, store);
        let missing = missing_of(entries, store);
        let old_missing = missing_of(front, store);
        assert forall|i: int| 0 <= i < failing.len() implies missing.contains(
            (#[trigger] failing[i]).0,
        ) by {
            if i < failing_of(front, store).len() {
                let name = failing_of(front, store)[i].0;
                assert(failing[i] == failing_of(front, store)[i]);
                assert(old_missing.contains(name));
                let k = choose|k: int| 0 <= k < old_missing.len() && old_missing[k] == name;
                assert(missing[k] == name);
            } else {
                assert(failing[i] == entries.last());
                assert(missing[missing.len() - 1] == entries.last().0);
            }
        }
    }
}

} // verus!
