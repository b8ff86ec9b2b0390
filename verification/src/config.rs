//! The networks that a Hardhat configuration declares.

use crate::matching::{captures_iter, regex_captures};
use crate::text::{
    lemma_text_lt_asymmetric, lemma_text_lt_total, lemma_text_lt_transitive, parse_decimal,
    parse_u64, text_eq, text_less, text_lt,
};
use vstd::prelude::*;
use vstd::string::*;

verus! {

/// The shape of a network block: a name, a colon, an opening brace and,
/// before the block closes, a `chainId` field with a number.
pub const NETWORK_PATTERN: &'static str = r#"(\w+):\s*\{[^}]*chainId:\s*(\d+)"#;

/// A deployment target: a name and the id of its chain.
#[derive(Debug, Clone, PartialEq, Eq)]
pub struct NetworkEntry {
    pub name: String,
    pub chain_id: u64,
}

impl View for NetworkEntry {
    type V = (Seq<char>, u64);

    open spec fn view(&self) -> (Seq<char>, u64) {
        (self.name@, self.chain_id)
    }
}

/// Why a configuration cannot be read.
#[derive(Debug, Clone, PartialEq, Eq)]
pub enum ConfigError {
    /// The chain id of a network is no unsigned 64-bit number.
    Parse { network: String, raw_value: String },
    /// The pattern of a network block was not accepted by the matcher.
    Pattern,
}

impl ConfigError {
    /// The message shown to the user.
    pub fn message(&self) -> (text: String)
        ensures
            text@ == match *self {
                ConfigError::Parse { network, raw_value } => "Invalid chain ID for network "@
                    + network@,
                ConfigError::Pattern => "Invalid pattern for network blocks"@,
            },
    {
        match self {
            ConfigError::Parse { network, raw_value: _ } => {
                let mut text = "Invalid chain ID for network ".to_owned();
                text.append(network.as_str());
                text
            },
            ConfigError::Pattern => "Invalid pattern for network blocks".to_owned(),
        }
    }
}

/// Whether a list of entries is in strictly ascending order of names.
pub open spec fn strictly_sorted(entries: Seq<(Seq<char>, u64)>) -> bool {
    forall|i: int, j: int|
        0 <= i < j < entries.len() ==> text_lt((#[trigger] entries[i]).0, (#[trigger] entries[j]).0)
}

/// Whether some entry of the list has the given name.
pub open spec fn has_name(entries: Seq<(Seq<char>, u64)>, name: Seq<char>) -> bool {
    exists|i: int| 0 <= i < entries.len() && (#[trigger] entries[i]).0 == name
}

/// Whether some entry of the list has the given chain id.
pub open spec fn has_chain_id(entries: Seq<(Seq<char>, u64)>, chain_id: u64) -> bool {
    exists|i: int| 0 <= i < entries.len() && (#[trigger] entries[i]).1 == chain_id
}

/// The place of an entry with the given name.
pub open spec fn index_of_name(entries: Seq<(Seq<char>, u64)>, name: Seq<char>) -> int {
    choose|i: int| 0 <= i < entries.len() && (#[trigger] entries[i]).0 == name
}

/// The mapping that a list of entries stands for.
pub open spec fn entries_map(entries: Seq<(Seq<char>, u64)>) -> Map<Seq<char>, u64> {
    Map::new(
        |name: Seq<char>| has_name(entries, name),
        |name: Seq<char>| entries[index_of_name(entries, name)].1,
    )
}

/// The mapping from network names to chain ids, kept in order of names.
#[derive(Debug, Clone, PartialEq, Eq)]
pub struct NetworkMap {
    entries: Vec<NetworkEntry>,
}

impl View for NetworkMap {
    type V = Map<Seq<char>, u64>;

    open spec fn view(&self) -> Map<Seq<char>, u64> {
        entries_map(self.entries())
    }
}

proof fn lemma_sorted_names_differ(entries: Seq<(Seq<char>, u64)>, i: int, j: int)
    requires
        strictly_sorted(entries),
        0 <= i < entries.len(),
        0 <= j < entries.len(),
        entries[i].0 == entries[j].0,
    ensures
        i == j,
{
    if i < j {
        lemma_text_lt_asymmetric(entries[i].0, entries[j].0);
    } else if j < i {
        lemma_text_lt_asymmetric(entries[j].0, entries[i].0);
    }
}

/// In a sorted list, the mapping gives each entry's name its chain id.
pub proof fn lemma_entry_in_map(entries: Seq<(Seq<char>, u64)>, i: int)
    requires
        strictly_sorted(entries),
        0 <= i < entries.len(),
    ensures
        entries_map(entries).dom().contains(entries[i].0),
        entries_map(entries)[entries[i].0] == entries[i].1,
{
    let name = entries[i].0;
    assert(has_name(entries, name));
    lemma_sorted_names_differ(entries, i, index_of_name(entries, name));
}

impl NetworkMap {
    /// The entries in ascending order of names.
    pub closed spec fn entries(&self) -> Seq<(Seq<char>, u64)> {
        self.entries@.map_values(|e: NetworkEntry| e@)
    }

    /// No name occurs twice, and the entries are in order of names.
    pub open spec fn wf(&self) -> bool {
        strictly_sorted(self.entries())
    }

    /// The mapping without networks.
    pub fn new() -> (networks: NetworkMap)
        ensures
            networks.wf(),
            networks.entries() == Seq::<(Seq<char>, u64)>::empty(),
            networks@ == Map::<Seq<char>, u64>::empty(),
    {
        let networks = NetworkMap { entries: Vec::new() };
        assert(networks.entries() =~= Seq::<(Seq<char>, u64)>::empty());
        assert(networks@ =~= Map::<Seq<char>, u64>::empty());
        networks
    }

    /// The number of networks.
    pub fn len(&self) -> (n: usize)
        ensures
            n == self.entries().len(),
    {
        self.entries.len()
    }

    /// The entry at a place in the order of names.
    pub fn entry(&self, i: usize) -> (e: &NetworkEntry)
        requires
            i < self.entries().len(),
        ensures
            e@ == self.entries()[i as int],
    {
        &self.entries[i]
    }

    /// The chain id of a network, if the mapping has it.
    pub fn get(&self, name: &str) -> (chain_id: Option<u64>)
        requires
            self.wf(),
        ensures
            chain_id == if self@.dom().contains(name@) {
                Some(self@[name@])
            } else {
                None
            },
    {
        let mut i: usize = 0;
        while i < self.entries.len()
            invariant
                i <= self.entries.len(),
                self.wf(),
                forall|k: int| 0 <= k < i ==> (#[trigger] self.entries()[k]).0 != name@,
            decreases self.entries.len() - i,
        {
            if text_eq(self.entries[i].name.as_str(), name) {
                proof {
                    lemma_entry_in_map(self.entries(), i as int);
                }
                return Some(self.entries[i].chain_id);
            }
            i += 1;
        }
        None
    }

    /// Whether some network has the given chain id.
    pub fn contains_chain_id(&self, chain_id: u64) -> (found: bool)
        ensures
            found == has_chain_id(self.entries(), chain_id),
    {
        let mut i: usize = 0;
        while i < self.entries.len()
            invariant
                i <= self.entries.len(),
                forall|k: int| 0 <= k < i ==> (#[trigger] self.entries()[k]).1 != chain_id,
            decreases self.entries.len() - i,
        {
            if self.entries[i].chain_id == chain_id {
                assert(self.entries()[i as int].1 == chain_id);
                return true;
            }
            i += 1;
        }
        false
    }

    /// Sets the chain id of a network, replacing the one it had.
    pub fn insert(&mut self, name: String, chain_id: u64)
        requires
            old(self).wf(),
        ensures
            final(self).wf(),
            final(self)@ == old(self)@.insert(name@, chain_id),
    {
        let ghost before = self.entries();
        let mut at: usize = 0;
        while at < self.entries.len() && text_less(self.entries[at].name.as_str(), name.as_str())
            invariant
                at <= self.entries.len(),
                self.entries() == before,
                forall|k: int| 0 <= k < at ==> text_lt((#[trigger] before[k]).0, name@),
            decreases self.entries.len() - at,
        {
            at += 1;
        }
        let replace = at < self.entries.len() && text_eq(
            self.entries[at].name.as_str(),
            name.as_str(),
        );
        let ghost pair = (name@, chain_id);
        let entry = NetworkEntry { name, chain_id };
        if replace {
            self.entries.set(at, entry);
            proof {
                let after = self.entries();
                assert(after =~= before.update(at as int, pair));
                lemma_replaced(before, at as int, pair);
            }
        } else {
            self.entries.insert(at, entry);
            proof {
                let after = self.entries();
                assert(after =~= before.insert(at as int, pair));
                if at < before.len() {
                    lemma_text_lt_total(before[at as int].0, pair.0);
                }
                lemma_inserted(before, at as int, pair);
            }
        }
    }
}

proof fn lemma_replaced(before: Seq<(Seq<char>, u64)>, at: int, pair: (Seq<char>, u64))
    requires
        strictly_sorted(before),
        0 <= at < before.len(),
        before[at].0 == pair.0,
    ensures
        strictly_sorted(before.update(at, pair)),
        entries_map(before.update(at, pair)) == entries_map(before).insert(pair.0, pair.1),
{
    let after = before.update(at, pair);
    assert forall|i: int, j: int| 0 <= i < j < after.len() implies text_lt(
        (#[trigger] after[i]).0,
        (#[trigger] after[j]).0,
    ) by {
        assert(after[i].0 == before[i].0);
        assert(after[j].0 == before[j].0);
    }
    let want = entries_map(before).insert(pair.0, pair.1);
    assert forall|name: Seq<char>| has_name(after, name) == want.dom().contains(name) by {
        if has_name(after, name) {
            let i = index_of_name(after, name);
            assert(before[i].0 == name);
        }
        if want.dom().contains(name) {
            if name == pair.0 {
                assert(after[at].0 == name);
            } else {
                let i = index_of_name(before, name);
                assert(after[i].0 == name);
            }
        }
    }
    assert forall|name: Seq<char>| has_name(after, name) implies entries_map(after)[name]
        == want[name] by {
        let i = index_of_name(after, name);
        assert(after[i].0 == name);
        lemma_entry_in_map(after, i);
        if i != at {
            if after[i].0 == after[at].0 {
                lemma_sorted_names_differ(after, i, at);
            }
            assert(before[i] == after[i]);
            lemma_entry_in_map(before, i);
        }
    }
    assert(entries_map(after) =~= want);
}

proof fn lemma_inserted(before: Seq<(Seq<char>, u64)>, at: int, pair: (Seq<char>, u64))
    requires
        strictly_sorted(before),
        0 <= at <= before.len(),
        forall|k: int| 0 <= k < at ==> text_lt((#[trigger] before[k]).0, pair.0),
        at < before.len() ==> text_lt(pair.0, before[at].0),
    ensures
        strictly_sorted(before.insert(at, pair)),
        entries_map(before.insert(at, pair)) == entries_map(before).insert(pair.0, pair.1),
{
    let after = before.insert(at, pair);
    assert forall|i: int, j: int| 0 <= i < j < after.len() implies text_lt(
        (#[trigger] after[i]).0,
        (#[trigger] after[j]).0,
    ) by {
        if j < at {
            assert(after[i] == before[i] && after[j] == before[j]);
        } else if j == at {
            assert(after[i] == before[i]);
        } else if i == at {
            assert(after[j] == before[j - 1]);
            if j - 1 > at {
                lemma_text_lt_transitive(pair.0, before[at].0, before[j - 1].0);
            }
        } else if i > at {
            assert(after[i] == before[i - 1] && after[j] == before[j - 1]);
        } else {
            assert(after[i] == before[i] && after[j] == before[j - 1]);
        }
    }
    let want = entries_map(before).insert(pair.0, pair.1);
    assert forall|name: Seq<char>| has_name(after, name) == want.dom().contains(name) by {
        if has_name(after, name) {
            let i = index_of_name(after, name);
            if i < at {
                assert(before[i].0 == name);
            } else if i > at {
                assert(before[i - 1].0 == name);
            }
        }
        if want.dom().contains(name) {
            if name == pair.0 {
                assert(after[at].0 == name);
            } else {
                let i = index_of_name(before, name);
                if i < at {
                    assert(after[i].0 == name);
                } else {
                    assert(after[i + 1].0 == name);
                }
            }
        }
    }
    assert forall|name: Seq<char>| has_name(after, name) implies entries_map(after)[name]
        == want[name] by {
        let i = index_of_name(after, name);
        assert(after[i].0 == name);
        lemma_entry_in_map(after, i);
        if i != at && after[i].0 == after[at].0 {
            lemma_sorted_names_differ(after, i, at);
        }
        if i < at {
            assert(before[i] == after[i]);
            lemma_entry_in_map(before, i);
        } else if i > at {
            assert(before[i - 1] == after[i]);
            lemma_entry_in_map(before, i - 1);
        }
    }
    assert(entries_map(after) =~= want);
}

/// The name and the raw chain id that a match holds in its first and second
/// groups; `None` for a match in which either took no part.
pub open spec fn capture_fields(groups: Seq<Option<Seq<char>>>) -> Option<(Seq<char>, Seq<char>)> {
    if groups.len() >= 3 && groups[1] is Some && groups[2] is Some {
        Some((groups[1]->0, groups[2]->0))
    } else {
        None
    }
}

/// The mapping that a run of matches declares: each match sets the chain id
/// of its network, so that the last match of a name decides. The first match
/// whose chain id is no unsigned 64-bit number fails the whole run, with the
/// name and the text that was found.
pub open spec fn extract_networks(captures: Seq<Seq<Option<Seq<char>>>>) -> Result<
    Map<Seq<char>, u64>,
    (Seq<char>, Seq<char>),
>
    decreases captures.len(),
{
    if captures.len() == 0 {
        Ok(Map::empty())
    } else {
        match extract_networks(captures.drop_last()) {
            Err(failure) => Err(failure),
            Ok(networks) => match capture_fields(captures.last()) {
                None => Ok(networks),
                Some((name, raw)) => match parse_decimal(raw) {
                    Some(chain_id) => Ok(networks.insert(name, chain_id)),
                    None => Err((name, raw)),
                },
            },
        }
    }
}

proof fn lemma_failure_stays(captures: Seq<Seq<Option<Seq<char>>>>, k: int)
    requires
        0 <= k <= captures.len(),
        extract_networks(captures.take(k)) is Err,
    ensures
        extract_networks(captures) == extract_networks(captures.take(k)),
    decreases captures.len() - k,
{
    if k == captures.len() {
        assert(captures.take(k) =~= captures);
    } else {
        assert(captures.take(k + 1).drop_last() =~= captures.take(k));
        lemma_failure_stays(captures, k + 1);
    }
}

/// Builds the mapping from the matches of the network pattern.
pub fn networks_from_captures(captures: &Vec<Vec<Option<String>>>) -> (outcome: Result<
    NetworkMap,
    ConfigError,
>)
    ensures
        match outcome {
            Ok(networks) => networks.wf() && extract_networks(captures.deep_view()) == Ok::<
                Map<Seq<char>, u64>,
                (Seq<char>, Seq<char>),
            >(networks@),
            Err(ConfigError::Parse { network, raw_value }) => extract_networks(
                captures.deep_view(),
            ) == Err::<Map<Seq<char>, u64>, (Seq<char>, Seq<char>)>((network@, raw_value@)),
            Err(ConfigError::Pattern) => false,
        },
{
    let ghost all = captures.deep_view();
    let mut networks = NetworkMap::new();
    let mut i: usize = 0;
    while i < captures.len()
        invariant
            i <= captures.len(),
            all == captures.deep_view(),
            networks.wf(),
            extract_networks(all.take(i as int)) == Ok::<
                Map<Seq<char>, u64>,
                (Seq<char>, Seq<char>),
            >(networks@),
        decreases captures.len() - i,
    {
        let groups = &captures[i];
        proof {
            assert(all.take(i + 1).drop_last() =~= all.take(i as int));
            assert(all.take(i + 1).last() == groups.deep_view());
            assert(groups.deep_view().len() == groups.len());
        }
        if groups.len() >= 3 {
            proof {
                assert(groups.deep_view()[1] == groups@[1].deep_view());
                assert(groups.deep_view()[2] == groups@[2].deep_view());
            }
            match (&groups[1], &groups[2]) {
                (Some(name), Some(raw)) => {
                    match parse_u64(raw.as_str()) {
                        Some(chain_id) => {
                            networks.insert(name.clone(), chain_id);
                        },
                        None => {
                            proof {
                                lemma_failure_stays(all, i + 1);
                            }
                            return Err(
                                ConfigError::Parse { network: name.clone(), raw_value: raw.clone() },
                            );
                        },
                    }
                },
                _ => {},
            }
        }
        i += 1;
    }
    proof {
        assert(all.take(captures.len() as int) =~= all);
    }
    Ok(networks)
}

/// What reading a configuration text comes to, given the matches of the
/// network pattern in it (`None`: the matcher did not take the pattern).
pub open spec fn config_outcome(matches: Option<Seq<Seq<Option<Seq<char>>>>>) -> Result<
    Map<Seq<char>, u64>,
    Option<(Seq<char>, Seq<char>)>,
> {
    match matches {
        None => Err(None),
        Some(captures) => match extract_networks(captures) {
            Ok(networks) => Ok(networks),
            Err(failure) => Err(Some(failure)),
        },
    }
}

/// What an error stands for: the network and the text of its chain id, or
/// `None` for the pattern that was not taken.
pub open spec fn failure_of(error: ConfigError) -> Option<(Seq<char>, Seq<char>)> {
    match error {
        ConfigError::Parse { network, raw_value } => Some((network@, raw_value@)),
        ConfigError::Pattern => None,
    }
}

/// What an outcome of `parse_hardhat_config` stands for.
pub open spec fn outcome_view(outcome: Result<NetworkMap, ConfigError>) -> Result<
    Map<Seq<char>, u64>,
    Option<(Seq<char>, Seq<char>)>,
> {
    match outcome {
        Ok(networks) => Ok(networks@),
        Err(error) => Err(failure_of(error)),
    }
}

/// Reads the networks that a text declares by the matches of a pattern: the
/// first group of a match is the name of a network, the second its chain id.
/// A pattern that the matcher does not take is an error.
pub fn parse_networks(pattern: &str, content: &str) -> (outcome: Result<NetworkMap, ConfigError>)
    ensures
        outcome matches Ok(networks) ==> networks.wf(),
        outcome_view(outcome) == config_outcome(regex_captures(pattern@, content@)),
{
    match captures_iter(pattern, content) {
        None => Err(ConfigError::Pattern),
        Some(captures) => networks_from_captures(&captures),
    }
}

/// Reads the networks that a configuration text declares.
///
/// Every match of [`NETWORK_PATTERN`] declares one network; a text without
/// matches declares none. The outcome is the one that [`extract_networks`]
/// gives for the matches.
pub fn parse_hardhat_config(content: &str) -> (outcome: Result<NetworkMap, ConfigError>)
    ensures
        outcome matches Ok(networks) ==> networks.wf(),
        outcome_view(outcome) == config_outcome(regex_captures(NETWORK_PATTERN@, content@)),
{
    parse_networks(NETWORK_PATTERN, content)
}

/// The network that a match names.
pub open spec fn capture_name(groups: Seq<Option<Seq<char>>>) -> Seq<char> {
    let (name, _) = capture_fields(groups)->0;
    name
}

/// The text that a match gives for the chain id.
pub open spec fn capture_raw(groups: Seq<Option<Seq<char>>>) -> Seq<char> {
    let (_, raw) = capture_fields(groups)->0;
    raw
}

/// Whether every match of a run names a network and gives it a chain id that
/// is an unsigned 64-bit number.
pub open spec fn all_well_formed(captures: Seq<Seq<Option<Seq<char>>>>) -> bool {
    forall|i: int|
        0 <= i < captures.len() ==> {
            &&& capture_fields(#[trigger] captures[i]) is Some
            &&& parse_decimal(capture_raw(captures[i])) is Some
        }
}

/// Whether no two matches of a run name the same network.
pub open spec fn names_distinct(captures: Seq<Seq<Option<Seq<char>>>>) -> bool {
    forall|i: int, j: int|
        0 <= i < j < captures.len() ==> capture_name(#[trigger] captures[i]) != capture_name(
            #[trigger] captures[j],
        )
}

/// A run of well-formed matches that name each network once declares as many
/// networks as it has matches: each match's network, with its chain id.
pub proof fn lemma_distinct_blocks_all_kept(captures: Seq<Seq<Option<Seq<char>>>>)
    requires
        all_well_formed(captures),
        names_distinct(captures),
    ensures
        extract_networks(captures) is Ok,
        extract_networks(captures)->Ok_0.dom().finite(),
        extract_networks(captures)->Ok_0.dom().len() == captures.len(),
        forall|i: int|
            0 <= i < captures.len() ==> {
                &&& extract_networks(captures)->Ok_0.dom().contains(
                    capture_name(#[trigger] captures[i]),
                )
                &&& Some(extract_networks(captures)->Ok_0[capture_name(captures[i])])
                    == parse_decimal(capture_raw(captures[i]))
            },
        forall|name: Seq<char>| #[trigger]
            extract_networks(captures)->Ok_0.dom().contains(name) ==> exists|i: int|
                0 <= i < captures.len() && capture_name(#[trigger] captures[i]) == name,
    decreases captures.len(),
{
    if captures.len() > 0 {
        let front = captures.drop_last();
        let n = captures.len() - 1;
        assert forall|i: int| 0 <= i < front.len() implies {
            &&& capture_fields(#[trigger] front[i]) is Some
            &&& parse_decimal(capture_raw(front[i])) is Some
        } by {
            assert(front[i] == captures[i]);
        }
        assert forall|i: int, j: int| 0 <= i < j < front.len() implies capture_name(
            #[trigger] front[i],
        ) != capture_name(#[trigger] front[j]) by {
            assert(front[i] == captures[i] && front[j] == captures[j]);
        }
        lemma_distinct_blocks_all_kept(front);
        let before = extract_networks(front)->Ok_0;
        let name = capture_name(captures[n]);
        let raw = capture_raw(captures[n]);
        assert(captures.last() == captures[n]);
        if before.dom().contains(name) {
            let i = choose|i: int| 0 <= i < front.len() && capture_name(#[trigger] front[i]) == name;
            assert(front[i] == captures[i]);
        }
        let after = extract_networks(captures)->Ok_0;
        assert(after == before.insert(name, parse_decimal(raw)->0));
        assert forall|i: int| 0 <= i < captures.len() implies {
            &&& after.dom().contains(capture_name(#[trigger] captures[i]))
            &&& Some(after[capture_name(captures[i])]) == parse_decimal(capture_raw(captures[i]))
        } by {
            if i < n {
                assert(front[i] == captures[i]);
            }
        }
        assert forall|other: Seq<char>| #[trigger] after.dom().contains(other) implies exists|
            i: int,
        |
            0 <= i < captures.len() && capture_name(#[trigger] captures[i]) == other by {
            if other == name {
                assert(capture_name(captures[n]) == other);
            } else {
                let i = choose|i: int|
                    0 <= i < front.len() && capture_name(#[trigger] front[i]) == other;
                assert(front[i] == captures[i]);
            }
        }
    }
}

/// The entries of a mapping: its pairs in ascending order of names.
pub open spec fn entries_of(networks: Map<Seq<char>, u64>) -> Seq<(Seq<char>, u64)> {
    choose|entries: Seq<(Seq<char>, u64)>|
        strictly_sorted(entries) && entries_map(entries) == networks
}

proof fn lemma_front_sorted(entries: Seq<(Seq<char>, u64)>)
    requires
        strictly_sorted(entries),
        entries.len() > 0,
    ensures
        strictly_sorted(entries.drop_last()),
        entries_map(entries.drop_last()) == entries_map(entries).remove(entries.last().0),
{
    let front = entries.drop_last();
    let n = entries.len() - 1;
    assert forall|i: int, j: int| 0 <= i < j < front.len() implies text_lt(
        (#[trigger] front[i]).0,
        (#[trigger] front[j]).0,
    ) by {
        assert(front[i] == entries[i] && front[j] == entries[j]);
    }
    let want = entries_map(entries).remove(entries.last().0);
    assert forall|name: Seq<char>| has_name(front, name) == want.dom().contains(name) by {
        if has_name(front, name) {
            let i = index_of_name(front, name);
            assert(entries[i] == front[i]);
            lemma_text_lt_asymmetric(entries[i].0, entries[n].0);
        }
        if want.dom().contains(name) {
            let i = index_of_name(entries, name);
            assert(front[i] == entries[i]);
        }
    }
    assert forall|name: Seq<char>| has_name(front, name) implies entries_map(front)[name]
        == want[name] by {
        let i = index_of_name(front, name);
        assert(front[i].0 == name);
        assert(entries[i] == front[i]);
        lemma_entry_in_map(front, i);
        lemma_entry_in_map(entries, i);
    }
    assert(entries_map(front) =~= want);
}

/// Two lists in order of names that stand for the same mapping are the same.
pub proof fn lemma_sorted_entries_unique(a: Seq<(Seq<char>, u64)>, b: Seq<(Seq<char>, u64)>)
    requires
        strictly_sorted(a),
        strictly_sorted(b),
        entries_map(a) == entries_map(b),
    ensures
        a == b,
    decreases a.len(),
{
    if a.len() == 0 {
        if b.len() > 0 {
            assert(has_name(b, b[0].0));
            assert(entries_map(b).dom().contains(b[0].0));
            assert(has_name(a, b[0].0));
        }
        assert(a =~= b);
    } else {
        let n = a.len() - 1;
        let x = a[n];
        assert(has_name(a, x.0));
        assert(entries_map(a).dom().contains(x.0));
        assert(has_name(b, x.0));
        let m = b.len() - 1;
        let y = b[m];
        assert(has_name(b, y.0));
        assert(entries_map(b).dom().contains(y.0));
        assert(has_name(a, y.0));
        let j = index_of_name(b, x.0);
        let i = index_of_name(a, y.0);
        if j < m {
            lemma_text_lt_asymmetric(b[j].0, b[m].0);
        }
        assert(x.0 == y.0);
        lemma_entry_in_map(a, n);
        lemma_entry_in_map(b, m);
        assert(x == y);
        lemma_front_sorted(a);
        lemma_front_sorted(b);
        lemma_sorted_entries_unique(a.drop_last(), b.drop_last());
        assert(a =~= a.drop_last().push(x));
        assert(b =~= b.drop_last().push(y));
    }
}

impl NetworkMap {
    /// The entries of a mapping are what the mapping alone decides.
    pub proof fn lemma_entries_determined(&self)
        requires
            self.wf(),
        ensures
            self.entries() == entries_of(self@),
    {
        let found = entries_of(self@);
        assert(strictly_sorted(self.entries()) && entries_map(self.entries()) == self@);
        lemma_sorted_entries_unique(self.entries(), found);
    }
}

} // verus!
