//! Aggregation: networks grouped into ecosystems by the prefix of their
//! names, with the main network of each ecosystem first.

use crate::text::{
    from_chars, lemma_text_lt_asymmetric, lemma_text_lt_total, lemma_text_lt_transitive, text_eq,
    text_less, text_lt, to_chars,
};
use crate::unicode::{char_is_uppercase, is_uppercase};
use vstd::prelude::*;

verus! {

/// One network of an ecosystem: what its name adds to the prefix, and its
/// address where it has one.
#[derive(Debug, Clone, PartialEq, Eq)]
pub struct GroupMember {
    pub suffix: String,
    pub address: Option<String>,
}

/// An ecosystem: the networks whose names share a prefix.
#[derive(Debug, Clone, PartialEq, Eq)]
pub struct AggregationGroup {
    pub prefix: String,
    pub members: Vec<GroupMember>,
}

/// What a member stands for.
pub struct MemberView {
    pub suffix: Seq<char>,
    pub address: Option<Seq<char>>,
}

/// What a group stands for.
pub struct GroupView {
    pub prefix: Seq<char>,
    pub members: Seq<MemberView>,
}

impl View for GroupMember {
    type V = MemberView;

    open spec fn view(&self) -> MemberView {
        MemberView { suffix: self.suffix@, address: self.address.deep_view() }
    }
}

impl View for AggregationGroup {
    type V = GroupView;

    open spec fn view(&self) -> GroupView {
        GroupView { prefix: self.prefix@, members: self.members@.map_values(|m: GroupMember| m@) }
    }
}

/// What a list of groups stands for.
pub open spec fn group_views(groups: Seq<AggregationGroup>) -> Seq<GroupView> {
    groups.map_values(|g: AggregationGroup| g@)
}

/// The suffix of the main network of an ecosystem, and of every network
/// whose name has no second part.
pub open spec fn mainnet() -> Seq<char> {
    seq!['M', 'a', 'i', 'n', 'n', 'e', 't']
}

/// The place of the first upper-case letter of a name at or after `from`; the
/// length of the name where there is none.
pub open spec fn boundary_from(name: Seq<char>, from: int) -> int
    decreases name.len() - from,
{
    if from >= name.len() {
        name.len() as int
    } else if is_uppercase(name[from]) {
        from
    } else {
        boundary_from(name, from + 1)
    }
}

/// Where a name splits: at its first upper-case letter that is not its first
/// character.
pub open spec fn split_point(name: Seq<char>) -> int {
    boundary_from(name, 1)
}

/// The part of a name before its split.
pub open spec fn name_prefix(name: Seq<char>) -> Seq<char> {
    name.take(split_point(name))
}

/// The part of a name from its split on; `Mainnet` for a name that does not
/// split.
pub open spec fn name_suffix(name: Seq<char>) -> Seq<char> {
    if split_point(name) >= name.len() {
        mainnet()
    } else {
        name.skip(split_point(name))
    }
}

proof fn lemma_boundary_in_range(name: Seq<char>, from: int)
    requires
        0 <= from,
    ensures
        from <= boundary_from(name, from) || boundary_from(name, from) == name.len(),
        boundary_from(name, from) <= name.len() || from > name.len(),
        0 <= boundary_from(name, from),
    decreases name.len() - from,
{
    if from < name.len() && !is_uppercase(name[from]) {
        lemma_boundary_in_range(name, from + 1);
    }
}

proof fn lemma_mainnet_literal()
    ensures
        "Mainnet"@ == mainnet(),
{
    reveal_strlit("Mainnet");
    assert("Mainnet"@ =~= mainnet());
}

/// Splits a network name into the prefix that names its ecosystem and the
/// suffix that names the network within it.
pub fn split_name(name: &str) -> (parts: (String, String))
    ensures
        parts.0@ == name_prefix(name@),
        parts.1@ == name_suffix(name@),
{
    let chars = to_chars(name);
    let n = chars.len();
    let mut at: usize = 1;
    if n == 0 {
        at = 0;
    }
    proof {
        lemma_boundary_in_range(name@, 1);
    }
    while at < n && !char_is_uppercase(chars[at])
        invariant
            at <= n,
            n == chars.len(),
            chars@ == name@,
            n > 0 ==> at >= 1,
            n > 0 ==> boundary_from(name@, 1) == boundary_from(name@, at as int),
        decreases n - at,
    {
        at += 1;
    }
    assert(split_point(name@) == at);
    let mut head: Vec<char> = Vec::new();
    let mut i: usize = 0;
    while i < at
        invariant
            i <= at <= n,
            n == chars.len(),
            head@ == chars@.take(i as int),
        decreases at - i,
    {
        head.push(chars[i]);
        proof {
            assert(chars@.take(i + 1) =~= chars@.take(i as int).push(chars@[i as int]));
        }
        i += 1;
    }
    let prefix = from_chars(&head);
    if at >= n {
        proof {
            lemma_mainnet_literal();
        }
        return (prefix, "Mainnet".to_owned());
    }
    let mut tail: Vec<char> = Vec::new();
    let mut j: usize = at;
    while j < n
        invariant
            at <= j <= n,
            n == chars.len(),
            tail@ == chars@.subrange(at as int, j as int),
        decreases n - j,
    {
        tail.push(chars[j]);
        proof {
            assert(chars@.subrange(at as int, j + 1) =~= chars@.subrange(at as int, j as int).push(
                chars@[j as int],
            ));
        }
        j += 1;
    }
    proof {
        assert(chars@.subrange(at as int, n as int) =~= chars@.skip(at as int));
    }
    (prefix, from_chars(&tail))
}

/// Whether a member with suffix `a` goes before one with suffix `b`:
/// `Mainnet` before every other suffix, and the others in the order of texts.
pub open spec fn suffix_before(a: Seq<char>, b: Seq<char>) -> bool {
    if a == mainnet() {
        b != mainnet()
    } else {
        b != mainnet() && text_lt(a, b)
    }
}

/// Whether the members of a group are in order: none goes before one that
/// stands earlier.
pub open spec fn members_ordered(members: Seq<MemberView>) -> bool {
    forall|i: int, j: int|
        0 <= i < j < members.len() ==> !suffix_before(
            (#[trigger] members[j]).suffix,
            (#[trigger] members[i]).suffix,
        )
}

/// Whether groups are in strictly ascending order of prefixes.
pub open spec fn groups_sorted(groups: Seq<GroupView>) -> bool {
    forall|i: int, j: int|
        0 <= i < j < groups.len() ==> text_lt(
            (#[trigger] groups[i]).prefix,
            (#[trigger] groups[j]).prefix,
        )
}

/// The place of a new member in a group: before the first member that it goes
/// before, at or after `from`.
pub open spec fn member_slot(members: Seq<MemberView>, suffix: Seq<char>, from: int) -> int
    decreases members.len() - from,
{
    if from >= members.len() {
        members.len() as int
    } else if suffix_before(suffix, members[from].suffix) {
        from
    } else {
        member_slot(members, suffix, from + 1)
    }
}

/// The place of a prefix among groups: that of the first group, at or after
/// `from`, whose prefix does not come before it.
pub open spec fn group_slot(groups: Seq<GroupView>, prefix: Seq<char>, from: int) -> int
    decreases groups.len() - from,
{
    if from >= groups.len() {
        groups.len() as int
    } else if !text_lt(groups[from].prefix, prefix) {
        from
    } else {
        group_slot(groups, prefix, from + 1)
    }
}

/// Groups with one more network: in the group of its prefix, which is made
/// where there is none, at its place among the members.
pub open spec fn with_member(groups: Seq<GroupView>, prefix: Seq<char>, member: MemberView) -> Seq<
    GroupView,
> {
    let at = group_slot(groups, prefix, 0);
    if at < groups.len() && groups[at].prefix == prefix {
        let members = groups[at].members;
        groups.update(
            at,
            GroupView {
                prefix,
                members: members.insert(member_slot(members, member.suffix, 0), member),
            },
        )
    } else {
        groups.insert(at, GroupView { prefix, members: seq![member] })
    }
}

/// The member that a network is in the group of its prefix.
pub open spec fn member_of(entry: (Seq<char>, Option<Seq<char>>)) -> MemberView {
    MemberView { suffix: name_suffix(entry.0), address: entry.1 }
}

/// The ecosystems of a list of networks, each given with its address where
/// it has one: the networks are taken in order, and each joins the group of
/// its prefix.
pub open spec fn aggregated(entries: Seq<(Seq<char>, Option<Seq<char>>)>) -> Seq<GroupView>
    decreases entries.len(),
{
    if entries.len() == 0 {
        Seq::empty()
    } else {
        with_member(
            aggregated(entries.drop_last()),
            name_prefix(entries.last().0),
            member_of(entries.last()),
        )
    }
}

/// Whether a member with suffix `a` goes before one with suffix `b`.
fn goes_before(a: &str, b: &str) -> (before: bool)
    ensures
        before == suffix_before(a@, b@),
{
    proof {
        lemma_mainnet_literal();
    }
    if text_eq(b, "Mainnet") {
        false
    } else if text_eq(a, "Mainnet") {
        true
    } else {
        text_less(a, b)
    }
}

/// Puts a network into the groups.
fn add_member(groups: &mut Vec<AggregationGroup>, prefix: String, member: GroupMember)
    ensures
        group_views(final(groups)@) == with_member(group_views(old(groups)@), prefix@, member@),
{
    let ghost before = group_views(groups@);
    let mut at: usize = 0;
    while at < groups.len() && text_less(groups[at].prefix.as_str(), prefix.as_str())
        invariant
            at <= groups.len(),
            before == group_views(groups@),
            group_slot(before, prefix@, 0) == group_slot(before, prefix@, at as int),
        decreases groups.len() - at,
    {
        at += 1;
    }
    assert(group_slot(before, prefix@, 0) == at);
    let joins = at < groups.len() && text_eq(groups[at].prefix.as_str(), prefix.as_str());
    if joins {
        let mut group = groups.remove(at);
        let ghost members = group@.members;
        assert(members == before[at as int].members);
        let mut slot: usize = 0;
        while slot < group.members.len() && !goes_before(
            member.suffix.as_str(),
            group.members[slot].suffix.as_str(),
        )
            invariant
                slot <= group.members.len(),
                members == group@.members,
                member_slot(members, member@.suffix, 0) == member_slot(
                    members,
                    member@.suffix,
                    slot as int,
                ),
            decreases group.members.len() - slot,
        {
            slot += 1;
        }
        assert(member_slot(members, member@.suffix, 0) == slot);
        let ghost added = member@;
        let ghost name = group.prefix@;
        group.members.insert(slot, member);
        proof {
            assert(group@.members =~= members.insert(slot as int, added));
            assert(group@.prefix == name);
        }
        let ghost replaced = group@;
        groups.insert(at, group);
        proof {
            assert(group_views(groups@) =~= before.update(at as int, replaced));
        }
    } else {
        let ghost added = member@;
        let mut members: Vec<GroupMember> = Vec::new();
        members.push(member);
        let group = AggregationGroup { prefix, members };
        proof {
            assert(group@.members =~= seq![added]);
        }
        let ghost made = group@;
        groups.insert(at, group);
        proof {
            assert(group_views(groups@) =~= before.insert(at as int, made));
        }
    }
}

/// What a list of networks stands for.
pub open spec fn entry_views(entries: Seq<(String, Option<String>)>) -> Seq<
    (Seq<char>, Option<Seq<char>>),
> {
    entries.map_values(|e: (String, Option<String>)| (e.0@, e.1.deep_view()))
}

/// Groups networks into ecosystems.
///
/// The groups come in ascending order of prefixes, one for each prefix. In
/// each group the members with suffix `Mainnet` come first and the others
/// follow in ascending order of suffixes; members with the same suffix keep
/// the order in which they were given.
pub fn aggregate(entries: &Vec<(String, Option<String>)>) -> (groups: Vec<AggregationGroup>)
    ensures
        group_views(groups@) == aggregated(entry_views(entries@)),
        groups_sorted(group_views(groups@)),
        forall|g: int| 0 <= g < groups.len() ==> members_ordered((#[trigger] groups@[g])@.members),
        forall|g: int| 0 <= g < groups.len() ==> (#[trigger] groups@[g]).members.len() > 0,
        forall|g: int, i: int, j: int|
            #![trigger groups@[g]@.members[i], groups@[g]@.members[j]]
            0 <= g < groups.len() && 0 <= i < groups@[g]@.members.len() && 0 <= j
                < groups@[g]@.members.len() && groups@[g]@.members[i].suffix == mainnet()
                && groups@[g]@.members[j].suffix != mainnet() ==> i < j,
{
    let ghost all = entry_views(entries@);
    let mut groups: Vec<AggregationGroup> = Vec::new();
    let mut i: usize = 0;
    proof {
        assert(all.take(0) =~= Seq::<(Seq<char>, Option<Seq<char>>)>::empty());
        assert(group_views(groups@) =~= Seq::<GroupView>::empty());
    }
    while i < entries.len()
        invariant
            i <= entries.len(),
            all == entry_views(entries@),
            group_views(groups@) == aggregated(all.take(i as int)),
        decreases entries.len() - i,
    {
        proof {
            assert(all.take(i + 1).drop_last() =~= all.take(i as int));
            assert(all.take(i + 1).last() == all[i as int]);
        }
        let (prefix, suffix) = split_name(entries[i].0.as_str());
        let address = entries[i].1.clone();
        proof {
            assert(address.deep_view() == entries@[i as int].1.deep_view());
        }
        add_member(&mut groups, prefix, GroupMember { suffix, address });
        i += 1;
    }
    proof {
        assert(all.take(entries.len() as int) =~= all);
        lemma_aggregated_in_order(all);
        let views = group_views(groups@);
        assert forall|g: int| 0 <= g < groups.len() implies members_ordered(
            (#[trigger] groups@[g])@.members,
        ) by {
            assert(views[g] == groups@[g]@);
        }
        assert forall|g: int| 0 <= g < groups.len() implies (#[trigger] groups@[g]).members.len()
            > 0 by {
            assert(views[g] == groups@[g]@);
        }
        assert forall|g: int, i: int, j: int|
            #![trigger groups@[g]@.members[i], groups@[g]@.members[j]]
            0 <= g < groups.len() && 0 <= i < groups@[g]@.members.len() && 0 <= j
                < groups@[g]@.members.len() && groups@[g]@.members[i].suffix == mainnet()
                && groups@[g]@.members[j].suffix != mainnet() implies i < j by {
            assert(views[g] == groups@[g]@);
            lemma_mainnet_first(views[g].members, i, j);
        }
    }
    groups
}

/// Whether groups are as aggregation leaves them: in order of prefixes, none
/// of them empty, and each with its members in order.
pub open spec fn well_grouped(groups: Seq<GroupView>) -> bool {
    &&& groups_sorted(groups)
    &&& forall|g: int| 0 <= g < groups.len() ==> members_ordered((#[trigger] groups[g]).members)
    &&& forall|g: int| 0 <= g < groups.len() ==> (#[trigger] groups[g]).members.len() > 0
}

proof fn lemma_suffix_before_transitive(a: Seq<char>, b: Seq<char>, c: Seq<char>)
    requires
        suffix_before(a, b),
        suffix_before(b, c),
    ensures
        suffix_before(a, c),
{
    if a != mainnet() {
        lemma_text_lt_transitive(a, b, c);
    }
}

proof fn lemma_suffix_before_asymmetric(a: Seq<char>, b: Seq<char>)
    requires
        suffix_before(a, b),
    ensures
        !suffix_before(b, a),
{
    if a != mainnet() {
        lemma_text_lt_asymmetric(a, b);
    }
}

proof fn lemma_member_slot(members: Seq<MemberView>, suffix: Seq<char>, from: int)
    requires
        0 <= from <= members.len(),
    ensures
        from <= member_slot(members, suffix, from) <= members.len(),
        forall|k: int|
            from <= k < member_slot(members, suffix, from) ==> !suffix_before(
                suffix,
                (#[trigger] members[k]).suffix,
            ),
        member_slot(members, suffix, from) < members.len() ==> suffix_before(
            suffix,
            members[member_slot(members, suffix, from)].suffix,
        ),
    decreases members.len() - from,
{
    if from < members.len() && !suffix_before(suffix, members[from].suffix) {
        lemma_member_slot(members, suffix, from + 1);
    }
}

proof fn lemma_group_slot(groups: Seq<GroupView>, prefix: Seq<char>, from: int)
    requires
        0 <= from <= groups.len(),
    ensures
        from <= group_slot(groups, prefix, from) <= groups.len(),
        forall|k: int|
            from <= k < group_slot(groups, prefix, from) ==> text_lt(
                (#[trigger] groups[k]).prefix,
                prefix,
            ),
        group_slot(groups, prefix, from) < groups.len() ==> !text_lt(
            groups[group_slot(groups, prefix, from)].prefix,
            prefix,
        ),
    decreases groups.len() - from,
{
    if from < groups.len() && text_lt(groups[from].prefix, prefix) {
        lemma_group_slot(groups, prefix, from + 1);
    }
}

proof fn lemma_member_insert_ordered(members: Seq<MemberView>, member: MemberView)
    requires
        members_ordered(members),
    ensures
        members_ordered(members.insert(member_slot(members, member.suffix, 0), member)),
{
    let at = member_slot(members, member.suffix, 0);
    lemma_member_slot(members, member.suffix, 0);
    let after = members.insert(at, member);
    assert forall|i: int, j: int| 0 <= i < j < after.len() implies !suffix_before(
        (#[trigger] after[j]).suffix,
        (#[trigger] after[i]).suffix,
    ) by {
        if j < at {
            assert(after[i] == members[i] && after[j] == members[j]);
        } else if j == at {
            assert(after[i] == members[i]);
        } else if i == at {
            assert(after[j] == members[j - 1]);
            if suffix_before(members[j - 1].suffix, member.suffix) {
                lemma_suffix_before_transitive(
                    members[j - 1].suffix,
                    member.suffix,
                    members[at].suffix,
                );
                lemma_suffix_before_asymmetric(member.suffix, members[at].suffix);
            }
        } else if i > at {
            assert(after[i] == members[i - 1] && after[j] == members[j - 1]);
        } else {
            assert(after[i] == members[i] && after[j] == members[j - 1]);
        }
    }
}

proof fn lemma_with_member_in_order(groups: Seq<GroupView>, prefix: Seq<char>, member: MemberView)
    requires
        well_grouped(groups),
    ensures
        well_grouped(with_member(groups, prefix, member)),
{
    let at = group_slot(groups, prefix, 0);
    lemma_group_slot(groups, prefix, 0);
    let after = with_member(groups, prefix, member);
    if at < groups.len() && groups[at].prefix == prefix {
        lemma_member_insert_ordered(groups[at].members, member);
        assert forall|i: int, j: int| 0 <= i < j < after.len() implies text_lt(
            (#[trigger] after[i]).prefix,
            (#[trigger] after[j]).prefix,
        ) by {
            assert(after[i].prefix == groups[i].prefix);
            assert(after[j].prefix == groups[j].prefix);
        }
        assert forall|g: int| 0 <= g < after.len() implies members_ordered(
            (#[trigger] after[g]).members,
        ) && after[g].members.len() > 0 by {
            if g != at {
                assert(after[g] == groups[g]);
            }
        }
    } else {
        if at < groups.len() {
            lemma_text_lt_total(groups[at].prefix, prefix);
        }
        assert forall|i: int, j: int| 0 <= i < j < after.len() implies text_lt(
            (#[trigger] after[i]).prefix,
            (#[trigger] after[j]).prefix,
        ) by {
            if j < at {
                assert(after[i] == groups[i] && after[j] == groups[j]);
            } else if j == at {
                assert(after[i] == groups[i]);
            } else if i == at {
                assert(after[j] == groups[j - 1]);
                if j - 1 > at {
                    lemma_text_lt_transitive(prefix, groups[at].prefix, groups[j - 1].prefix);
                }
            } else if i > at {
                assert(after[i] == groups[i - 1] && after[j] == groups[j - 1]);
            } else {
                assert(after[i] == groups[i] && after[j] == groups[j - 1]);
            }
        }
        assert forall|g: int| 0 <= g < after.len() implies members_ordered(
            (#[trigger] after[g]).members,
        ) && after[g].members.len() > 0 by {
            if g < at {
                assert(after[g] == groups[g]);
            } else if g > at {
                assert(after[g] == groups[g - 1]);
            }
        }
    }
}

/// Aggregation leaves the groups in order of prefixes, none of them empty,
/// and the members of each group in order.
pub proof fn lemma_aggregated_in_order(entries: Seq<(Seq<char>, Option<Seq<char>>)>)
    ensures
        well_grouped(aggregated(entries)),
    decreases entries.len(),
{
    if entries.len() > 0 {
        lemma_aggregated_in_order(entries.drop_last());
        lemma_with_member_in_order(
            aggregated(entries.drop_last()),
            name_prefix(entries.last().0),
            member_of(entries.last()),
        );
    }
}

/// Among members in order, one with suffix `Mainnet` stands before every one
/// with another suffix.
pub proof fn lemma_mainnet_first(members: Seq<MemberView>, i: int, j: int)
    requires
        members_ordered(members),
        0 <= i < members.len(),
        0 <= j < members.len(),
        members[i].suffix == mainnet(),
        members[j].suffix != mainnet(),
    ensures
        i < j,
{
    if j < i {
        assert(!suffix_before(members[i].suffix, members[j].suffix));
    }
}

/// In every group of an aggregation, whatever the order in which the
/// networks were given, a member with suffix `Mainnet` stands before every
/// member with another suffix.
pub proof fn lemma_aggregated_mainnet_first(
    entries: Seq<(Seq<char>, Option<Seq<char>>)>,
    g: int,
    i: int,
    j: int,
)
    requires
        0 <= g < aggregated(entries).len(),
        0 <= i < aggregated(entries)[g].members.len(),
        0 <= j < aggregated(entries)[g].members.len(),
        aggregated(entries)[g].members[i].suffix == mainnet(),
        aggregated(entries)[g].members[j].suffix != mainnet(),
    ensures
        i < j,
{
    lemma_aggregated_in_order(entries);
    lemma_mainnet_first(aggregated(entries)[g].members, i, j);
}

/// A name that splits is its prefix followed by its suffix; a name that does
/// not split is its own prefix.
pub proof fn lemma_split_rejoins(name: Seq<char>)
    ensures
        split_point(name) < name.len() ==> name_prefix(name) + name_suffix(name) == name,
        split_point(name) >= name.len() ==> name_prefix(name) == name && name_suffix(name)
            == mainnet(),
        name.len() > 0 ==> name_prefix(name).len() > 0,
{
    lemma_boundary_in_range(name, 1);
    let at = split_point(name);
    if at < name.len() {
        assert(name.take(at) + name.skip(at) =~= name);
    } else {
        assert(name.take(at) =~= name);
    }
}

/// Whether groups hold a member under a prefix.
pub open spec fn holds(groups: Seq<GroupView>, prefix: Seq<char>, member: MemberView) -> bool {
    exists|g: int, m: int|
        0 <= g < groups.len() && 0 <= m < groups[g].members.len() && (#[trigger] groups[g]).prefix
            == prefix && #[trigger] groups[g].members[m] == member
}

/// The number of members of all groups together.
pub open spec fn member_count(groups: Seq<GroupView>) -> nat
    decreases groups.len(),
{
    if groups.len() == 0 {
        0
    } else {
        member_count(groups.drop_last()) + groups.last().members.len()
    }
}

proof fn lemma_count_inserted(groups: Seq<GroupView>, at: int, group: GroupView)
    requires
        0 <= at <= groups.len(),
    ensures
        member_count(groups.insert(at, group)) == member_count(groups) + group.members.len(),
    decreases groups.len(),
{
    let after = groups.insert(at, group);
    if at == groups.len() {
        assert(after.drop_last() =~= groups);
    } else {
        lemma_count_inserted(groups.drop_last(), at, group);
        assert(after.drop_last() =~= groups.drop_last().insert(at, group));
        assert(after.last() == groups.last());
    }
}

proof fn lemma_count_updated(groups: Seq<GroupView>, at: int, group: GroupView)
    requires
        0 <= at < groups.len(),
    ensures
        member_count(groups.update(at, group)) + groups[at].members.len() == member_count(groups)
            + group.members.len(),
    decreases groups.len(),
{
    let after = groups.update(at, group);
    if at == groups.len() - 1 {
        assert(after.drop_last() =~= groups.drop_last());
    } else {
        lemma_count_updated(groups.drop_last(), at, group);
        assert(after.drop_last() =~= groups.drop_last().update(at, group));
        assert(after.last() == groups.last());
    }
}

proof fn lemma_with_member_keeps(groups: Seq<GroupView>, prefix: Seq<char>, member: MemberView)
    ensures
        holds(with_member(groups, prefix, member), prefix, member),
        forall|other: Seq<char>, kept: MemberView|
            holds(groups, other, kept) ==> holds(with_member(groups, prefix, member), other, kept),
        member_count(with_member(groups, prefix, member)) == member_count(groups) + 1,
{
    let at = group_slot(groups, prefix, 0);
    lemma_group_slot(groups, prefix, 0);
    let after = with_member(groups, prefix, member);
    if at < groups.len() && groups[at].prefix == prefix {
        let members = groups[at].members;
        let slot = member_slot(members, member.suffix, 0);
        lemma_member_slot(members, member.suffix, 0);
        let grown = members.insert(slot, member);
        lemma_count_updated(groups, at, GroupView { prefix, members: grown });
        assert(after[at].prefix == prefix && after[at].members[slot] == member);
        assert forall|other: Seq<char>, kept: MemberView| holds(groups, other, kept) implies holds(
            after,
            other,
            kept,
        ) by {
            let (g, m) = choose|g: int, m: int|
                0 <= g < groups.len() && 0 <= m < groups[g].members.len() && (
                #[trigger] groups[g]).prefix == other && #[trigger] groups[g].members[m] == kept;
            if g == at {
                if m < slot {
                    assert(after[g].prefix == other && after[g].members[m] == kept);
                } else {
                    assert(after[g].prefix == other && after[g].members[m + 1] == kept);
                }
            } else {
                assert(after[g] == groups[g]);
                assert(after[g].prefix == other && after[g].members[m] == kept);
            }
        }
    } else {
        let made = GroupView { prefix, members: seq![member] };
        lemma_count_inserted(groups, at, made);
        assert(after[at].prefix == prefix && after[at].members[0] == member);
        assert forall|other: Seq<char>, kept: MemberView| holds(groups, other, kept) implies holds(
            after,
            other,
            kept,
        ) by {
            let (g, m) = choose|g: int, m: int|
                0 <= g < groups.len() && 0 <= m < groups[g].members.len() && (
                #[trigger] groups[g]).prefix == other && #[trigger] groups[g].members[m] == kept;
            if g < at {
                assert(after[g] == groups[g]);
                assert(after[g].prefix == other && after[g].members[m] == kept);
            } else {
                assert(after[g + 1] == groups[g]);
                assert(after[g + 1].prefix == other && after[g + 1].members[m] == kept);
            }
        }
    }
}

/// Aggregation loses and adds nothing: every network is a member of the
/// group of its prefix, and the groups have as many members as there are
/// networks.
pub proof fn lemma_aggregated_keeps_all(entries: Seq<(Seq<char>, Option<Seq<char>>)>)
    ensures
        member_count(aggregated(entries)) == entries.len(),
        forall|i: int|
            0 <= i < entries.len() ==> holds(
                aggregated(entries),
                name_prefix((#[trigger] entries[i]).0),
                member_of(entries[i]),
            ),
    decreases entries.len(),
{
    if entries.len() > 0 {
        let front = entries.drop_last();
        let n = entries.len() - 1;
        lemma_aggregated_keeps_all(front);
        lemma_with_member_keeps(
            aggregated(front),
            name_prefix(entries.last().0),
            member_of(entries.last()),
        );
        assert forall|i: int| 0 <= i < entries.len() implies holds(
            aggregated(entries),
            name_prefix((#[trigger] entries[i]).0),
            member_of(entries[i]),
        ) by {
            if i < n {
                assert(front[i] == entries[i]);
            } else {
                assert(entries[i] == entries.last());
            }
        }
    }
}

} // verus!
