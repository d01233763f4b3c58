//! Access control rules and the records that belong to them.

use vstd::prelude::*;

use crate::ip::{IpAddr, IpNetwork, IpVersion, Ipv4Addr};
use crate::lists::{
    lemma_filter_all, lemma_filter_by_image, lemma_filter_holds, lemma_filter_next,
    lemma_filter_none, lemma_filter_start, lemma_filter_twice,
};
use crate::ports::PortRange;
use crate::{Id, NoId};

verus! {

/// How far a rule has come on its way to the gateways.
#[derive(Clone, Copy, Debug, PartialEq, Eq, Structural)]
pub enum RuleState {
    New,
    Modified,
    Applied,
}

/// An access control rule. `I` is `Id` once the rule is saved, and `NoId` before.
#[derive(Clone, Debug)]
pub struct AclRule<I> {
    pub id: I,
    pub parent_id: Option<Id>,
    pub state: RuleState,
    pub name: String,
    pub allow_all_users: bool,
    pub deny_all_users: bool,
    pub allow_all_network_devices: bool,
    pub deny_all_network_devices: bool,
    pub all_networks: bool,
    pub destination: Vec<IpNetwork>,
    pub ports: Vec<PortRange>,
    pub protocols: Vec<i32>,
    pub enabled: bool,
    /// The moment from which the rule no longer holds, in microseconds since 1970.
    pub expires: Option<i64>,
}

/// How the settings of an alias are used.
#[derive(Clone, Copy, Debug, PartialEq, Eq, Structural)]
pub enum AliasKind {
    /// The alias is a destination of its own, with its own firewall rules.
    Destination,
    /// The settings of the alias are added to those of the rule.
    Component,
}

/// Destination settings that several rules can share.
#[derive(Clone, Debug)]
pub struct AclAlias<I> {
    pub id: I,
    pub name: String,
    pub kind: AliasKind,
    pub destination: Vec<IpNetwork>,
    pub ports: Vec<PortRange>,
    pub protocols: Vec<i32>,
}

/// A location that a rule holds in.
#[derive(Clone, Copy, Debug, PartialEq, Eq, Structural)]
pub struct AclRuleNetwork<I> {
    pub id: I,
    pub rule_id: Id,
    pub network_id: Id,
}

/// A user whom a rule allows or denies access.
#[derive(Clone, Copy, Debug, PartialEq, Eq, Structural)]
pub struct AclRuleUser<I> {
    pub id: I,
    pub allow: bool,
    pub rule_id: Id,
    pub user_id: Id,
}

/// A group whose members a rule allows or denies access.
#[derive(Clone, Copy, Debug, PartialEq, Eq, Structural)]
pub struct AclRuleGroup<I> {
    pub id: I,
    pub allow: bool,
    pub rule_id: Id,
    pub group_id: Id,
}

/// A network device that a rule allows or denies access.
#[derive(Clone, Copy, Debug, PartialEq, Eq, Structural)]
pub struct AclRuleDevice<I> {
    pub id: I,
    pub allow: bool,
    pub rule_id: Id,
    pub device_id: Id,
}

/// An alias that a rule uses.
#[derive(Clone, Copy, Debug, PartialEq, Eq, Structural)]
pub struct AclRuleAlias<I> {
    pub id: I,
    pub rule_id: Id,
    pub alias_id: Id,
}

/// A range of destination addresses of a rule.
#[derive(Clone, Copy, Debug, PartialEq, Eq, Structural)]
pub struct AclRuleDestinationRange<I> {
    pub id: I,
    pub rule_id: Id,
    pub start: IpAddr,
    pub end: IpAddr,
}

impl<I> AclRuleDestinationRange<I> {
    /// Whether the address of the given version with number `x` lies in the range. A range whose
    /// ends are of different versions, or whose start lies above its end, holds no address.
    pub open spec fn has(self, version: IpVersion, x: int) -> bool {
        &&& self.start.ip_version() == version
        &&& self.end.ip_version() == version
        &&& self.start.value() <= x <= self.end.value()
    }
}

impl Default for AclRuleDestinationRange<Id> {
    fn default() -> (range: Self)
        ensures
            range.id == 0,
            range.rule_id == 0,
            range.start == IpAddr::V4(Ipv4Addr { bits: 0 }),
            range.end == IpAddr::V4(Ipv4Addr { bits: 0 }),
    {
        Self {
            id: 0,
            rule_id: 0,
            start: IpAddr::V4(Ipv4Addr::unspecified()),
            end: IpAddr::V4(Ipv4Addr::unspecified()),
        }
    }
}

/// What a record that ties something to a rule says: the rule, the location, user, group, device
/// or alias, and whether it is allowed or denied. Locations and aliases count as allowed.
#[derive(Clone, Copy, Debug, PartialEq, Eq, Structural)]
pub struct Relation {
    pub rule_id: Id,
    pub member: Id,
    pub allow: bool,
}

/// A record that ties something to a rule.
pub trait RuleRow: Sized {
    /// What the record says.
    spec fn says(self) -> Relation;

    /// What the record says.
    fn relation(&self) -> (relation: Relation)
        ensures
            relation == self.says(),
    ;
}

impl<I> RuleRow for AclRuleNetwork<I> {
    open spec fn says(self) -> Relation {
        Relation { rule_id: self.rule_id, member: self.network_id, allow: true }
    }

    fn relation(&self) -> (relation: Relation) {
        Relation { rule_id: self.rule_id, member: self.network_id, allow: true }
    }
}

impl<I> RuleRow for AclRuleUser<I> {
    open spec fn says(self) -> Relation {
        Relation { rule_id: self.rule_id, member: self.user_id, allow: self.allow }
    }

    fn relation(&self) -> (relation: Relation) {
        Relation { rule_id: self.rule_id, member: self.user_id, allow: self.allow }
    }
}

impl<I> RuleRow for AclRuleGroup<I> {
    open spec fn says(self) -> Relation {
        Relation { rule_id: self.rule_id, member: self.group_id, allow: self.allow }
    }

    fn relation(&self) -> (relation: Relation) {
        Relation { rule_id: self.rule_id, member: self.group_id, allow: self.allow }
    }
}

impl<I> RuleRow for AclRuleDevice<I> {
    open spec fn says(self) -> Relation {
        Relation { rule_id: self.rule_id, member: self.device_id, allow: self.allow }
    }

    fn relation(&self) -> (relation: Relation) {
        Relation { rule_id: self.rule_id, member: self.device_id, allow: self.allow }
    }
}

impl<I> RuleRow for AclRuleAlias<I> {
    open spec fn says(self) -> Relation {
        Relation { rule_id: self.rule_id, member: self.alias_id, allow: true }
    }

    fn relation(&self) -> (relation: Relation) {
        Relation { rule_id: self.rule_id, member: self.alias_id, allow: true }
    }
}

/// What records say, in their order.
pub open spec fn relations<R: RuleRow>(rows: Seq<R>) -> Seq<Relation> {
    rows.map_values(|row: R| row.says())
}

/// What the relations of a rule allow, or deny, in their order.
pub open spec fn members(relations: Seq<Relation>, rule_id: Id, allow: bool) -> Seq<Id> {
    relations.filter(|r: Relation| r.rule_id == rule_id && r.allow == allow).map_values(
        |r: Relation| r.member,
    )
}

/// What the records of a rule allow, or deny, in their order.
fn select_members<R: RuleRow>(rows: &Vec<R>, rule_id: Id, allow: bool) -> (selected: Vec<Id>)
    ensures
        selected@ == members(relations(rows@), rule_id, allow),
{
    let ghost all = relations(rows@);
    let mut selected: Vec<Id> = Vec::new();
    let mut i: usize = 0;
    proof {
        reveal(Seq::filter);
        assert(members(all.take(0), rule_id, allow) =~= selected@);
    }
    while i < rows.len()
        invariant
            i <= rows.len(),
            all == relations(rows@),
            selected@ == members(all.take(i as int), rule_id, allow),
        decreases rows.len() - i,
    {
        let relation: Relation = rows[i].relation();
        proof {
            let wanted = |r: Relation| r.rule_id == rule_id && r.allow == allow;
            let member = |r: Relation| r.member;
            assert(all.take(i + 1).drop_last() =~= all.take(i as int));
            assert(all.take(i + 1).last() == relation);
            reveal(Seq::filter);
            let before = all.take(i as int).filter(wanted);
            assert(before.push(relation).map_values(member) =~= before.map_values(member).push(
                relation.member,
            ));
        }
        if relation.rule_id == rule_id && relation.allow == allow {
            selected.push(relation.member);
        }
        i = i + 1;
    }
    assert(all.take(i as int) =~= all);
    selected
}

/// The records of all rules.
#[derive(Clone, Debug)]
pub struct AclTables {
    pub rules: Vec<AclRule<Id>>,
    pub aliases: Vec<AclAlias<Id>>,
    pub rule_networks: Vec<AclRuleNetwork<Id>>,
    pub rule_users: Vec<AclRuleUser<Id>>,
    pub rule_groups: Vec<AclRuleGroup<Id>>,
    pub rule_devices: Vec<AclRuleDevice<Id>>,
    pub rule_destination_ranges: Vec<AclRuleDestinationRange<Id>>,
    pub rule_aliases: Vec<AclRuleAlias<Id>>,
}

/// A rule with everything that is tied to it.
#[derive(Clone, Debug)]
pub struct AclRuleInfo<'a> {
    pub rule: &'a AclRule<Id>,
    pub networks: Vec<Id>,
    pub allowed_users: Vec<Id>,
    pub denied_users: Vec<Id>,
    pub allowed_groups: Vec<Id>,
    pub denied_groups: Vec<Id>,
    pub allowed_devices: Vec<Id>,
    pub denied_devices: Vec<Id>,
    pub destination_ranges: Vec<AclRuleDestinationRange<Id>>,
    pub aliases: Vec<&'a AclAlias<Id>>,
}

/// What an [`AclRuleInfo`] holds.
#[verifier::ext_equal]
pub struct AclRuleInfoView {
    pub rule: AclRule<Id>,
    pub networks: Seq<Id>,
    pub allowed_users: Seq<Id>,
    pub denied_users: Seq<Id>,
    pub allowed_groups: Seq<Id>,
    pub denied_groups: Seq<Id>,
    pub allowed_devices: Seq<Id>,
    pub denied_devices: Seq<Id>,
    pub destination_ranges: Seq<AclRuleDestinationRange<Id>>,
    pub aliases: Seq<AclAlias<Id>>,
}

impl<'a> View for AclRuleInfo<'a> {
    type V = AclRuleInfoView;

    open spec fn view(&self) -> AclRuleInfoView {
        AclRuleInfoView {
            rule: *self.rule,
            networks: self.networks@,
            allowed_users: self.allowed_users@,
            denied_users: self.denied_users@,
            allowed_groups: self.allowed_groups@,
            denied_groups: self.denied_groups@,
            allowed_devices: self.allowed_devices@,
            denied_devices: self.denied_devices@,
            destination_ranges: self.destination_ranges@,
            aliases: self.aliases@.map_values(|alias: &AclAlias<Id>| *alias),
        }
    }
}

/// The saved aliases with the given ids, in the order of the ids. An id that no alias has is left
/// out, and of several aliases with one id the first is taken.
pub open spec fn aliases_with_ids(aliases: Seq<AclAlias<Id>>, ids: Seq<Id>) -> Seq<AclAlias<Id>>
    decreases ids.len(),
{
    if ids.len() == 0 {
        seq![]
    } else {
        let before = aliases_with_ids(aliases, ids.drop_last());
        match alias_with_id(aliases, ids.last()) {
            Some(alias) => before.push(alias),
            None => before,
        }
    }
}

/// The first alias with the given id.
pub open spec fn alias_with_id(aliases: Seq<AclAlias<Id>>, id: Id) -> Option<AclAlias<Id>>
    decreases aliases.len(),
{
    if aliases.len() == 0 {
        None
    } else if aliases[0].id == id {
        Some(aliases[0])
    } else {
        alias_with_id(aliases.drop_first(), id)
    }
}

/// The destination ranges of a rule, in their order.
pub open spec fn ranges_of(rows: Seq<AclRuleDestinationRange<Id>>, rule_id: Id) -> Seq<
    AclRuleDestinationRange<Id>,
> {
    rows.filter(|range: AclRuleDestinationRange<Id>| range.rule_id == rule_id)
}

/// A saved rule with everything that the records tie to it.
pub open spec fn rule_info(rule: AclRule<Id>, tables: AclTables) -> AclRuleInfoView {
    let id = rule.id;
    AclRuleInfoView {
        rule,
        networks: members(relations(tables.rule_networks@), id, true),
        allowed_users: members(relations(tables.rule_users@), id, true),
        denied_users: members(relations(tables.rule_users@), id, false),
        allowed_groups: members(relations(tables.rule_groups@), id, true),
        denied_groups: members(relations(tables.rule_groups@), id, false),
        allowed_devices: members(relations(tables.rule_devices@), id, true),
        denied_devices: members(relations(tables.rule_devices@), id, false),
        destination_ranges: ranges_of(tables.rule_destination_ranges@, id),
        aliases: aliases_with_ids(
            tables.aliases@,
            members(relations(tables.rule_aliases@), id, true),
        ),
    }
}

fn find_alias<'a>(aliases: &'a Vec<AclAlias<Id>>, id: Id) -> (alias: Option<&'a AclAlias<Id>>)
    ensures
        alias is Some <==> alias_with_id(aliases@, id) is Some,
        alias matches Some(a) ==> alias_with_id(aliases@, id) == Some(*a),
{
    let mut i: usize = 0;
    assert(aliases@.skip(0) =~= aliases@);
    while i < aliases.len()
        invariant
            i <= aliases.len(),
            alias_with_id(aliases@.skip(i as int), id) == alias_with_id(aliases@, id),
        decreases aliases.len() - i,
    {
        assert(aliases@.skip(i as int)[0] == aliases@[i as int]);
        assert(aliases@.skip(i as int).drop_first() =~= aliases@.skip(i + 1));
        if aliases[i].id == id {
            return Some(&aliases[i]);
        }
        i = i + 1;
    }
    None
}

fn select_aliases<'a>(aliases: &'a Vec<AclAlias<Id>>, ids: &Vec<Id>) -> (selected: Vec<
    &'a AclAlias<Id>,
>)
    ensures
        selected@.map_values(|alias: &AclAlias<Id>| *alias) == aliases_with_ids(aliases@, ids@),
{
    let mut selected: Vec<&'a AclAlias<Id>> = Vec::new();
    let mut i: usize = 0;
    while i < ids.len()
        invariant
            i <= ids.len(),
            selected@.map_values(|alias: &AclAlias<Id>| *alias) =~= aliases_with_ids(
                aliases@,
                ids@.take(i as int),
            ),
        decreases ids.len() - i,
    {
        assert(ids@.take(i + 1).drop_last() =~= ids@.take(i as int));
        match find_alias(aliases, ids[i]) {
            Some(alias) => {
                selected.push(alias);
            },
            None => {},
        }
        i = i + 1;
    }
    assert(ids@.take(i as int) =~= ids@);
    selected
}

fn select_ranges(rows: &Vec<AclRuleDestinationRange<Id>>, rule_id: Id) -> (selected: Vec<
    AclRuleDestinationRange<Id>,
>)
    ensures
        selected@ == ranges_of(rows@, rule_id),
{
    let ghost wanted = |range: AclRuleDestinationRange<Id>| range.rule_id == rule_id;
    let mut selected: Vec<AclRuleDestinationRange<Id>> = Vec::new();
    let mut i: usize = 0;
    proof {
        lemma_filter_start(rows@, wanted);
    }
    while i < rows.len()
        invariant
            i <= rows.len(),
            wanted == (|range: AclRuleDestinationRange<Id>| range.rule_id == rule_id),
            selected@ == rows@.take(i as int).filter(wanted),
        decreases rows.len() - i,
    {
        proof {
            lemma_filter_next(rows@, i as int, wanted);
        }
        if rows[i].rule_id == rule_id {
            selected.push(rows[i]);
        }
        i = i + 1;
    }
    assert(rows@.take(i as int) =~= rows@);
    selected
}

impl AclRule<Id> {
    /// Collects what the records tie to the rule.
    pub fn to_info<'a>(&'a self, tables: &'a AclTables) -> (info: AclRuleInfo<'a>)
        ensures
            info@ == rule_info(*self, *tables),
            info.rule == self,
    {
        let alias_ids: Vec<Id> = select_members(&tables.rule_aliases, self.id, true);
        AclRuleInfo {
            rule: self,
            networks: select_members(&tables.rule_networks, self.id, true),
            allowed_users: select_members(&tables.rule_users, self.id, true),
            denied_users: select_members(&tables.rule_users, self.id, false),
            allowed_groups: select_members(&tables.rule_groups, self.id, true),
            denied_groups: select_members(&tables.rule_groups, self.id, false),
            allowed_devices: select_members(&tables.rule_devices, self.id, true),
            denied_devices: select_members(&tables.rule_devices, self.id, false),
            destination_ranges: select_ranges(&tables.rule_destination_ranges, self.id),
            aliases: select_aliases(&tables.aliases, &alias_ids),
        }
    }
}

/// A record that is yet to be saved and ties something to a rule.
pub trait NewRow: RuleRow {
    /// Whether such records tell what is allowed, or what is denied.
    spec fn can_say(allow: bool) -> bool;

    /// The record that says so.
    fn tie(relation: Relation) -> (row: Self)
        requires
            Self::can_say(relation.allow),
        ensures
            row.says() == relation,
    ;
}

impl NewRow for AclRuleNetwork<NoId> {
    open spec fn can_say(allow: bool) -> bool {
        allow
    }

    fn tie(relation: Relation) -> (row: Self) {
        AclRuleNetwork { id: NoId, rule_id: relation.rule_id, network_id: relation.member }
    }
}

impl NewRow for AclRuleUser<NoId> {
    open spec fn can_say(allow: bool) -> bool {
        true
    }

    fn tie(relation: Relation) -> (row: Self) {
        AclRuleUser {
            id: NoId,
            allow: relation.allow,
            rule_id: relation.rule_id,
            user_id: relation.member,
        }
    }
}

impl NewRow for AclRuleGroup<NoId> {
    open spec fn can_say(allow: bool) -> bool {
        true
    }

    fn tie(relation: Relation) -> (row: Self) {
        AclRuleGroup {
            id: NoId,
            allow: relation.allow,
            rule_id: relation.rule_id,
            group_id: relation.member,
        }
    }
}

impl NewRow for AclRuleDevice<NoId> {
    open spec fn can_say(allow: bool) -> bool {
        true
    }

    fn tie(relation: Relation) -> (row: Self) {
        AclRuleDevice {
            id: NoId,
            allow: relation.allow,
            rule_id: relation.rule_id,
            device_id: relation.member,
        }
    }
}

impl NewRow for AclRuleAlias<NoId> {
    open spec fn can_say(allow: bool) -> bool {
        allow
    }

    fn tie(relation: Relation) -> (row: Self) {
        AclRuleAlias { id: NoId, rule_id: relation.rule_id, alias_id: relation.member }
    }
}

/// The relations that tie the given ids to a rule, in the order of the ids.
pub open spec fn ties(rule_id: Id, ids: Seq<Id>, allow: bool) -> Seq<Relation> {
    ids.map_values(|id: Id| Relation { rule_id, member: id, allow })
}

/// Adds the records that tie the given ids to a rule.
fn tie_all<R: NewRow>(rows: &mut Vec<R>, rule_id: Id, ids: &Vec<Id>, allow: bool)
    requires
        R::can_say(allow),
    ensures
        relations(final(rows)@) == relations(old(rows)@) + ties(rule_id, ids@, allow),
{
    let ghost before = relations(rows@);
    let mut i: usize = 0;
    while i < ids.len()
        invariant
            i <= ids.len(),
            R::can_say(allow),
            relations(rows@) =~= before + ties(rule_id, ids@.take(i as int), allow),
        decreases ids.len() - i,
    {
        let relation: Relation = Relation { rule_id, member: ids[i], allow };
        let row: R = R::tie(relation);
        proof {
            assert(relations(rows@.push(row)) =~= relations(rows@).push(relation));
            assert(ties(rule_id, ids@.take(i + 1), allow) =~= ties(
                rule_id,
                ids@.take(i as int),
                allow,
            ).push(relation));
        }
        rows.push(row);
        i = i + 1;
    }
    assert(ids@.take(i as int) =~= ids@);
}

/// A new rule with the records that tie everything to it, yet to be saved.
#[derive(Clone, Debug)]
pub struct NewAclRule {
    pub rule: AclRule<Id>,
    pub networks: Vec<AclRuleNetwork<NoId>>,
    pub users: Vec<AclRuleUser<NoId>>,
    pub groups: Vec<AclRuleGroup<NoId>>,
    pub devices: Vec<AclRuleDevice<NoId>>,
    pub destination_ranges: Vec<AclRuleDestinationRange<NoId>>,
    pub aliases: Vec<AclRuleAlias<NoId>>,
}

/// A record of any kind that is yet to be saved.
#[derive(Clone, Copy, Debug, PartialEq, Eq)]
pub enum NewRuleRow {
    Network(AclRuleNetwork<NoId>),
    User(AclRuleUser<NoId>),
    Group(AclRuleGroup<NoId>),
    Device(AclRuleDevice<NoId>),
    DestinationRange(AclRuleDestinationRange<NoId>),
    Alias(AclRuleAlias<NoId>),
}

/// The records that belong to a new rule, in the order in which they are saved: locations, users,
/// groups, devices, destination ranges and aliases.
pub open spec fn new_rows(created: NewAclRule) -> Seq<NewRuleRow> {
    created.networks@.map_values(|row: AclRuleNetwork<NoId>| NewRuleRow::Network(row))
        + created.users@.map_values(|row: AclRuleUser<NoId>| NewRuleRow::User(row))
        + created.groups@.map_values(|row: AclRuleGroup<NoId>| NewRuleRow::Group(row))
        + created.devices@.map_values(|row: AclRuleDevice<NoId>| NewRuleRow::Device(row))
        + created.destination_ranges@.map_values(
        |row: AclRuleDestinationRange<NoId>| NewRuleRow::DestinationRange(row),
    ) + created.aliases@.map_values(|row: AclRuleAlias<NoId>| NewRuleRow::Alias(row))
}

/// A record of one kind, as a record of any kind.
trait Wrap: Copy {
    /// The record as one of any kind.
    spec fn wrapped(self) -> NewRuleRow;

    /// The record as one of any kind.
    fn wrap(self) -> (row: NewRuleRow)
        ensures
            row == self.wrapped(),
    ;
}

impl Wrap for AclRuleNetwork<NoId> {
    spec fn wrapped(self) -> NewRuleRow {
        NewRuleRow::Network(self)
    }

    fn wrap(self) -> (row: NewRuleRow) {
        NewRuleRow::Network(self)
    }
}

impl Wrap for AclRuleUser<NoId> {
    spec fn wrapped(self) -> NewRuleRow {
        NewRuleRow::User(self)
    }

    fn wrap(self) -> (row: NewRuleRow) {
        NewRuleRow::User(self)
    }
}

impl Wrap for AclRuleGroup<NoId> {
    spec fn wrapped(self) -> NewRuleRow {
        NewRuleRow::Group(self)
    }

    fn wrap(self) -> (row: NewRuleRow) {
        NewRuleRow::Group(self)
    }
}

impl Wrap for AclRuleDevice<NoId> {
    spec fn wrapped(self) -> NewRuleRow {
        NewRuleRow::Device(self)
    }

    fn wrap(self) -> (row: NewRuleRow) {
        NewRuleRow::Device(self)
    }
}

impl Wrap for AclRuleDestinationRange<NoId> {
    spec fn wrapped(self) -> NewRuleRow {
        NewRuleRow::DestinationRange(self)
    }

    fn wrap(self) -> (row: NewRuleRow) {
        NewRuleRow::DestinationRange(self)
    }
}

impl Wrap for AclRuleAlias<NoId> {
    spec fn wrapped(self) -> NewRuleRow {
        NewRuleRow::Alias(self)
    }

    fn wrap(self) -> (row: NewRuleRow) {
        NewRuleRow::Alias(self)
    }
}

/// Adds the records to the list.
fn push_wrapped<R: Wrap>(rows: &mut Vec<NewRuleRow>, more: &Vec<R>)
    ensures
        final(rows)@ == old(rows)@ + more@.map_values(|row: R| row.wrapped()),
{
    let ghost before = rows@;
    let mut i: usize = 0;
    while i < more.len()
        invariant
            i <= more.len(),
            rows@ =~= before + more@.take(i as int).map_values(|row: R| row.wrapped()),
        decreases more.len() - i,
    {
        rows.push(more[i].wrap());
        i = i + 1;
    }
    assert(more@.take(i as int) =~= more@);
}

impl NewAclRule {
    /// The records that belong to the rule, in the order in which they are saved.
    pub fn rows(self) -> (rows: Vec<NewRuleRow>)
        ensures
            rows@ == new_rows(self),
    {
        let mut rows: Vec<NewRuleRow> = Vec::new();
        push_wrapped(&mut rows, &self.networks);
        push_wrapped(&mut rows, &self.users);
        push_wrapped(&mut rows, &self.groups);
        push_wrapped(&mut rows, &self.devices);
        push_wrapped(&mut rows, &self.destination_ranges);
        push_wrapped(&mut rows, &self.aliases);
        assert(rows@ =~= new_rows(self));
        rows
    }
}

/// A rule under the id that it was saved with.
pub open spec fn saved_rule(rule: AclRule<NoId>, id: Id) -> AclRule<Id> {
    AclRule {
        id,
        parent_id: rule.parent_id,
        state: rule.state,
        name: rule.name,
        allow_all_users: rule.allow_all_users,
        deny_all_users: rule.deny_all_users,
        allow_all_network_devices: rule.allow_all_network_devices,
        deny_all_network_devices: rule.deny_all_network_devices,
        all_networks: rule.all_networks,
        destination: rule.destination,
        ports: rule.ports,
        protocols: rule.protocols,
        enabled: rule.enabled,
        expires: rule.expires,
    }
}

impl AclRule<NoId> {
    /// The rule under the id that it was saved with.
    pub fn with_id(self, id: Id) -> (rule: AclRule<Id>)
        ensures
            rule == saved_rule(self, id),
    {
        AclRule {
            id,
            parent_id: self.parent_id,
            state: self.state,
            name: self.name,
            allow_all_users: self.allow_all_users,
            deny_all_users: self.deny_all_users,
            allow_all_network_devices: self.allow_all_network_devices,
            deny_all_network_devices: self.deny_all_network_devices,
            all_networks: self.all_networks,
            destination: self.destination,
            ports: self.ports,
            protocols: self.protocols,
            enabled: self.enabled,
            expires: self.expires,
        }
    }
}

/// The records of destination ranges of a rule, in the order of the ranges.
pub open spec fn range_rows(rule_id: Id, ranges: Seq<(IpAddr, IpAddr)>) -> Seq<
    AclRuleDestinationRange<NoId>,
> {
    ranges.map_values(
        |range: (IpAddr, IpAddr)|
            AclRuleDestinationRange { id: NoId, rule_id, start: range.0, end: range.1 },
    )
}

/// What a new rule is tied to.
pub struct RuleTies {
    pub locations: Seq<Id>,
    pub allowed_users: Seq<Id>,
    pub denied_users: Seq<Id>,
    pub allowed_groups: Seq<Id>,
    pub denied_groups: Seq<Id>,
    pub allowed_network_devices: Seq<Id>,
    pub denied_network_devices: Seq<Id>,
    pub destination_ranges: Seq<(IpAddr, IpAddr)>,
    pub aliases: Seq<Id>,
}

/// The records are those of a rule with these ties: one for each of them, in their order, and what
/// is allowed before what is denied.
pub open spec fn has_ties(created: NewAclRule, rule_id: Id, tied: RuleTies) -> bool {
    &&& relations(created.networks@) == ties(rule_id, tied.locations, true)
    &&& relations(created.users@) == ties(rule_id, tied.allowed_users, true) + ties(
        rule_id,
        tied.denied_users,
        false,
    )
    &&& relations(created.groups@) == ties(rule_id, tied.allowed_groups, true) + ties(
        rule_id,
        tied.denied_groups,
        false,
    )
    &&& relations(created.devices@) == ties(rule_id, tied.allowed_network_devices, true) + ties(
        rule_id,
        tied.denied_network_devices,
        false,
    )
    &&& created.destination_ranges@ == range_rows(rule_id, tied.destination_ranges)
    &&& relations(created.aliases@) == ties(rule_id, tied.aliases, true)
}

/// Prepares the records that make up a rule, once the rule itself is saved under `rule_id`.
pub fn create_acl_rule(
    rule: AclRule<NoId>,
    rule_id: Id,
    locations: Vec<Id>,
    allowed_users: Vec<Id>,
    denied_users: Vec<Id>,
    allowed_groups: Vec<Id>,
    denied_groups: Vec<Id>,
    allowed_network_devices: Vec<Id>,
    denied_network_devices: Vec<Id>,
    destination_ranges: Vec<(IpAddr, IpAddr)>,
    aliases: Vec<Id>,
) -> (created: NewAclRule)
    ensures
        created.rule == saved_rule(rule, rule_id),
        has_ties(
            created,
            rule_id,
            (RuleTies {
                locations: locations@,
                allowed_users: allowed_users@,
                denied_users: denied_users@,
                allowed_groups: allowed_groups@,
                denied_groups: denied_groups@,
                allowed_network_devices: allowed_network_devices@,
                denied_network_devices: denied_network_devices@,
                destination_ranges: destination_ranges@,
                aliases: aliases@,
            }),
        ),
{
    let mut networks: Vec<AclRuleNetwork<NoId>> = Vec::new();
    tie_all(&mut networks, rule_id, &locations, true);
    let mut users: Vec<AclRuleUser<NoId>> = Vec::new();
    tie_all(&mut users, rule_id, &allowed_users, true);
    tie_all(&mut users, rule_id, &denied_users, false);
    let mut groups: Vec<AclRuleGroup<NoId>> = Vec::new();
    tie_all(&mut groups, rule_id, &allowed_groups, true);
    tie_all(&mut groups, rule_id, &denied_groups, false);
    let mut devices: Vec<AclRuleDevice<NoId>> = Vec::new();
    tie_all(&mut devices, rule_id, &allowed_network_devices, true);
    tie_all(&mut devices, rule_id, &denied_network_devices, false);
    let mut rule_aliases: Vec<AclRuleAlias<NoId>> = Vec::new();
    tie_all(&mut rule_aliases, rule_id, &aliases, true);
    let mut ranges: Vec<AclRuleDestinationRange<NoId>> = Vec::new();
    let mut i: usize = 0;
    while i < destination_ranges.len()
        invariant
            i <= destination_ranges.len(),
            ranges@ =~= range_rows(rule_id, destination_ranges@.take(i as int)),
        decreases destination_ranges.len() - i,
    {
        let (start, end) = destination_ranges[i];
        ranges.push(AclRuleDestinationRange { id: NoId, rule_id, start, end });
        i = i + 1;
    }
    assert(destination_ranges@.take(i as int) =~= destination_ranges@);
    assert(relations(networks@) =~= ties(rule_id, locations@, true));
    assert(relations(rule_aliases@) =~= ties(rule_id, aliases@, true));
    assert(relations(users@) =~= ties(rule_id, allowed_users@, true) + ties(
        rule_id,
        denied_users@,
        false,
    ));
    assert(relations(groups@) =~= ties(rule_id, allowed_groups@, true) + ties(
        rule_id,
        denied_groups@,
        false,
    ));
    assert(relations(devices@) =~= ties(rule_id, allowed_network_devices@, true) + ties(
        rule_id,
        denied_network_devices@,
        false,
    ));
    NewAclRule {
        rule: rule.with_id(rule_id),
        networks,
        users,
        groups,
        devices,
        destination_ranges: ranges,
        aliases: rule_aliases,
    }
}

/// A saved range, without its id.
pub open spec fn unsaved_range(range: AclRuleDestinationRange<Id>) -> AclRuleDestinationRange<NoId> {
    AclRuleDestinationRange {
        id: NoId,
        rule_id: range.rule_id,
        start: range.start,
        end: range.end,
    }
}

/// `after` are the records of `before`, unchanged, and behind them saved ones that say what the new
/// ones say.
pub open spec fn appended<R: RuleRow, N: RuleRow>(
    before: Seq<R>,
    new: Seq<N>,
    after: Seq<R>,
) -> bool {
    &&& before.len() <= after.len()
    &&& after.take(before.len() as int) == before
    &&& relations(after.skip(before.len() as int)) == relations(new)
}

/// `after` are the ranges of `before`, unchanged, and behind them the new ones, saved.
pub open spec fn appended_ranges(
    before: Seq<AclRuleDestinationRange<Id>>,
    new: Seq<AclRuleDestinationRange<NoId>>,
    after: Seq<AclRuleDestinationRange<Id>>,
) -> bool {
    &&& before.len() <= after.len()
    &&& after.take(before.len() as int) == before
    &&& after.skip(before.len() as int).map_values(
        |r: AclRuleDestinationRange<Id>| unsaved_range(r),
    ) == new
}

/// `after` are the records of `before`, unchanged, with those of the new rule saved behind them.
pub open spec fn stored(before: AclTables, created: NewAclRule, after: AclTables) -> bool {
    &&& appended(before.rule_networks@, created.networks@, after.rule_networks@)
    &&& appended(before.rule_users@, created.users@, after.rule_users@)
    &&& appended(before.rule_groups@, created.groups@, after.rule_groups@)
    &&& appended(before.rule_devices@, created.devices@, after.rule_devices@)
    &&& appended_ranges(
        before.rule_destination_ranges@,
        created.destination_ranges@,
        after.rule_destination_ranges@,
    )
    &&& appended(before.rule_aliases@, created.aliases@, after.rule_aliases@)
}

/// The records of a rule, in their order.
pub open spec fn rows_of<R: RuleRow>(rows: Seq<R>, rule_id: Id) -> Seq<R> {
    rows.filter(|row: R| row.says().rule_id == rule_id)
}

proof fn lemma_appended<R: RuleRow, N: RuleRow>(before: Seq<R>, new: Seq<N>, after: Seq<R>)
    requires
        appended(before, new, after),
    ensures
        relations(after) == relations(before) + relations(new),
{
    let n = before.len() as int;
    assert(after =~= after.take(n) + after.skip(n));
    assert(relations(after) =~= relations(after.take(n)) + relations(after.skip(n)));
}

/// Records that are all tied to one rule leave the records of another one alone.
proof fn lemma_other_rows<R: RuleRow, N: RuleRow>(
    before: Seq<R>,
    new: Seq<N>,
    after: Seq<R>,
    rule_id: Id,
    allowed: Seq<Id>,
    denied: Seq<Id>,
    other: Id,
)
    requires
        other != rule_id,
        appended(before, new, after),
        relations(new) == ties(rule_id, allowed, true) + ties(rule_id, denied, false),
    ensures
        rows_of(after, other) == rows_of(before, other),
{
    let n = before.len() as int;
    let wanted = |row: R| row.says().rule_id == other;
    let added = after.skip(n);
    assert(after =~= after.take(n) + added);
    let said = ties(rule_id, allowed, true) + ties(rule_id, denied, false);
    assert(added.len() == relations(added).len() == said.len());
    assert forall|i: int| 0 <= i < added.len() implies !wanted(#[trigger] added[i]) by {
        assert(added[i].says() == relations(added)[i]);
        assert(relations(added)[i] == said[i]);
    }
    lemma_filter_none(added, wanted);
    Seq::filter_distributes_over_add(after.take(n), added, wanted);
    assert(rows_of(before, other) + Seq::<R>::empty() =~= rows_of(before, other));
}

proof fn lemma_other_ranges(
    before: Seq<AclRuleDestinationRange<Id>>,
    ranges: Seq<(IpAddr, IpAddr)>,
    after: Seq<AclRuleDestinationRange<Id>>,
    rule_id: Id,
    other: Id,
)
    requires
        other != rule_id,
        appended_ranges(before, range_rows(rule_id, ranges), after),
    ensures
        ranges_of(after, other) == ranges_of(before, other),
{
    let n = before.len() as int;
    let wanted = |range: AclRuleDestinationRange<Id>| range.rule_id == other;
    let bare = |r: AclRuleDestinationRange<Id>| unsaved_range(r);
    let added = after.skip(n);
    assert(after =~= after.take(n) + added);
    assert(added.len() == added.map_values(bare).len());
    assert forall|i: int| 0 <= i < added.len() implies !wanted(#[trigger] added[i]) by {
        assert(unsaved_range(added[i]) == added.map_values(bare)[i]);
        assert(added.map_values(bare)[i] == range_rows(rule_id, ranges)[i]);
    }
    lemma_filter_none(added, wanted);
    Seq::filter_distributes_over_add(after.take(n), added, wanted);
    assert(ranges_of(before, other) + Seq::<AclRuleDestinationRange<Id>>::empty() =~= ranges_of(
        before,
        other,
    ));
}

/// No record is tied to the rule.
pub open spec fn unused(tables: AclTables, rule_id: Id) -> bool {
    &&& forall|i: int|
        0 <= i < tables.rule_networks@.len() ==> (#[trigger] tables.rule_networks@[i]).rule_id
            != rule_id
    &&& forall|i: int|
        0 <= i < tables.rule_users@.len() ==> (#[trigger] tables.rule_users@[i]).rule_id != rule_id
    &&& forall|i: int|
        0 <= i < tables.rule_groups@.len() ==> (#[trigger] tables.rule_groups@[i]).rule_id
            != rule_id
    &&& forall|i: int|
        0 <= i < tables.rule_devices@.len() ==> (#[trigger] tables.rule_devices@[i]).rule_id
            != rule_id
    &&& forall|i: int|
        0 <= i < tables.rule_destination_ranges@.len() ==> (
        #[trigger] tables.rule_destination_ranges@[i]).rule_id != rule_id
    &&& forall|i: int|
        0 <= i < tables.rule_aliases@.len() ==> (#[trigger] tables.rule_aliases@[i]).rule_id
            != rule_id
}

proof fn lemma_members_add(a: Seq<Relation>, b: Seq<Relation>, rule_id: Id, allow: bool)
    ensures
        members(a + b, rule_id, allow) == members(a, rule_id, allow) + members(b, rule_id, allow),
{
    let wanted = |r: Relation| r.rule_id == rule_id && r.allow == allow;
    Seq::filter_distributes_over_add(a, b, wanted);
    assert(members(a + b, rule_id, allow) =~= members(a, rule_id, allow) + members(
        b,
        rule_id,
        allow,
    ));
}

proof fn lemma_members_of_ties(rule_id: Id, ids: Seq<Id>, allow: bool, other: Id, wanted: bool)
    ensures
        members(ties(rule_id, ids, allow), other, wanted) == if other == rule_id && wanted == allow {
            ids
        } else {
            Seq::<Id>::empty()
        },
    decreases ids.len(),
{
    reveal(Seq::filter);
    let all = ties(rule_id, ids, allow);
    if ids.len() == 0 {
        assert(all =~= Seq::<Relation>::empty());
        assert(members(all, other, wanted) =~= Seq::<Id>::empty());
    } else {
        let rest = ids.drop_last();
        lemma_members_of_ties(rule_id, rest, allow, other, wanted);
        assert(all.drop_last() =~= ties(rule_id, rest, allow));
        if other == rule_id && wanted == allow {
            assert(members(all, other, wanted) =~= members(
                ties(rule_id, rest, allow),
                other,
                wanted,
            ).push(ids.last()));
            assert(rest.push(ids.last()) =~= ids);
        }
    }
}

proof fn lemma_members_none(relations: Seq<Relation>, rule_id: Id, allow: bool)
    requires
        forall|i: int| 0 <= i < relations.len() ==> (#[trigger] relations[i]).rule_id != rule_id,
    ensures
        members(relations, rule_id, allow) == Seq::<Id>::empty(),
    decreases relations.len(),
{
    reveal(Seq::filter);
    if relations.len() > 0 {
        lemma_members_none(relations.drop_last(), rule_id, allow);
    }
    assert(members(relations, rule_id, allow) =~= Seq::<Id>::empty());
}

/// What ids a relation table gives back, after a new rule's ids were added to it.
proof fn lemma_members_stored(
    before: Seq<Relation>,
    rule_id: Id,
    allowed: Seq<Id>,
    denied: Seq<Id>,
    other: Id,
    wanted: bool,
)
    ensures
        members(
            before + (ties(rule_id, allowed, true) + ties(rule_id, denied, false)),
            other,
            wanted,
        ) == members(before, other, wanted) + if other != rule_id {
            Seq::<Id>::empty()
        } else if wanted {
            allowed
        } else {
            denied
        },
{
    let a = ties(rule_id, allowed, true);
    let d = ties(rule_id, denied, false);
    lemma_members_add(before, a + d, other, wanted);
    lemma_members_add(a, d, other, wanted);
    lemma_members_of_ties(rule_id, allowed, true, other, wanted);
    lemma_members_of_ties(rule_id, denied, false, other, wanted);
    assert(members(a + d, other, wanted) =~= if other != rule_id {
        Seq::<Id>::empty()
    } else if wanted {
        allowed
    } else {
        denied
    });
}

/// A rule that is read after it was created has exactly the locations, users, groups, devices,
/// destination ranges and aliases that it was created with.
pub proof fn lemma_created_rule_reads_back(
    before: AclTables,
    after: AclTables,
    created: NewAclRule,
    rule_id: Id,
    tied: RuleTies,
)
    requires
        unused(before, rule_id),
        stored(before, created, after),
        created.rule.id == rule_id,
        has_ties(created, rule_id, tied),
    ensures
        ({
            let info = rule_info(created.rule, after);
            &&& info.rule == created.rule
            &&& info.networks == tied.locations
            &&& info.allowed_users == tied.allowed_users
            &&& info.denied_users == tied.denied_users
            &&& info.allowed_groups == tied.allowed_groups
            &&& info.denied_groups == tied.denied_groups
            &&& info.allowed_devices == tied.allowed_network_devices
            &&& info.denied_devices == tied.denied_network_devices
            &&& info.destination_ranges.map_values(
                |r: AclRuleDestinationRange<Id>| unsaved_range(r),
            ) == range_rows(rule_id, tied.destination_ranges)
            &&& info.aliases == aliases_with_ids(after.aliases@, tied.aliases)
        }),
{
    let none = Seq::<Id>::empty();
    let no_ties = ties(rule_id, none, false);
    assert(no_ties =~= Seq::<Relation>::empty());
    lemma_appended(before.rule_networks@, created.networks@, after.rule_networks@);
    lemma_appended(before.rule_users@, created.users@, after.rule_users@);
    lemma_appended(before.rule_groups@, created.groups@, after.rule_groups@);
    lemma_appended(before.rule_devices@, created.devices@, after.rule_devices@);
    lemma_appended(before.rule_aliases@, created.aliases@, after.rule_aliases@);
    lemma_rows_unused(relations(before.rule_networks@), before.rule_networks@, rule_id);
    lemma_rows_unused(relations(before.rule_users@), before.rule_users@, rule_id);
    lemma_rows_unused(relations(before.rule_groups@), before.rule_groups@, rule_id);
    lemma_rows_unused(relations(before.rule_devices@), before.rule_devices@, rule_id);
    lemma_rows_unused(relations(before.rule_aliases@), before.rule_aliases@, rule_id);

    let networks = relations(before.rule_networks@);
    lemma_members_none(networks, rule_id, true);
    lemma_members_stored(networks, rule_id, tied.locations, none, rule_id, true);
    assert(ties(rule_id, tied.locations, true) + no_ties =~= ties(rule_id, tied.locations, true));
    assert(none + tied.locations =~= tied.locations);

    lemma_read_members(relations(before.rule_users@), rule_id, tied.allowed_users, tied.denied_users);
    lemma_read_members(relations(before.rule_groups@), rule_id, tied.allowed_groups, tied.denied_groups);
    lemma_read_members(
        relations(before.rule_devices@),
        rule_id,
        tied.allowed_network_devices,
        tied.denied_network_devices,
    );

    let rule_aliases = relations(before.rule_aliases@);
    lemma_members_none(rule_aliases, rule_id, true);
    lemma_members_stored(rule_aliases, rule_id, tied.aliases, none, rule_id, true);
    assert(ties(rule_id, tied.aliases, true) + no_ties =~= ties(rule_id, tied.aliases, true));
    assert(none + tied.aliases =~= tied.aliases);

    lemma_read_ranges(
        before.rule_destination_ranges@,
        after.rule_destination_ranges@,
        rule_id,
        tied.destination_ranges,
    );
}

proof fn lemma_rows_unused<R: RuleRow>(said: Seq<Relation>, rows: Seq<R>, rule_id: Id)
    requires
        said == relations(rows),
        forall|i: int| 0 <= i < rows.len() ==> (#[trigger] rows[i]).says().rule_id != rule_id,
    ensures
        forall|i: int| 0 <= i < said.len() ==> (#[trigger] said[i]).rule_id != rule_id,
{
    assert forall|i: int| 0 <= i < said.len() implies (#[trigger] said[i]).rule_id != rule_id by {
        assert(rows[i].says().rule_id != rule_id);
    }
}

proof fn lemma_read_members(
    before: Seq<Relation>,
    rule_id: Id,
    allowed: Seq<Id>,
    denied: Seq<Id>,
)
    requires
        forall|i: int| 0 <= i < before.len() ==> (#[trigger] before[i]).rule_id != rule_id,
    ensures
        ({
            let after = before + (ties(rule_id, allowed, true) + ties(rule_id, denied, false));
            &&& members(after, rule_id, true) == allowed
            &&& members(after, rule_id, false) == denied
        }),
{
    lemma_members_none(before, rule_id, true);
    lemma_members_none(before, rule_id, false);
    lemma_members_stored(before, rule_id, allowed, denied, rule_id, true);
    lemma_members_stored(before, rule_id, allowed, denied, rule_id, false);
    assert(Seq::<Id>::empty() + allowed =~= allowed);
    assert(Seq::<Id>::empty() + denied =~= denied);
}

proof fn lemma_read_ranges(
    before: Seq<AclRuleDestinationRange<Id>>,
    after: Seq<AclRuleDestinationRange<Id>>,
    rule_id: Id,
    ranges: Seq<(IpAddr, IpAddr)>,
)
    requires
        forall|i: int| 0 <= i < before.len() ==> (#[trigger] before[i]).rule_id != rule_id,
        appended_ranges(before, range_rows(rule_id, ranges), after),
    ensures
        ranges_of(after, rule_id).map_values(|r: AclRuleDestinationRange<Id>| unsaved_range(r))
            == range_rows(rule_id, ranges),
{
    let bare = |r: AclRuleDestinationRange<Id>| unsaved_range(r);
    let wanted = |range: AclRuleDestinationRange<Id>| range.rule_id == rule_id;
    let n = before.len() as int;
    let added = after.skip(n);
    assert(after =~= after.take(n) + added);
    assert(added.len() == added.map_values(bare).len());
    assert forall|i: int| 0 <= i < added.len() implies wanted(#[trigger] added[i]) by {
        assert(unsaved_range(added[i]) == added.map_values(bare)[i]);
        assert(added.map_values(bare)[i] == range_rows(rule_id, ranges)[i]);
    }
    lemma_filter_none(before, wanted);
    lemma_filter_all(added, wanted);
    Seq::filter_distributes_over_add(after.take(n), added, wanted);
    assert(ranges_of(after, rule_id) =~= added);
}

/// Creating a rule leaves every other rule as it was: the records that are tied to it, their ids
/// included, and with them everything that is read of it.
pub proof fn lemma_creation_leaves_other_rules(
    before: AclTables,
    after: AclTables,
    created: NewAclRule,
    rule_id: Id,
    tied: RuleTies,
    other: AclRule<Id>,
)
    requires
        other.id != rule_id,
        after.aliases == before.aliases,
        stored(before, created, after),
        has_ties(created, rule_id, tied),
    ensures
        rows_of(after.rule_networks@, other.id) == rows_of(before.rule_networks@, other.id),
        rows_of(after.rule_users@, other.id) == rows_of(before.rule_users@, other.id),
        rows_of(after.rule_groups@, other.id) == rows_of(before.rule_groups@, other.id),
        rows_of(after.rule_devices@, other.id) == rows_of(before.rule_devices@, other.id),
        rows_of(after.rule_aliases@, other.id) == rows_of(before.rule_aliases@, other.id),
        ranges_of(after.rule_destination_ranges@, other.id) == ranges_of(
            before.rule_destination_ranges@,
            other.id,
        ),
        rule_info(other, after) == rule_info(other, before),
{
    let id = other.id;
    let none = Seq::<Id>::empty();
    assert(ties(rule_id, tied.locations, true) + ties(rule_id, none, false) =~= ties(
        rule_id,
        tied.locations,
        true,
    ));
    assert(ties(rule_id, tied.aliases, true) + ties(rule_id, none, false) =~= ties(
        rule_id,
        tied.aliases,
        true,
    ));
    lemma_other_rows(
        before.rule_networks@,
        created.networks@,
        after.rule_networks@,
        rule_id,
        tied.locations,
        none,
        id,
    );
    lemma_other_rows(
        before.rule_users@,
        created.users@,
        after.rule_users@,
        rule_id,
        tied.allowed_users,
        tied.denied_users,
        id,
    );
    lemma_other_rows(
        before.rule_groups@,
        created.groups@,
        after.rule_groups@,
        rule_id,
        tied.allowed_groups,
        tied.denied_groups,
        id,
    );
    lemma_other_rows(
        before.rule_devices@,
        created.devices@,
        after.rule_devices@,
        rule_id,
        tied.allowed_network_devices,
        tied.denied_network_devices,
        id,
    );
    lemma_other_rows(
        before.rule_aliases@,
        created.aliases@,
        after.rule_aliases@,
        rule_id,
        tied.aliases,
        none,
        id,
    );
    lemma_other_ranges(
        before.rule_destination_ranges@,
        tied.destination_ranges,
        after.rule_destination_ranges@,
        rule_id,
        id,
    );
    lemma_members_of_rows(before.rule_networks@, after.rule_networks@, id, true);
    lemma_members_of_rows(before.rule_users@, after.rule_users@, id, true);
    lemma_members_of_rows(before.rule_users@, after.rule_users@, id, false);
    lemma_members_of_rows(before.rule_groups@, after.rule_groups@, id, true);
    lemma_members_of_rows(before.rule_groups@, after.rule_groups@, id, false);
    lemma_members_of_rows(before.rule_devices@, after.rule_devices@, id, true);
    lemma_members_of_rows(before.rule_devices@, after.rule_devices@, id, false);
    lemma_members_of_rows(before.rule_aliases@, after.rule_aliases@, id, true);
}

/// What is read of a rule depends on its own records only.
proof fn lemma_members_of_rows<R: RuleRow>(a: Seq<R>, b: Seq<R>, rule_id: Id, allow: bool)
    requires
        rows_of(a, rule_id) == rows_of(b, rule_id),
    ensures
        members(relations(a), rule_id, allow) == members(relations(b), rule_id, allow),
{
    let says = |row: R| row.says();
    let of_rule = |row: R| row.says().rule_id == rule_id;
    let tied = |r: Relation| r.rule_id == rule_id;
    let permitted = |r: Relation| r.allow == allow;
    let wanted = |r: Relation| r.rule_id == rule_id && r.allow == allow;
    lemma_filter_by_image(a, says, of_rule, tied);
    lemma_filter_by_image(b, says, of_rule, tied);
    lemma_filter_twice(relations(a), tied, permitted, wanted);
    lemma_filter_twice(relations(b), tied, permitted, wanted);
}

proof fn lemma_members_push<R: RuleRow>(rows: Seq<R>, row: R, rule_id: Id, allow: bool)
    ensures
        members(relations(rows.push(row)), rule_id, allow) == if row.says().rule_id == rule_id
            && row.says().allow == allow {
            members(relations(rows), rule_id, allow).push(row.says().member)
        } else {
            members(relations(rows), rule_id, allow)
        },
{
    let wanted = |r: Relation| r.rule_id == rule_id && r.allow == allow;
    let member = |r: Relation| r.member;
    let before = relations(rows);
    let after = relations(rows.push(row));
    reveal(Seq::filter);
    assert(after.drop_last() =~= before);
    assert(after.last() == row.says());
    assert(before.filter(wanted).push(row.says()).map_values(member) =~= before.filter(
        wanted,
    ).map_values(member).push(row.says().member));
}

/// What is read of a rule, record by record: a record behind a table adds what it ties to the rule
/// behind what the table ties to it, if it is a record of the rule that allows where the allowed
/// are asked for, or denies where the denied are. It adds nothing otherwise.
pub proof fn lemma_reading_goes_record_by_record(
    networks: Seq<AclRuleNetwork<Id>>,
    network: AclRuleNetwork<Id>,
    users: Seq<AclRuleUser<Id>>,
    user: AclRuleUser<Id>,
    groups: Seq<AclRuleGroup<Id>>,
    group: AclRuleGroup<Id>,
    devices: Seq<AclRuleDevice<Id>>,
    device: AclRuleDevice<Id>,
    aliases: Seq<AclRuleAlias<Id>>,
    alias: AclRuleAlias<Id>,
    ranges: Seq<AclRuleDestinationRange<Id>>,
    range: AclRuleDestinationRange<Id>,
    rule_id: Id,
    allow: bool,
)
    ensures
        members(relations(networks.push(network)), rule_id, true) == if network.rule_id == rule_id {
            members(relations(networks), rule_id, true).push(network.network_id)
        } else {
            members(relations(networks), rule_id, true)
        },
        members(relations(Seq::<AclRuleNetwork<Id>>::empty()), rule_id, true) == Seq::<Id>::empty(),
        members(relations(users.push(user)), rule_id, allow) == if user.rule_id == rule_id && user.allow == allow {
            members(relations(users), rule_id, allow).push(user.user_id)
        } else {
            members(relations(users), rule_id, allow)
        },
        members(relations(Seq::<AclRuleUser<Id>>::empty()), rule_id, allow) == Seq::<Id>::empty(),
        members(relations(groups.push(group)), rule_id, allow) == if group.rule_id == rule_id && group.allow == allow {
            members(relations(groups), rule_id, allow).push(group.group_id)
        } else {
            members(relations(groups), rule_id, allow)
        },
        members(relations(Seq::<AclRuleGroup<Id>>::empty()), rule_id, allow) == Seq::<Id>::empty(),
        members(relations(devices.push(device)), rule_id, allow) == if device.rule_id == rule_id && device.allow == allow {
            members(relations(devices), rule_id, allow).push(device.device_id)
        } else {
            members(relations(devices), rule_id, allow)
        },
        members(relations(Seq::<AclRuleDevice<Id>>::empty()), rule_id, allow) == Seq::<Id>::empty(),
        members(relations(aliases.push(alias)), rule_id, true) == if alias.rule_id == rule_id {
            members(relations(aliases), rule_id, true).push(alias.alias_id)
        } else {
            members(relations(aliases), rule_id, true)
        },
        members(relations(Seq::<AclRuleAlias<Id>>::empty()), rule_id, true) == Seq::<Id>::empty(),
        ranges_of(ranges.push(range), rule_id) == if range.rule_id == rule_id {
            ranges_of(ranges, rule_id).push(range)
        } else {
            ranges_of(ranges, rule_id)
        },
        ranges_of(Seq::empty(), rule_id) == Seq::<AclRuleDestinationRange<Id>>::empty(),
{
    lemma_members_push(networks, network, rule_id, true);
    lemma_members_none(relations(Seq::<AclRuleNetwork<Id>>::empty()), rule_id, true);
    lemma_members_push(users, user, rule_id, allow);
    lemma_members_none(relations(Seq::<AclRuleUser<Id>>::empty()), rule_id, allow);
    lemma_members_push(groups, group, rule_id, allow);
    lemma_members_none(relations(Seq::<AclRuleGroup<Id>>::empty()), rule_id, allow);
    lemma_members_push(devices, device, rule_id, allow);
    lemma_members_none(relations(Seq::<AclRuleDevice<Id>>::empty()), rule_id, allow);
    lemma_members_push(aliases, alias, rule_id, true);
    lemma_members_none(relations(Seq::<AclRuleAlias<Id>>::empty()), rule_id, true);
    reveal(Seq::filter);
    assert(ranges.push(range).drop_last() =~= ranges);
    assert(ranges_of(Seq::empty(), rule_id) =~= Seq::<AclRuleDestinationRange<Id>>::empty());
}

proof fn lemma_member_has_row<R: RuleRow>(rows: Seq<R>, rule_id: Id, allow: bool, member: Id)
    ensures
        members(relations(rows), rule_id, allow).contains(member) <==> exists|i: int|
            0 <= i < rows.len() && (#[trigger] rows[i]).says() == (Relation {
                rule_id,
                member,
                allow,
            }),
    decreases rows.len(),
{
    if rows.len() == 0 {
        lemma_members_none(relations(rows), rule_id, allow);
    } else {
        let rest = rows.drop_last();
        let last = rows.last();
        lemma_member_has_row(rest, rule_id, allow, member);
        lemma_members_push(rest, last, rule_id, allow);
        assert(rest.push(last) =~= rows);
        let before = members(relations(rest), rule_id, allow);
        let after = members(relations(rows), rule_id, allow);
        if after.contains(member) {
            let k = after.index_of(member);
            if k < before.len() {
                assert(before[k] == member);
                let i = choose|i: int|
                    0 <= i < rest.len() && (#[trigger] rest[i]).says() == (Relation {
                        rule_id,
                        member,
                        allow,
                    });
                assert(rows[i].says() == rest[i].says());
            } else {
                assert(rows[rows.len() - 1].says() == last.says());
            }
        }
        if exists|i: int|
            0 <= i < rows.len() && (#[trigger] rows[i]).says() == (Relation {
                rule_id,
                member,
                allow,
            }) {
            let i = choose|i: int|
                0 <= i < rows.len() && (#[trigger] rows[i]).says() == (Relation {
                    rule_id,
                    member,
                    allow,
                });
            if i < rest.len() {
                assert(rest[i].says() == rows[i].says());
                assert(after[before.index_of(member)] == member);
            } else {
                assert(after[before.len() as int] == member);
            }
        }
    }
}

/// What is read of a saved rule is what the records with its id tie to it: something is among the
/// allowed just where a record that allows names it, and among the denied just where a record that
/// denies names it. Records of other rules have no say.
pub proof fn lemma_info_tells_the_records(rule: AclRule<Id>, tables: AclTables, member: Id)
    ensures
        rule_info(rule, tables).rule == rule,
        rule_info(rule, tables).networks.contains(member) <==> exists|i: int|
            0 <= i < tables.rule_networks@.len() && (#[trigger] tables.rule_networks@[i]).rule_id
                == rule.id && tables.rule_networks@[i].network_id == member,
        rule_info(rule, tables).allowed_users.contains(member) <==> exists|i: int|
            0 <= i < tables.rule_users@.len() && (#[trigger] tables.rule_users@[i]).rule_id == rule.id
                && tables.rule_users@[i].user_id == member && tables.rule_users@[i].allow,
        rule_info(rule, tables).denied_users.contains(member) <==> exists|i: int|
            0 <= i < tables.rule_users@.len() && (#[trigger] tables.rule_users@[i]).rule_id == rule.id
                && tables.rule_users@[i].user_id == member && !tables.rule_users@[i].allow,
        rule_info(rule, tables).allowed_groups.contains(member) <==> exists|i: int|
            0 <= i < tables.rule_groups@.len() && (#[trigger] tables.rule_groups@[i]).rule_id == rule.id
                && tables.rule_groups@[i].group_id == member && tables.rule_groups@[i].allow,
        rule_info(rule, tables).denied_groups.contains(member) <==> exists|i: int|
            0 <= i < tables.rule_groups@.len() && (#[trigger] tables.rule_groups@[i]).rule_id == rule.id
                && tables.rule_groups@[i].group_id == member && !tables.rule_groups@[i].allow,
        rule_info(rule, tables).allowed_devices.contains(member) <==> exists|i: int|
            0 <= i < tables.rule_devices@.len() && (#[trigger] tables.rule_devices@[i]).rule_id == rule.id
                && tables.rule_devices@[i].device_id == member && tables.rule_devices@[i].allow,
        rule_info(rule, tables).denied_devices.contains(member) <==> exists|i: int|
            0 <= i < tables.rule_devices@.len() && (#[trigger] tables.rule_devices@[i]).rule_id == rule.id
                && tables.rule_devices@[i].device_id == member && !tables.rule_devices@[i].allow,
        forall|range: AclRuleDestinationRange<Id>| #[trigger]
            rule_info(rule, tables).destination_ranges.contains(range)
                <==> tables.rule_destination_ranges@.contains(range) && range.rule_id == rule.id,
        rule_info(rule, tables).aliases == aliases_with_ids(
            tables.aliases@,
            members(relations(tables.rule_aliases@), rule.id, true),
        ),
        members(relations(tables.rule_aliases@), rule.id, true).contains(member) <==> exists|i: int|
            0 <= i < tables.rule_aliases@.len() && (#[trigger] tables.rule_aliases@[i]).rule_id
                == rule.id && tables.rule_aliases@[i].alias_id == member,
{
    {
        let rows = tables.rule_networks@;
        lemma_member_has_row(rows, rule.id, true, member);
        assert forall|i: int| 0 <= i < rows.len() implies ((#[trigger] rows[i]).says() == (Relation { rule_id: rule.id, member, allow: true })
            <==> rows[i].rule_id == rule.id && rows[i].network_id == member) by {}
    }
    {
        let rows = tables.rule_users@;
        lemma_member_has_row(rows, rule.id, true, member);
        assert forall|i: int| 0 <= i < rows.len() implies ((#[trigger] rows[i]).says() == (Relation { rule_id: rule.id, member, allow: true })
            <==> rows[i].rule_id == rule.id && rows[i].user_id == member && rows[i].allow) by {}
    }
    {
        let rows = tables.rule_users@;
        lemma_member_has_row(rows, rule.id, false, member);
        assert forall|i: int| 0 <= i < rows.len() implies ((#[trigger] rows[i]).says() == (Relation { rule_id: rule.id, member, allow: false })
            <==> rows[i].rule_id == rule.id && rows[i].user_id == member && !rows[i].allow) by {}
    }
    {
        let rows = tables.rule_groups@;
        lemma_member_has_row(rows, rule.id, true, member);
        assert forall|i: int| 0 <= i < rows.len() implies ((#[trigger] rows[i]).says() == (Relation { rule_id: rule.id, member, allow: true })
            <==> rows[i].rule_id == rule.id && rows[i].group_id == member && rows[i].allow) by {}
    }
    {
        let rows = tables.rule_groups@;
        lemma_member_has_row(rows, rule.id, false, member);
        assert forall|i: int| 0 <= i < rows.len() implies ((#[trigger] rows[i]).says() == (Relation { rule_id: rule.id, member, allow: false })
            <==> rows[i].rule_id == rule.id && rows[i].group_id == member && !rows[i].allow) by {}
    }
    {
        let rows = tables.rule_devices@;
        lemma_member_has_row(rows, rule.id, true, member);
        assert forall|i: int| 0 <= i < rows.len() implies ((#[trigger] rows[i]).says() == (Relation { rule_id: rule.id, member, allow: true })
            <==> rows[i].rule_id == rule.id && rows[i].device_id == member && rows[i].allow) by {}
    }
    {
        let rows = tables.rule_devices@;
        lemma_member_has_row(rows, rule.id, false, member);
        assert forall|i: int| 0 <= i < rows.len() implies ((#[trigger] rows[i]).says() == (Relation { rule_id: rule.id, member, allow: false })
            <==> rows[i].rule_id == rule.id && rows[i].device_id == member && !rows[i].allow) by {}
    }
    {
        let rows = tables.rule_aliases@;
        lemma_member_has_row(rows, rule.id, true, member);
        assert forall|i: int| 0 <= i < rows.len() implies ((#[trigger] rows[i]).says() == (Relation { rule_id: rule.id, member, allow: true })
            <==> rows[i].rule_id == rule.id && rows[i].alias_id == member) by {}
    }
    assert forall|range: AclRuleDestinationRange<Id>| #[trigger]
        rule_info(rule, tables).destination_ranges.contains(range)
            <==> tables.rule_destination_ranges@.contains(range) && range.rule_id == rule.id by {
        lemma_filter_holds(
            tables.rule_destination_ranges@,
            |r: AclRuleDestinationRange<Id>| r.rule_id == rule.id,
            range,
        );
    }
}

/// The aliases of a rule, id by id: an id behind others adds the first alias that has it, if there
/// is one.
pub proof fn lemma_aliases_go_id_by_id(aliases: Seq<AclAlias<Id>>, ids: Seq<Id>, id: Id, k: int)
    requires
        0 <= k < aliases.len(),
        aliases[k].id == id,
        forall|j: int| 0 <= j < k ==> (#[trigger] aliases[j]).id != id,
    ensures
        aliases_with_ids(aliases, ids.push(id)) == aliases_with_ids(aliases, ids).push(aliases[k]),
        aliases_with_ids(aliases, Seq::empty()) == Seq::<AclAlias<Id>>::empty(),
{
    lemma_first_alias(aliases, id, k);
    assert(ids.push(id).drop_last() =~= ids);
}

/// An id that no alias has adds none.
pub proof fn lemma_unknown_aliases_add_nothing(aliases: Seq<AclAlias<Id>>, ids: Seq<Id>, id: Id)
    requires
        forall|j: int| 0 <= j < aliases.len() ==> (#[trigger] aliases[j]).id != id,
    ensures
        aliases_with_ids(aliases, ids.push(id)) == aliases_with_ids(aliases, ids),
{
    lemma_no_alias(aliases, id);
    assert(ids.push(id).drop_last() =~= ids);
}

proof fn lemma_first_alias(aliases: Seq<AclAlias<Id>>, id: Id, k: int)
    requires
        0 <= k < aliases.len(),
        aliases[k].id == id,
        forall|j: int| 0 <= j < k ==> (#[trigger] aliases[j]).id != id,
    ensures
        alias_with_id(aliases, id) == Some(aliases[k]),
    decreases k,
{
    if k > 0 {
        let rest = aliases.drop_first();
        assert(aliases[0].id != id);
        assert(rest[k - 1] == aliases[k]);
        assert forall|j: int| 0 <= j < k - 1 implies (#[trigger] rest[j]).id != id by {
            assert(rest[j] == aliases[j + 1]);
        }
        lemma_first_alias(rest, id, k - 1);
    }
}

proof fn lemma_no_alias(aliases: Seq<AclAlias<Id>>, id: Id)
    requires
        forall|j: int| 0 <= j < aliases.len() ==> (#[trigger] aliases[j]).id != id,
    ensures
        alias_with_id(aliases, id) is None,
    decreases aliases.len(),
{
    if aliases.len() > 0 {
        let rest = aliases.drop_first();
        assert(aliases[0].id != id);
        assert forall|j: int| 0 <= j < rest.len() implies (#[trigger] rest[j]).id != id by {
            assert(rest[j] == aliases[j + 1]);
        }
        lemma_no_alias(rest, id);
    }
}

/// The rule under its id is the rule that was saved: nothing else of it changes.
pub proof fn lemma_saving_keeps_the_rule(rule: AclRule<NoId>, id: Id)
    ensures
        saved_rule(rule, id).id == id,
        saved_rule(rule, id).parent_id == rule.parent_id,
        saved_rule(rule, id).state == rule.state,
        saved_rule(rule, id).name == rule.name,
        saved_rule(rule, id).allow_all_users == rule.allow_all_users,
        saved_rule(rule, id).deny_all_users == rule.deny_all_users,
        saved_rule(rule, id).allow_all_network_devices == rule.allow_all_network_devices,
        saved_rule(rule, id).deny_all_network_devices == rule.deny_all_network_devices,
        saved_rule(rule, id).all_networks == rule.all_networks,
        saved_rule(rule, id).destination == rule.destination,
        saved_rule(rule, id).ports == rule.ports,
        saved_rule(rule, id).protocols == rule.protocols,
        saved_rule(rule, id).enabled == rule.enabled,
        saved_rule(rule, id).expires == rule.expires,
{
}

/// The records of a new rule, one by one: each is tied to the rule and to what it stands for, and
/// says whether that is allowed. The allowed come first, in their order, and then the denied.
pub proof fn lemma_new_records_say_the_ties(created: NewAclRule, rule_id: Id, tied: RuleTies)
    requires
        has_ties(created, rule_id, tied),
    ensures
        created.networks@.len() == tied.locations.len(),
        forall|i: int|
            0 <= i < tied.locations.len() ==> (#[trigger] created.networks@[i]).rule_id == rule_id
                && created.networks@[i].network_id == tied.locations[i],
        created.aliases@.len() == tied.aliases.len(),
        forall|i: int|
            0 <= i < tied.aliases.len() ==> (#[trigger] created.aliases@[i]).rule_id == rule_id
                && created.aliases@[i].alias_id == tied.aliases[i],
        created.destination_ranges@.len() == tied.destination_ranges.len(),
        forall|i: int|
            0 <= i < tied.destination_ranges.len() ==> (
            #[trigger] created.destination_ranges@[i]).rule_id == rule_id
                && created.destination_ranges@[i].start == tied.destination_ranges[i].0
                && created.destination_ranges@[i].end == tied.destination_ranges[i].1,
        created.users@.len() == tied.allowed_users.len() + tied.denied_users.len(),
        forall|i: int|
            0 <= i < created.users@.len() ==> (#[trigger] created.users@[i]).rule_id == rule_id
                && created.users@[i].allow == (i < tied.allowed_users.len()) && created.users@[i].user_id
                == if i < tied.allowed_users.len() {
                tied.allowed_users[i]
            } else {
                tied.denied_users[i - tied.allowed_users.len()]
            },
        created.groups@.len() == tied.allowed_groups.len() + tied.denied_groups.len(),
        forall|i: int|
            0 <= i < created.groups@.len() ==> (#[trigger] created.groups@[i]).rule_id == rule_id
                && created.groups@[i].allow == (i < tied.allowed_groups.len()) && created.groups@[i].group_id
                == if i < tied.allowed_groups.len() {
                tied.allowed_groups[i]
            } else {
                tied.denied_groups[i - tied.allowed_groups.len()]
            },
        created.devices@.len() == tied.allowed_network_devices.len() + tied.denied_network_devices.len(),
        forall|i: int|
            0 <= i < created.devices@.len() ==> (#[trigger] created.devices@[i]).rule_id == rule_id
                && created.devices@[i].allow == (i < tied.allowed_network_devices.len()) && created.devices@[i].device_id
                == if i < tied.allowed_network_devices.len() {
                tied.allowed_network_devices[i]
            } else {
                tied.denied_network_devices[i - tied.allowed_network_devices.len()]
            },
{
    assert(relations(created.networks@).len() == created.networks@.len());
    assert forall|i: int| 0 <= i < tied.locations.len() implies (
    #[trigger] created.networks@[i]).rule_id == rule_id && created.networks@[i].network_id
        == tied.locations[i] by {
        assert(relations(created.networks@)[i] == created.networks@[i].says());
    }
    assert(relations(created.aliases@).len() == created.aliases@.len());
    assert forall|i: int| 0 <= i < tied.aliases.len() implies (#[trigger] created.aliases@[i]).rule_id
        == rule_id && created.aliases@[i].alias_id == tied.aliases[i] by {
        assert(relations(created.aliases@)[i] == created.aliases@[i].says());
    }
    assert(relations(created.users@).len() == created.users@.len());
    assert forall|i: int| 0 <= i < created.users@.len() implies (#[trigger] created.users@[i]).rule_id
        == rule_id && created.users@[i].allow == (i < tied.allowed_users.len()) && created.users@[i].user_id
        == if i < tied.allowed_users.len() {
        tied.allowed_users[i]
    } else {
        tied.denied_users[i - tied.allowed_users.len()]
    } by {
        assert(relations(created.users@)[i] == created.users@[i].says());
    }
    assert(relations(created.groups@).len() == created.groups@.len());
    assert forall|i: int| 0 <= i < created.groups@.len() implies (#[trigger] created.groups@[i]).rule_id
        == rule_id && created.groups@[i].allow == (i < tied.allowed_groups.len()) && created.groups@[i].group_id
        == if i < tied.allowed_groups.len() {
        tied.allowed_groups[i]
    } else {
        tied.denied_groups[i - tied.allowed_groups.len()]
    } by {
        assert(relations(created.groups@)[i] == created.groups@[i].says());
    }
    assert(relations(created.devices@).len() == created.devices@.len());
    assert forall|i: int| 0 <= i < created.devices@.len() implies (#[trigger] created.devices@[i]).rule_id
        == rule_id && created.devices@[i].allow == (i < tied.allowed_network_devices.len()) && created.devices@[i].device_id
        == if i < tied.allowed_network_devices.len() {
        tied.allowed_network_devices[i]
    } else {
        tied.denied_network_devices[i - tied.allowed_network_devices.len()]
    } by {
        assert(relations(created.devices@)[i] == created.devices@[i].says());
    }
}

/// The records of a new rule are saved kind by kind: its locations, users, groups, devices,
/// destination ranges and aliases, each kind in its order, and nothing besides.
pub proof fn lemma_records_are_saved_kind_by_kind(created: NewAclRule, i: int)
    ensures
        ({
            let rows = new_rows(created);
            let users = created.networks@.len() as int;
            let groups = users + created.users@.len();
            let devices = groups + created.groups@.len();
            let ranges = devices + created.devices@.len();
            let aliases = ranges + created.destination_ranges@.len();
            let end = aliases + created.aliases@.len();
            &&& rows.len() == end
            &&& 0 <= i < users ==> rows[i] == NewRuleRow::Network(created.networks@[i])
            &&& users <= i < groups ==> rows[i] == NewRuleRow::User(created.users@[i - users])
            &&& groups <= i < devices ==> rows[i] == NewRuleRow::Group(created.groups@[i - groups])
            &&& devices <= i < ranges ==> rows[i] == NewRuleRow::Device(
                created.devices@[i - devices],
            )
            &&& ranges <= i < aliases ==> rows[i] == NewRuleRow::DestinationRange(
                created.destination_ranges@[i - ranges],
            )
            &&& aliases <= i < end ==> rows[i] == NewRuleRow::Alias(created.aliases@[i - aliases])
        }),
{
}

/// The view of a rule with everything that is tied to it tells all of it.
pub proof fn lemma_info_is_told_by_its_view<'a>(info: AclRuleInfo<'a>, i: int)
    ensures
        info@.rule == *info.rule,
        info@.networks == info.networks@,
        info@.allowed_users == info.allowed_users@,
        info@.denied_users == info.denied_users@,
        info@.allowed_groups == info.allowed_groups@,
        info@.denied_groups == info.denied_groups@,
        info@.allowed_devices == info.allowed_devices@,
        info@.denied_devices == info.denied_devices@,
        info@.destination_ranges == info.destination_ranges@,
        info@.aliases.len() == info.aliases@.len(),
        0 <= i < info.aliases@.len() ==> info@.aliases[i] == *info.aliases@[i],
{
}

} // verus!
