//! What the traffic of a rule is headed for: the rule's own destination, and its aliases.

use vstd::prelude::*;

use crate::acl::{AclAlias, AclRule, AclRuleDestinationRange, AclRuleInfo, AclRuleInfoView, AliasKind};
use crate::ip::IpNetwork;
use crate::lists::{
    copy_all, lemma_filter_holds, lemma_filter_next, lemma_filter_start, lemma_flat_map_holds,
    lemma_join_holds, push_all,
};
use crate::ports::PortRange;
use crate::text::{signed_decimal, signed_decimal_text};
use crate::Id;

verus! {

/// A destination that a rule speaks of. An empty list of ports or protocols stands for all of
/// them, and so do networks and ranges where both are empty.
#[derive(Clone, Debug)]
pub struct Target {
    /// What the target is called in the comments of its firewall rules.
    pub label: String,
    pub destination: Vec<IpNetwork>,
    pub ranges: Vec<AclRuleDestinationRange<Id>>,
    pub ports: Vec<PortRange>,
    pub protocols: Vec<i32>,
}

/// What a [`Target`] holds.
#[verifier::ext_equal]
pub struct TargetView {
    pub label: Seq<char>,
    pub destination: Seq<IpNetwork>,
    pub ranges: Seq<AclRuleDestinationRange<Id>>,
    pub ports: Seq<PortRange>,
    pub protocols: Seq<i32>,
}

impl View for Target {
    type V = TargetView;

    open spec fn view(&self) -> TargetView {
        TargetView {
            label: self.label@,
            destination: self.destination@,
            ranges: self.ranges@,
            ports: self.ports@,
            protocols: self.protocols@,
        }
    }
}

/// The aliases of one kind, in their order.
pub open spec fn of_kind(aliases: Seq<AclAlias<Id>>, kind: AliasKind) -> Seq<AclAlias<Id>> {
    aliases.filter(|alias: AclAlias<Id>| alias.kind == kind)
}

/// What a rule is called in the comments of its firewall rules.
pub open spec fn rule_label(rule: AclRule<Id>) -> Seq<char> {
    "ACL "@ + signed_decimal(rule.id as int) + " - "@ + rule.name@
}

/// What an alias of a rule is called in the comments of its firewall rules.
pub open spec fn alias_label(rule: AclRule<Id>, alias: AclAlias<Id>) -> Seq<char> {
    rule_label(rule) + ", ALIAS "@ + signed_decimal(alias.id as int) + " - "@ + alias.name@
}

/// The destination of the rule itself: its own settings together with those of its component
/// aliases.
pub open spec fn own_target(info: AclRuleInfoView) -> TargetView {
    let components = of_kind(info.aliases, AliasKind::Component);
    TargetView {
        label: rule_label(info.rule),
        destination: info.rule.destination@ + components.flat_map(
            |alias: AclAlias<Id>| alias.destination@,
        ),
        ranges: info.destination_ranges,
        ports: info.rule.ports@ + components.flat_map(|alias: AclAlias<Id>| alias.ports@),
        protocols: info.rule.protocols@ + components.flat_map(
            |alias: AclAlias<Id>| alias.protocols@,
        ),
    }
}

/// The target has no settings of any kind.
pub open spec fn is_blank(target: TargetView) -> bool {
    &&& target.destination.len() == 0
    &&& target.ranges.len() == 0
    &&& target.ports.len() == 0
    &&& target.protocols.len() == 0
}

/// A destination alias of a rule.
pub open spec fn alias_target(rule: AclRule<Id>, alias: AclAlias<Id>) -> TargetView {
    TargetView {
        label: alias_label(rule, alias),
        destination: alias.destination@,
        ranges: seq![],
        ports: alias.ports@,
        protocols: alias.protocols@,
    }
}

/// The destinations of a rule: its own one, then each of its destination aliases. A rule that has
/// destination aliases and no settings of its own has no destination but the aliases.
pub open spec fn targets(info: AclRuleInfoView) -> Seq<TargetView> {
    let aliases = of_kind(info.aliases, AliasKind::Destination);
    let own = own_target(info);
    let first = if aliases.len() > 0 && is_blank(own) {
        seq![]
    } else {
        seq![own]
    };
    first + aliases.map_values(|alias: AclAlias<Id>| alias_target(info.rule, alias))
}

/// What a list of targets holds.
pub open spec fn target_views(targets: Seq<Target>) -> Seq<TargetView> {
    targets.map_values(|target: Target| target@)
}

fn write_rule_label(rule: &AclRule<Id>) -> (label: String)
    ensures
        label@ == rule_label(*rule),
{
    let mut label: String = "ACL ".to_owned();
    label.append(signed_decimal_text(rule.id).as_str());
    label.append(" - ");
    label.append(rule.name.as_str());
    label
}

fn write_alias_label(rule: &AclRule<Id>, alias: &AclAlias<Id>) -> (label: String)
    ensures
        label@ == alias_label(*rule, *alias),
{
    let mut label: String = write_rule_label(rule);
    label.append(", ALIAS ");
    label.append(signed_decimal_text(alias.id).as_str());
    label.append(" - ");
    label.append(alias.name.as_str());
    label
}

/// One more alias of a list, sorted by its kind.
proof fn lemma_next_alias(aliases: Seq<AclAlias<Id>>, i: int, kind: AliasKind)
    requires
        0 <= i < aliases.len(),
    ensures
        of_kind(aliases.take(i + 1), kind) == if aliases[i].kind == kind {
            of_kind(aliases.take(i), kind).push(aliases[i])
        } else {
            of_kind(aliases.take(i), kind)
        },
{
    lemma_filter_next(aliases, i, |alias: AclAlias<Id>| alias.kind == kind);
}

impl<'a> AclRuleInfo<'a> {
    /// The destination of the rule itself: its own settings together with those of its component
    /// aliases.
    fn get_own_target(&self) -> (target: Target)
        ensures
            target@ == own_target(self@),
    {
        let ghost aliases = self@.aliases;
        let ghost destinations = |alias: AclAlias<Id>| alias.destination@;
        let ghost alias_ports = |alias: AclAlias<Id>| alias.ports@;
        let ghost alias_protocols = |alias: AclAlias<Id>| alias.protocols@;
        let mut destination: Vec<IpNetwork> = copy_all(&self.rule.destination);
        let mut ports: Vec<PortRange> = copy_all(&self.rule.ports);
        let mut protocols: Vec<i32> = copy_all(&self.rule.protocols);
        let mut i: usize = 0;
        proof {
            lemma_filter_start(
                aliases,
                |alias: AclAlias<Id>| alias.kind == AliasKind::Component,
            );
        }
        while i < self.aliases.len()
            invariant
                i <= self.aliases.len(),
                aliases == self@.aliases,
                destinations == (|alias: AclAlias<Id>| alias.destination@),
                alias_ports == (|alias: AclAlias<Id>| alias.ports@),
                alias_protocols == (|alias: AclAlias<Id>| alias.protocols@),
                destination@ =~= self.rule.destination@ + of_kind(
                    aliases.take(i as int),
                    AliasKind::Component,
                ).flat_map(destinations),
                ports@ =~= self.rule.ports@ + of_kind(
                    aliases.take(i as int),
                    AliasKind::Component,
                ).flat_map(alias_ports),
                protocols@ =~= self.rule.protocols@ + of_kind(
                    aliases.take(i as int),
                    AliasKind::Component,
                ).flat_map(alias_protocols),
            decreases self.aliases.len() - i,
        {
            let alias: &AclAlias<Id> = self.aliases[i];
            proof {
                lemma_next_alias(aliases, i as int, AliasKind::Component);
                let before = of_kind(aliases.take(i as int), AliasKind::Component);
                before.lemma_flat_map_push(destinations, *alias);
                before.lemma_flat_map_push(alias_ports, *alias);
                before.lemma_flat_map_push(alias_protocols, *alias);
            }
            if alias.kind == AliasKind::Component {
                push_all(&mut destination, &alias.destination);
                push_all(&mut ports, &alias.ports);
                push_all(&mut protocols, &alias.protocols);
            }
            i = i + 1;
        }
        assert(aliases.take(i as int) =~= aliases);
        let ranges: Vec<AclRuleDestinationRange<Id>> = copy_all(&self.destination_ranges);
        Target { label: write_rule_label(self.rule), destination, ranges, ports, protocols }
    }

    /// The destination aliases of the rule.
    fn get_alias_targets(&self) -> (found: Vec<Target>)
        ensures
            target_views(found@) == of_kind(self@.aliases, AliasKind::Destination).map_values(
                |alias: AclAlias<Id>| alias_target(self@.rule, alias),
            ),
    {
        let ghost aliases = self@.aliases;
        let ghost view = |alias: AclAlias<Id>| alias_target(self@.rule, alias);
        let mut found: Vec<Target> = Vec::new();
        let mut i: usize = 0;
        proof {
            lemma_filter_start(
                aliases,
                |alias: AclAlias<Id>| alias.kind == AliasKind::Destination,
            );
        }
        while i < self.aliases.len()
            invariant
                i <= self.aliases.len(),
                aliases == self@.aliases,
                view == (|alias: AclAlias<Id>| alias_target(self@.rule, alias)),
                target_views(found@) =~= of_kind(
                    aliases.take(i as int),
                    AliasKind::Destination,
                ).map_values(view),
            decreases self.aliases.len() - i,
        {
            let alias: &AclAlias<Id> = self.aliases[i];
            proof {
                lemma_next_alias(aliases, i as int, AliasKind::Destination);
            }
            if alias.kind == AliasKind::Destination {
                let target: Target = Target {
                    label: write_alias_label(self.rule, alias),
                    destination: copy_all(&alias.destination),
                    ranges: Vec::new(),
                    ports: copy_all(&alias.ports),
                    protocols: copy_all(&alias.protocols),
                };
                assert(target@ =~= alias_target(self@.rule, *alias));
                proof {
                    let before = of_kind(aliases.take(i as int), AliasKind::Destination);
                    assert(before.push(*alias).map_values(view) =~= before.map_values(view).push(
                        target@,
                    ));
                    assert(target_views(found@.push(target)) =~= target_views(found@).push(target@));
                }
                found.push(target);
            }
            i = i + 1;
        }
        assert(aliases.take(i as int) =~= aliases);
        found
    }

    /// The destinations of the rule.
    pub fn get_targets(&self) -> (found: Vec<Target>)
        ensures
            target_views(found@) == targets(self@),
    {
        let own: Target = self.get_own_target();
        let mut aliases: Vec<Target> = self.get_alias_targets();
        assert(target_views(aliases@).len() == aliases@.len());
        let blank: bool = own.destination.len() == 0 && own.ranges.len() == 0 && own.ports.len()
            == 0 && own.protocols.len() == 0;
        let mut found: Vec<Target> = Vec::new();
        if aliases.len() == 0 || !blank {
            found.push(own);
        }
        let ghost first = found@;
        proof {
            assert(target_views(first + aliases@) =~= target_views(first) + target_views(aliases@));
            assert(target_views(first) =~= if aliases@.len() > 0 && is_blank(own@) {
                seq![]
            } else {
                seq![own@]
            });
        }
        found.append(&mut aliases);
        found
    }
}

/// Whether a rule has settings of its own: a network, a range, a port or a protocol, given with the
/// rule or with one of its component aliases.
pub open spec fn has_settings(info: AclRuleInfoView) -> bool {
    ||| info.rule.destination@.len() > 0
    ||| info.destination_ranges.len() > 0
    ||| info.rule.ports@.len() > 0
    ||| info.rule.protocols@.len() > 0
    ||| exists|a: int|
        0 <= a < info.aliases.len() && (#[trigger] info.aliases[a]).kind == AliasKind::Component && (
        info.aliases[a].destination@.len() > 0 || info.aliases[a].ports@.len() > 0
            || info.aliases[a].protocols@.len() > 0)
}

/// Whether a rule has a destination of its own: it has settings, or there is no destination alias
/// to take their place.
pub open spec fn speaks_for_itself(info: AclRuleInfoView) -> bool {
    ||| has_settings(info)
    ||| forall|a: int|
        0 <= a < info.aliases.len() ==> (#[trigger] info.aliases[a]).kind != AliasKind::Destination
}

/// Whether the network is one of the rule, or of one of its component aliases.
pub open spec fn has_network(info: AclRuleInfoView, network: IpNetwork) -> bool {
    ||| info.rule.destination@.contains(network)
    ||| exists|a: int|
        0 <= a < info.aliases.len() && (#[trigger] info.aliases[a]).kind == AliasKind::Component
            && info.aliases[a].destination@.contains(network)
}

/// Whether the range of ports is one of the rule, or of one of its component aliases.
pub open spec fn has_port_range(info: AclRuleInfoView, range: PortRange) -> bool {
    ||| info.rule.ports@.contains(range)
    ||| exists|a: int|
        0 <= a < info.aliases.len() && (#[trigger] info.aliases[a]).kind == AliasKind::Component
            && info.aliases[a].ports@.contains(range)
}

/// Whether the protocol is one of the rule, or of one of its component aliases.
pub open spec fn has_protocol(info: AclRuleInfoView, protocol: i32) -> bool {
    ||| info.rule.protocols@.contains(protocol)
    ||| exists|a: int|
        0 <= a < info.aliases.len() && (#[trigger] info.aliases[a]).kind == AliasKind::Component
            && info.aliases[a].protocols@.contains(protocol)
}

/// What the component aliases of a rule give, taken together.
proof fn lemma_components_give<B>(
    aliases: Seq<AclAlias<Id>>,
    f: spec_fn(AclAlias<Id>) -> Seq<B>,
    b: B,
)
    ensures
        of_kind(aliases, AliasKind::Component).flat_map(f).contains(b) <==> exists|a: int|
            0 <= a < aliases.len() && (#[trigger] aliases[a]).kind == AliasKind::Component && f(
                aliases[a],
            ).contains(b),
{
    let components = of_kind(aliases, AliasKind::Component);
    let wanted = |alias: AclAlias<Id>| alias.kind == AliasKind::Component;
    lemma_flat_map_holds(components, f, b);
    if components.flat_map(f).contains(b) {
        let i = choose|i: int|
            0 <= i < components.len() && f(#[trigger] components[i]).contains(b);
        assert(components.contains(components[i]));
        lemma_filter_holds(aliases, wanted, components[i]);
        let a = aliases.index_of(components[i]);
        assert(aliases[a].kind == AliasKind::Component);
    }
    if exists|a: int|
        0 <= a < aliases.len() && (#[trigger] aliases[a]).kind == AliasKind::Component && f(
            aliases[a],
        ).contains(b) {
        let a = choose|a: int|
            0 <= a < aliases.len() && (#[trigger] aliases[a]).kind == AliasKind::Component && f(
                aliases[a],
            ).contains(b);
        assert(aliases.contains(aliases[a]));
        lemma_filter_holds(aliases, wanted, aliases[a]);
        let i = components.index_of(aliases[a]);
        assert(f(components[i]).contains(b));
    }
}

proof fn lemma_own_target_holds(info: AclRuleInfoView)
    ensures
        ({
            let own = own_target(info);
            &&& own.label == "ACL "@ + signed_decimal(info.rule.id as int) + " - "@
                + info.rule.name@
            &&& forall|network: IpNetwork| #[trigger]
                own.destination.contains(network) <==> has_network(info, network)
            &&& own.ranges == info.destination_ranges
            &&& forall|range: PortRange| #[trigger]
                own.ports.contains(range) <==> has_port_range(info, range)
            &&& forall|protocol: i32| #[trigger]
                own.protocols.contains(protocol) <==> has_protocol(info, protocol)
        }),
{
    let own = own_target(info);
    let components = of_kind(info.aliases, AliasKind::Component);
    let networks = |alias: AclAlias<Id>| alias.destination@;
    let ports = |alias: AclAlias<Id>| alias.ports@;
    let protocols = |alias: AclAlias<Id>| alias.protocols@;
    assert forall|network: IpNetwork| #[trigger]
        own.destination.contains(network) <==> has_network(info, network) by {
        lemma_components_give(info.aliases, networks, network);
        lemma_join_holds(info.rule.destination@, components.flat_map(networks), network);
    }
    assert forall|range: PortRange| #[trigger]
        own.ports.contains(range) <==> has_port_range(info, range) by {
        lemma_components_give(info.aliases, ports, range);
        lemma_join_holds(info.rule.ports@, components.flat_map(ports), range);
    }
    assert forall|protocol: i32| #[trigger]
        own.protocols.contains(protocol) <==> has_protocol(info, protocol) by {
        lemma_components_give(info.aliases, protocols, protocol);
        lemma_join_holds(info.rule.protocols@, components.flat_map(protocols), protocol);
    }
}

proof fn lemma_blank_is_without_settings(info: AclRuleInfoView)
    ensures
        is_blank(own_target(info)) <==> !has_settings(info),
        of_kind(info.aliases, AliasKind::Destination).len() > 0 <==> exists|a: int|
            0 <= a < info.aliases.len() && (#[trigger] info.aliases[a]).kind
                == AliasKind::Destination,
{
    let own = own_target(info);
    lemma_own_target_holds(info);
    if has_settings(info) {
        if info.rule.destination@.len() > 0 {
            assert(own.destination.len() > 0);
        } else if info.rule.ports@.len() > 0 {
            assert(own.ports.len() > 0);
        } else if info.rule.protocols@.len() > 0 {
            assert(own.protocols.len() > 0);
        } else if info.destination_ranges.len() == 0 {
            let a = choose|a: int|
                0 <= a < info.aliases.len() && (#[trigger] info.aliases[a]).kind
                    == AliasKind::Component && (info.aliases[a].destination@.len() > 0
                    || info.aliases[a].ports@.len() > 0 || info.aliases[a].protocols@.len() > 0);
            let alias = info.aliases[a];
            if alias.destination@.len() > 0 {
                assert(alias.destination@.contains(alias.destination@[0]));
                assert(has_network(info, alias.destination@[0]));
                assert(own.destination.contains(alias.destination@[0]));
            } else if alias.ports@.len() > 0 {
                assert(alias.ports@.contains(alias.ports@[0]));
                assert(has_port_range(info, alias.ports@[0]));
                assert(own.ports.contains(alias.ports@[0]));
            } else {
                assert(alias.protocols@.contains(alias.protocols@[0]));
                assert(has_protocol(info, alias.protocols@[0]));
                assert(own.protocols.contains(alias.protocols@[0]));
            }
        }
    } else {
        if own.destination.len() > 0 {
            assert(own.destination.contains(own.destination[0]));
            assert(has_network(info, own.destination[0]));
        }
        if own.ports.len() > 0 {
            assert(own.ports.contains(own.ports[0]));
            assert(has_port_range(info, own.ports[0]));
        }
        if own.protocols.len() > 0 {
            assert(own.protocols.contains(own.protocols[0]));
            assert(has_protocol(info, own.protocols[0]));
        }
    }
    let wanted = |alias: AclAlias<Id>| alias.kind == AliasKind::Destination;
    let found = of_kind(info.aliases, AliasKind::Destination);
    if found.len() > 0 {
        assert(found.contains(found[0]));
        lemma_filter_holds(info.aliases, wanted, found[0]);
        let a = info.aliases.index_of(found[0]);
        assert(info.aliases[a].kind == AliasKind::Destination);
    }
    if exists|a: int|
        0 <= a < info.aliases.len() && (#[trigger] info.aliases[a]).kind
            == AliasKind::Destination {
        let a = choose|a: int|
            0 <= a < info.aliases.len() && (#[trigger] info.aliases[a]).kind
                == AliasKind::Destination;
        assert(info.aliases.contains(info.aliases[a]));
        lemma_filter_holds(info.aliases, wanted, info.aliases[a]);
    }
}

/// A rule that speaks for itself has, as its first target, one with exactly the networks, ranges,
/// ports and protocols of the rule and of its component aliases.
pub proof fn lemma_own_settings_make_a_target(info: AclRuleInfoView)
    requires
        speaks_for_itself(info),
    ensures
        ({
            let own = targets(info)[0];
            &&& targets(info).len() > 0
            &&& own.label == "ACL "@ + signed_decimal(info.rule.id as int) + " - "@
                + info.rule.name@
            &&& forall|network: IpNetwork| #[trigger]
                own.destination.contains(network) <==> has_network(info, network)
            &&& own.ranges == info.destination_ranges
            &&& forall|range: PortRange| #[trigger]
                own.ports.contains(range) <==> has_port_range(info, range)
            &&& forall|protocol: i32| #[trigger]
                own.protocols.contains(protocol) <==> has_protocol(info, protocol)
        }),
{
    lemma_own_target_holds(info);
    lemma_blank_is_without_settings(info);
    assert(targets(info)[0] == own_target(info));
}

/// The destination aliases of a rule are targets, in their order, behind its own target if it has
/// one, each with the settings of the alias alone. There are no other targets.
pub proof fn lemma_destination_aliases_are_targets(info: AclRuleInfoView)
    ensures
        ({
            let aliases = info.aliases.filter(
                |alias: AclAlias<Id>| alias.kind == AliasKind::Destination,
            );
            let own: int = if speaks_for_itself(info) {
                1
            } else {
                0
            };
            &&& targets(info).len() == own + aliases.len()
            &&& forall|k: int|
                0 <= k < aliases.len() ==> targets(info)[own + k] == (TargetView {
                    label: "ACL "@ + signed_decimal(info.rule.id as int) + " - "@ + info.rule.name@
                        + ", ALIAS "@ + signed_decimal((#[trigger] aliases[k]).id as int) + " - "@
                        + aliases[k].name@,
                    destination: aliases[k].destination@,
                    ranges: Seq::<AclRuleDestinationRange<Id>>::empty(),
                    ports: aliases[k].ports@,
                    protocols: aliases[k].protocols@,
                })
        }),
{
    lemma_blank_is_without_settings(info);
}

/// The view of a target tells everything that it holds.
pub proof fn lemma_target_is_told_by_its_view(target: Target)
    ensures
        target@.label == target.label@,
        target@.destination == target.destination@,
        target@.ranges == target.ranges@,
        target@.ports == target.ports@,
        target@.protocols == target.protocols@,
{
}

} // verus!
