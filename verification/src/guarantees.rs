//! What the firewall of a location guarantees, said of the rules that it is made of.

use vstd::prelude::*;

use crate::acl::{rule_info, AclAlias, AclRule, AclRuleInfoView, AclTables, AliasKind, RuleState};
use crate::addresses::{
    between_addrs, describes, is_destination, is_reading, lemma_destination_messages_describe,
    lemma_messages_describe, lies_within, reads_as, shares_prefix,
};
use crate::firewall::{
    active_rules, allow_rule, allows_from, denies_from, deny_rule, firewall_rules, info_allow_rules,
    info_deny_rules, lemma_allow_origin, lemma_deny_origin, lemma_four_things_make_a_rule_active,
    lemma_uses_version, target_allow_rules, target_deny_rules, uses_version, WireguardNetwork,
};
use crate::ip::{IpNetwork, IpVersion};
use crate::lists::{
    lemma_filter_all, lemma_filter_holds, lemma_filter_none, lemma_flat_map_even,
    lemma_flat_map_join,
};
use crate::ports::{
    between_ends, lemma_merging_keeps_ports, message_has, port_messages, port_set, PortRange,
};
use crate::proto::{AddressView, FirewallPolicy, FirewallRuleView};
use crate::protocols::lemma_protocols_are_kept;
use crate::sources::{
    lemma_source_set_in_width, lemma_sources_are_told_by_the_records, may_send, source_set,
    Directory,
};
use crate::targets::{
    has_network, has_port_range, has_protocol, lemma_destination_aliases_are_targets,
    lemma_own_settings_make_a_target, speaks_for_itself, targets, TargetView,
};
use crate::text::signed_decimal;
use crate::Id;

verus! {

/// The prefixes of the networks are not longer than their addresses.
pub open spec fn prefixes_fit(networks: Seq<IpNetwork>) -> bool {
    forall|i: int|
        0 <= i < networks.len() ==> (#[trigger] networks[i]).prefix_len()
            <= networks[i].address().ip_version().bits()
}

/// The prefixes of all networks of a rule are not longer than their addresses.
pub open spec fn networks_are_valid(info: AclRuleInfoView) -> bool {
    &&& prefixes_fit(info.rule.destination@)
    &&& forall|a: int|
        0 <= a < info.aliases.len() ==> prefixes_fit((#[trigger] info.aliases[a]).destination@)
}

/// The addresses that the traffic of a rule may come from.
pub open spec fn senders(
    info: AclRuleInfoView,
    directory: Directory,
    location_id: Id,
    version: IpVersion,
) -> Set<int> {
    Set::new(|x: int| may_send(info, directory, location_id, version, x))
}

/// The addresses that a rule itself names: those in its networks, in its ranges, and in the
/// networks of its component aliases.
pub open spec fn own_addrs(info: AclRuleInfoView, version: IpVersion) -> Set<int> {
    Set::new(
        |x: int|
            {
                ||| exists|network: IpNetwork| #[trigger]
                    has_network(info, network) && shares_prefix(network, version, x)
                ||| exists|i: int|
                    0 <= i < info.destination_ranges.len() && #[trigger] between_addrs(
                        info.destination_ranges[i].start,
                        info.destination_ranges[i].end,
                        version,
                        x,
                    )
            },
    )
}

/// The ports that a rule itself names.
pub open spec fn own_ports(info: AclRuleInfoView) -> Set<int> {
    Set::new(
        |port: int|
            exists|range: PortRange| #[trigger]
                has_port_range(info, range) && between_ends(range, port),
    )
}

/// The protocols that a rule itself names.
pub open spec fn own_protocols(info: AclRuleInfoView) -> Set<i32> {
    Set::new(|protocol: i32| has_protocol(info, protocol))
}

/// What a rule is called in comments.
pub open spec fn own_label(rule: AclRule<Id>) -> Seq<char> {
    "ACL "@ + signed_decimal(rule.id as int) + " - "@ + rule.name@
}

/// The addresses that an alias names.
pub open spec fn alias_addrs(alias: AclAlias<Id>, version: IpVersion) -> Set<int> {
    Set::new(
        |x: int|
            exists|i: int|
                0 <= i < alias.destination@.len() && #[trigger] shares_prefix(
                    alias.destination@[i],
                    version,
                    x,
                ),
    )
}

/// The ports that an alias names.
pub open spec fn alias_ports(alias: AclAlias<Id>) -> Set<int> {
    Set::new(
        |port: int|
            exists|i: int|
                0 <= i < alias.ports@.len() && #[trigger] between_ends(alias.ports@[i], port),
    )
}

/// The protocols that an alias names.
pub open spec fn alias_protocols(alias: AclAlias<Id>) -> Set<i32> {
    Set::new(|protocol: i32| alias.protocols@.contains(protocol))
}

/// What an alias of a rule is called in comments.
pub open spec fn label_of_alias(rule: AclRule<Id>, alias: AclAlias<Id>) -> Seq<char> {
    own_label(rule) + ", ALIAS "@ + signed_decimal(alias.id as int) + " - "@ + alias.name@
}

/// The firewall rule stops all traffic to the addresses.
pub open spec fn stops(
    rule: FirewallRuleView,
    id: Id,
    version: IpVersion,
    label: Seq<char>,
    addrs: Set<int>,
) -> bool {
    &&& rule.id == id
    &&& rule.ip_version == version
    &&& rule.verdict == FirewallPolicy::Deny
    &&& rule.comment == Some(label + " DENY"@)
    &&& describes(version, rule.destination_addrs, addrs)
    &&& rule.source_addrs.len() == 0
    &&& rule.destination_ports.len() == 0
    &&& rule.protocols.len() == 0
}

/// The firewall rule lets traffic through that comes from one of the sources, goes to one of the
/// addresses and ports, and is of one of the protocols.
pub open spec fn lets_through(
    rule: FirewallRuleView,
    id: Id,
    version: IpVersion,
    label: Seq<char>,
    sources: Set<int>,
    addrs: Set<int>,
    ports: Set<int>,
    protocols: Set<i32>,
) -> bool {
    &&& rule.id == id
    &&& rule.ip_version == version
    &&& rule.verdict == FirewallPolicy::Allow
    &&& rule.comment == Some(label + " ALLOW"@)
    &&& describes(version, rule.source_addrs, sources)
    &&& rule.source_addrs.len() > 0
    &&& describes(version, rule.destination_addrs, addrs)
    &&& forall|port: int| #[trigger]
        ports.contains(port) <==> exists|k: int|
            0 <= k < rule.destination_ports.len() && #[trigger] message_has(
                rule.destination_ports[k],
                port,
            )
    &&& forall|protocol: i32| #[trigger]
        protocols.contains(protocol) <==> rule.protocols.contains(protocol)
    &&& forall|i: int, j: int|
        0 <= i < j < rule.protocols.len() ==> #[trigger] rule.protocols[i]
            < #[trigger] rule.protocols[j]
}

/// The ports that lie in some range of a list.
spec fn listed_ports(ranges: Seq<PortRange>) -> Set<int> {
    Set::new(
        |port: int|
            exists|i: int| 0 <= i < ranges.len() && #[trigger] between_ends(ranges[i], port),
    )
}

/// The protocols of a list.
spec fn listed_protocols(protocols: Seq<i32>) -> Set<i32> {
    Set::new(|protocol: i32| protocols.contains(protocol))
}

/// The addresses in the networks and ranges of a target.
spec fn listed_addrs(target: TargetView, version: IpVersion) -> Set<int> {
    Set::new(|x: int| is_destination(target.destination, target.ranges, version, x))
}

proof fn lemma_deny_rule_stops(id: Id, target: TargetView, version: IpVersion)
    requires
        prefixes_fit(target.destination),
    ensures
        stops(
            deny_rule(id, target, version),
            id,
            version,
            target.label,
            listed_addrs(target, version),
        ),
{
    lemma_destination_messages_describe(target.destination, target.ranges, version);
}

proof fn lemma_allow_rule_lets_through(
    info: AclRuleInfoView,
    directory: Directory,
    location_id: Id,
    target: TargetView,
    version: IpVersion,
)
    requires
        prefixes_fit(target.destination),
        source_set(info, directory, location_id, version) != Set::<int>::empty(),
    ensures
        lets_through(
            allow_rule(
                info.rule.id,
                target,
                source_set(info, directory, location_id, version),
                version,
            ),
            info.rule.id,
            version,
            target.label,
            senders(info, directory, location_id, version),
            listed_addrs(target, version),
            listed_ports(target.ports),
            listed_protocols(target.protocols),
        ),
{
    let sources = source_set(info, directory, location_id, version);
    let rule = allow_rule(info.rule.id, target, sources, version);
    lemma_destination_messages_describe(target.destination, target.ranges, version);
    lemma_sources_are_told_by_the_records(info, directory, location_id, version);
    lemma_source_set_in_width(info, directory, location_id, version);
    lemma_messages_describe(version, sources);
    crate::addresses::lemma_no_addr_messages(version, sources);
    lemma_merging_keeps_ports(target.ports);
    lemma_protocols_are_kept(target.protocols);
    let ports = listed_ports(target.ports);
    assert forall|port: int| #[trigger] ports.contains(port) <==> exists|k: int|
        0 <= k < rule.destination_ports.len() && #[trigger] message_has(
            rule.destination_ports[k],
            port,
        ) by {
        let messages = port_messages(port_set(target.ports));
        assert(rule.destination_ports == messages);
        if ports.contains(port) {
            let i = choose|i: int|
                0 <= i < target.ports.len() && #[trigger] between_ends(target.ports[i], port);
            let k = choose|k: int|
                0 <= k < messages.len() && #[trigger] message_has(messages[k], port);
            assert(message_has(rule.destination_ports[k], port));
        }
        if exists|k: int|
            0 <= k < rule.destination_ports.len() && #[trigger] message_has(
                rule.destination_ports[k],
                port,
            ) {
            let k = choose|k: int|
                0 <= k < rule.destination_ports.len() && #[trigger] message_has(
                    rule.destination_ports[k],
                    port,
                );
            assert(message_has(messages[k], port));
        }
    }
}

/// The sets of a rule's own target are those that the rule itself names.
proof fn lemma_own_sets(info: AclRuleInfoView, version: IpVersion)
    requires
        speaks_for_itself(info),
        networks_are_valid(info),
    ensures
        ({
            let own = targets(info)[0];
            &&& targets(info).len() > 0
            &&& own.label == own_label(info.rule)
            &&& prefixes_fit(own.destination)
            &&& listed_addrs(own, version)
                == own_addrs(info, version)
            &&& listed_ports(own.ports) == own_ports(info)
            &&& listed_protocols(own.protocols) == own_protocols(info)
        }),
{
    lemma_own_settings_make_a_target(info);
    let own = targets(info)[0];
    assert forall|i: int| 0 <= i < own.destination.len() implies (
    #[trigger] own.destination[i]).prefix_len()
        <= own.destination[i].address().ip_version().bits() by {
        let network = own.destination[i];
        assert(own.destination.contains(network));
        assert(has_network(info, network));
        if info.rule.destination@.contains(network) {
            let k = info.rule.destination@.index_of(network);
            assert(info.rule.destination@[k] == network);
        } else {
            let a = choose|a: int|
                0 <= a < info.aliases.len() && (#[trigger] info.aliases[a]).kind
                    == AliasKind::Component && info.aliases[a].destination@.contains(network);
            let nets = info.aliases[a].destination@;
            assert(prefixes_fit(info.aliases[a].destination@));
            let k = nets.index_of(network);
            assert(nets[k] == network);
        }
    }
    let addrs = listed_addrs(own, version);
    assert forall|x: int| addrs.contains(x) <==> own_addrs(info, version).contains(x) by {
        if exists|i: int|
            0 <= i < own.destination.len() && #[trigger] shares_prefix(
                own.destination[i],
                version,
                x,
            ) {
            let i = choose|i: int|
                0 <= i < own.destination.len() && #[trigger] shares_prefix(
                    own.destination[i],
                    version,
                    x,
                );
            assert(own.destination.contains(own.destination[i]));
            assert(has_network(info, own.destination[i]));
        }
        if exists|network: IpNetwork| #[trigger]
            has_network(info, network) && shares_prefix(network, version, x) {
            let network = choose|network: IpNetwork| #[trigger]
                has_network(info, network) && shares_prefix(network, version, x);
            assert(own.destination.contains(network));
            let i = own.destination.index_of(network);
            assert(shares_prefix(own.destination[i], version, x));
        }
    }
    assert(addrs =~= own_addrs(info, version));
    assert forall|port: int| listed_ports(own.ports).contains(port) <==> own_ports(info).contains(
        port,
    ) by {
        if listed_ports(own.ports).contains(port) {
            let i = choose|i: int|
                0 <= i < own.ports.len() && #[trigger] between_ends(own.ports[i], port);
            assert(own.ports.contains(own.ports[i]));
            assert(has_port_range(info, own.ports[i]));
        }
        if own_ports(info).contains(port) {
            let range = choose|range: PortRange| #[trigger]
                has_port_range(info, range) && between_ends(range, port);
            assert(own.ports.contains(range));
            let i = own.ports.index_of(range);
            assert(between_ends(own.ports[i], port));
        }
    }
    assert(listed_ports(own.ports) =~= own_ports(info));
    assert(listed_protocols(own.protocols) =~= own_protocols(info));
}

/// The sets of the target of a destination alias are those that the alias names.
proof fn lemma_alias_sets(alias: AclAlias<Id>, target: TargetView, version: IpVersion)
    requires
        target.destination == alias.destination@,
        target.ranges.len() == 0,
        target.ports == alias.ports@,
        target.protocols == alias.protocols@,
    ensures
        listed_addrs(target, version)
            == alias_addrs(alias, version),
        listed_ports(target.ports) == alias_ports(alias),
        listed_protocols(target.protocols) == alias_protocols(alias),
{
    assert(listed_addrs(target, version)
        =~= alias_addrs(alias, version));
    assert(listed_ports(target.ports) =~= alias_ports(alias));
    assert(listed_protocols(target.protocols) =~= alias_protocols(
        alias,
    ));
}

/// Each target of each rule gets its firewall rules.
proof fn lemma_target_is_guarded(
    infos: Seq<AclRuleInfoView>,
    location: WireguardNetwork<Id>,
    directory: Directory,
    i: int,
    j: int,
    version: IpVersion,
)
    requires
        0 <= i < infos.len(),
        0 <= j < targets(infos[i]).len(),
        uses_version(location.address@, version),
        prefixes_fit(targets(infos[i])[j].destination),
    ensures
        ({
            let rules = firewall_rules(infos, location, directory);
            let info = infos[i];
            let target = targets(info)[j];
            let addrs = listed_addrs(target, version);
            &&& exists|k: int|
                0 <= k < rules.len() && #[trigger] stops(
                    rules[k],
                    info.rule.id,
                    version,
                    target.label,
                    addrs,
                )
            &&& senders(info, directory, location.id, version) != Set::<int>::empty() ==> exists|
                k: int,
            |
                0 <= k < rules.len() && #[trigger] lets_through(
                    rules[k],
                    info.rule.id,
                    version,
                    target.label,
                    senders(info, directory, location.id, version),
                    addrs,
                    listed_ports(target.ports),
                    listed_protocols(target.protocols),
                )
        }),
{
    let rules = firewall_rules(infos, location, directory);
    let allow = infos.flat_map(
        |info: AclRuleInfoView| info_allow_rules(info, location, directory),
    );
    let deny = infos.flat_map(|info: AclRuleInfoView| info_deny_rules(info, location));
    let info = infos[i];
    let target = targets(info)[j];
    lemma_uses_version(location.address@, version);
    let stop = deny_rule(info.rule.id, target, version);
    assert(denies_from(infos[i], targets(infos[i])[j], version, location, stop));
    lemma_deny_origin(infos, location, stop);
    lemma_deny_rule_stops(info.rule.id, target, version);
    let k = allow.len() + deny.index_of(stop);
    assert(rules[k] == stop);
    lemma_sources_are_told_by_the_records(info, directory, location.id, version);
    if senders(info, directory, location.id, version) != Set::<int>::empty() {
        let sources = source_set(info, directory, location.id, version);
        let pass = allow_rule(info.rule.id, target, sources, version);
        assert(allows_from(infos[i], targets(infos[i])[j], version, location, directory, pass));
        lemma_allow_origin(infos, location, directory, pass);
        lemma_allow_rule_lets_through(info, directory, location.id, target, version);
        let l = allow.index_of(pass);
        assert(rules[l] == pass);
    }
}

/// What a rule itself names is guarded: in every version that the location has addresses of, some
/// firewall rule under its id stops traffic to exactly its addresses. If its traffic may come from
/// anywhere, some firewall rule under its id lets it through from exactly there, to exactly its
/// addresses and ports, with exactly its protocols. This holds whether or not the rule has
/// destination aliases, as soon as it names a network, a range, a port or a protocol.
pub proof fn lemma_own_destination_is_guarded(
    infos: Seq<AclRuleInfoView>,
    location: WireguardNetwork<Id>,
    directory: Directory,
    i: int,
    version: IpVersion,
)
    requires
        0 <= i < infos.len(),
        speaks_for_itself(infos[i]),
        networks_are_valid(infos[i]),
        uses_version(location.address@, version),
    ensures
        ({
            let rules = firewall_rules(infos, location, directory);
            let info = infos[i];
            let sources = senders(info, directory, location.id, version);
            &&& exists|k: int|
                0 <= k < rules.len() && #[trigger] stops(
                    rules[k],
                    info.rule.id,
                    version,
                    own_label(info.rule),
                    own_addrs(info, version),
                )
            &&& sources != Set::<int>::empty() ==> exists|k: int|
                0 <= k < rules.len() && #[trigger] lets_through(
                    rules[k],
                    info.rule.id,
                    version,
                    own_label(info.rule),
                    sources,
                    own_addrs(info, version),
                    own_ports(info),
                    own_protocols(info),
                )
        }),
{
    lemma_own_sets(infos[i], version);
    lemma_target_is_guarded(infos, location, directory, i, 0, version);
}

/// The destination aliases of a rule are guarded in the same way, each with its own addresses,
/// ports and protocols.
pub proof fn lemma_destination_aliases_are_guarded(
    infos: Seq<AclRuleInfoView>,
    location: WireguardNetwork<Id>,
    directory: Directory,
    i: int,
    a: int,
    version: IpVersion,
)
    requires
        0 <= i < infos.len(),
        0 <= a < infos[i].aliases.len(),
        infos[i].aliases[a].kind == AliasKind::Destination,
        networks_are_valid(infos[i]),
        uses_version(location.address@, version),
    ensures
        ({
            let rules = firewall_rules(infos, location, directory);
            let info = infos[i];
            let alias = info.aliases[a];
            let sources = senders(info, directory, location.id, version);
            &&& exists|k: int|
                0 <= k < rules.len() && #[trigger] stops(
                    rules[k],
                    info.rule.id,
                    version,
                    label_of_alias(info.rule, alias),
                    alias_addrs(alias, version),
                )
            &&& sources != Set::<int>::empty() ==> exists|k: int|
                0 <= k < rules.len() && #[trigger] lets_through(
                    rules[k],
                    info.rule.id,
                    version,
                    label_of_alias(info.rule, alias),
                    sources,
                    alias_addrs(alias, version),
                    alias_ports(alias),
                    alias_protocols(alias),
                )
        }),
{
    let info = infos[i];
    let alias = info.aliases[a];
    let wanted = |alias: AclAlias<Id>| alias.kind == AliasKind::Destination;
    let aliases = info.aliases.filter(wanted);
    lemma_destination_aliases_are_targets(info);
    assert(info.aliases.contains(alias));
    lemma_filter_holds(info.aliases, wanted, alias);
    let k = aliases.index_of(alias);
    assert(aliases[k] == alias);
    let own: int = if speaks_for_itself(info) {
        1
    } else {
        0
    };
    let target = targets(info)[own + k];
    assert(target.label == label_of_alias(info.rule, alias));
    assert(prefixes_fit(info.aliases[a].destination@));
    lemma_alias_sets(alias, target, version);
    lemma_target_is_guarded(infos, location, directory, i, own + k, version);
}

/// Every firewall rule is there for a reason: it stops traffic to, or lets traffic through to, what
/// some rule itself names or what some destination alias of it names, in a version that the
/// location has addresses of. It lets traffic through only from where that rule's traffic may come.
pub proof fn lemma_every_firewall_rule_has_a_reason(
    infos: Seq<AclRuleInfoView>,
    location: WireguardNetwork<Id>,
    directory: Directory,
    k: int,
)
    requires
        forall|i: int| 0 <= i < infos.len() ==> networks_are_valid(#[trigger] infos[i]),
        0 <= k < firewall_rules(infos, location, directory).len(),
    ensures
        ({
            let rule = firewall_rules(infos, location, directory)[k];
            let version = rule.ip_version;
            &&& uses_version(location.address@, version)
            &&& exists|i: int|
                0 <= i < infos.len() && is_reason(
                    #[trigger] infos[i],
                    senders(infos[i], directory, location.id, version),
                    rule,
                )
        }),
{
    let rules = firewall_rules(infos, location, directory);
    let rule = rules[k];
    let allow = infos.flat_map(
        |info: AclRuleInfoView| info_allow_rules(info, location, directory),
    );
    let deny = infos.flat_map(|info: AclRuleInfoView| info_deny_rules(info, location));
    if k < allow.len() {
        assert(allow[k] == rule);
        assert(allow.contains(rule));
        lemma_allow_origin(infos, location, directory, rule);
        let (i, j, version) = choose|i: int, j: int, version: IpVersion|
            0 <= i < infos.len() && 0 <= j < targets(infos[i]).len() && #[trigger] allows_from(
                infos[i],
                targets(infos[i])[j],
                version,
                location,
                directory,
                rule,
            );
        lemma_uses_version(location.address@, version);
        lemma_target_is_named(infos[i], j, version);
        lemma_allow_rule_lets_through(
            infos[i],
            directory,
            location.id,
            targets(infos[i])[j],
            version,
        );
        assert(is_reason(infos[i], senders(infos[i], directory, location.id, version), rule));
    } else {
        assert(deny[k - allow.len()] == rule);
        assert(deny.contains(rule));
        lemma_deny_origin(infos, location, rule);
        let (i, j, version) = choose|i: int, j: int, version: IpVersion|
            0 <= i < infos.len() && 0 <= j < targets(infos[i]).len() && #[trigger] denies_from(
                infos[i],
                targets(infos[i])[j],
                version,
                location,
                rule,
            );
        lemma_uses_version(location.address@, version);
        lemma_target_is_named(infos[i], j, version);
        lemma_deny_rule_stops(infos[i].rule.id, targets(infos[i])[j], version);
        assert(is_reason(infos[i], senders(infos[i], directory, location.id, version), rule));
    }
}

/// The firewall rule is there for the rule, or for a destination alias of it.
pub open spec fn is_reason(
    info: AclRuleInfoView,
    sources: Set<int>,
    rule: FirewallRuleView,
) -> bool {
    let version = rule.ip_version;
    ||| speaks_for_itself(info) && (stops(
        rule,
        info.rule.id,
        version,
        own_label(info.rule),
        own_addrs(info, version),
    ) || lets_through(
        rule,
        info.rule.id,
        version,
        own_label(info.rule),
        sources,
        own_addrs(info, version),
        own_ports(info),
        own_protocols(info),
    ))
    ||| exists|a: int|
        0 <= a < info.aliases.len() && (#[trigger] info.aliases[a]).kind == AliasKind::Destination
            && (stops(
            rule,
            info.rule.id,
            version,
            label_of_alias(info.rule, info.aliases[a]),
            alias_addrs(info.aliases[a], version),
        ) || lets_through(
            rule,
            info.rule.id,
            version,
            label_of_alias(info.rule, info.aliases[a]),
            sources,
            alias_addrs(info.aliases[a], version),
            alias_ports(info.aliases[a]),
            alias_protocols(info.aliases[a]),
        ))
}

/// Every target is what the rule itself names, or what a destination alias names.
proof fn lemma_target_is_named(info: AclRuleInfoView, j: int, version: IpVersion)
    requires
        networks_are_valid(info),
        0 <= j < targets(info).len(),
    ensures
        ({
            let target = targets(info)[j];
            let addrs = listed_addrs(target, version);
            let ports = listed_ports(target.ports);
            let protocols = listed_protocols(target.protocols);
            &&& prefixes_fit(target.destination)
            &&& (speaks_for_itself(info) && target.label == own_label(info.rule) && addrs
                == own_addrs(info, version) && ports == own_ports(info) && protocols
                == own_protocols(info)) || exists|a: int|
                {
                    &&& 0 <= a < info.aliases.len()
                    &&& (#[trigger] info.aliases[a]).kind == AliasKind::Destination
                    &&& target.label == label_of_alias(info.rule, info.aliases[a])
                    &&& addrs == alias_addrs(info.aliases[a], version)
                    &&& ports == alias_ports(info.aliases[a])
                    &&& protocols == alias_protocols(info.aliases[a])
                }
        }),
{
    let own: int = if speaks_for_itself(info) {
        1
    } else {
        0
    };
    lemma_destination_aliases_are_targets(info);
    if j < own {
        lemma_own_sets(info, version);
    } else {
        let wanted = |alias: AclAlias<Id>| alias.kind == AliasKind::Destination;
        let aliases = info.aliases.filter(wanted);
        let k = j - own;
        let alias = aliases[k];
        assert(aliases.contains(alias));
        lemma_filter_holds(info.aliases, wanted, alias);
        let a = info.aliases.index_of(alias);
        assert(info.aliases[a] == alias);
        assert(targets(info)[own + k] == targets(info)[j]);
        assert(prefixes_fit(info.aliases[a].destination@));
        lemma_alias_sets(alias, targets(info)[j], version);
    }
}

/// Whether some message speaks of the address with number `x`.
pub open spec fn covers(version: IpVersion, messages: Seq<Option<AddressView>>, x: int) -> bool {
    exists|k: int, lo: int, hi: int|
        0 <= k < messages.len() && #[trigger] reads_as(version, messages[k], lo, hi) && lo <= x && x
            <= hi
}

proof fn lemma_described_is_covered(
    version: IpVersion,
    messages: Seq<Option<AddressView>>,
    addrs: Set<int>,
    x: int,
)
    requires
        describes(version, messages, addrs),
        addrs.contains(x),
    ensures
        covers(version, messages, x),
{
    let ends = choose|ends: Seq<(int, int)>| is_reading(version, messages, ends, addrs);
    let i = choose|i: int| 0 <= i < ends.len() && #[trigger] lies_within(ends[i], x);
    assert(reads_as(version, messages[i], ends[i].0, ends[i].1));
}

/// Every address that an active rule names, in a network, in a range or in a network of a component
/// alias, is guarded: in a location with addresses of that version, a firewall rule under the
/// rule's id stops traffic to it, and another one lets traffic through to it from every address
/// that the rule's traffic may come from. Destination aliases make no difference.
pub proof fn lemma_named_addresses_are_guarded(
    tables: AclTables,
    location: WireguardNetwork<Id>,
    directory: Directory,
    now: i64,
    rule: AclRule<Id>,
    version: IpVersion,
    x: int,
    source: int,
)
    requires
        tables.rules@.contains(rule),
        rule.enabled,
        rule.state == RuleState::Applied,
        rule.expires is None || rule.expires->0 > now,
        rule.all_networks || exists|row: int|
            0 <= row < tables.rule_networks@.len() && (
            #[trigger] tables.rule_networks@[row]).rule_id == rule.id
                && tables.rule_networks@[row].network_id == location.id,
        networks_are_valid(rule_info(rule, tables)),
        uses_version(location.address@, version),
        own_addrs(rule_info(rule, tables), version).contains(x),
    ensures
        ({
            let rules = firewall_rules(
                active_rules(tables, location.id, now),
                location,
                directory,
            );
            &&& exists|k: int|
                {
                    &&& 0 <= k < rules.len()
                    &&& (#[trigger] rules[k]).id == rule.id
                    &&& rules[k].ip_version == version
                    &&& rules[k].verdict == FirewallPolicy::Deny
                    &&& rules[k].source_addrs.len() == 0
                    &&& rules[k].destination_ports.len() == 0
                    &&& rules[k].protocols.len() == 0
                    &&& covers(version, rules[k].destination_addrs, x)
                }
            &&& may_send(rule_info(rule, tables), directory, location.id, version, source)
                ==> exists|k: int|
                {
                    &&& 0 <= k < rules.len()
                    &&& (#[trigger] rules[k]).id == rule.id
                    &&& rules[k].ip_version == version
                    &&& rules[k].verdict == FirewallPolicy::Allow
                    &&& covers(version, rules[k].source_addrs, source)
                    &&& covers(version, rules[k].destination_addrs, x)
                }
        }),
{
    let infos = active_rules(tables, location.id, now);
    let rules = firewall_rules(infos, location, directory);
    let info = rule_info(rule, tables);
    lemma_four_things_make_a_rule_active(tables, location.id, now, rule);
    let i = choose|i: int| 0 <= i < infos.len() && (#[trigger] infos[i]).rule == rule;
    assert(infos[i] == info);
    crate::acl::lemma_info_tells_the_records(rule, tables, 0);
    lemma_naming_is_a_setting(info, version, x);
    lemma_own_destination_is_guarded(infos, location, directory, i, version);
    let k = choose|k: int|
        0 <= k < rules.len() && #[trigger] stops(
            rules[k],
            info.rule.id,
            version,
            own_label(info.rule),
            own_addrs(info, version),
        );
    lemma_described_is_covered(version, rules[k].destination_addrs, own_addrs(info, version), x);
    assert(rules[k].id == rule.id);
    if may_send(info, directory, location.id, version, source) {
        let sources = senders(info, directory, location.id, version);
        assert(sources.contains(source));
        let l = choose|l: int|
            0 <= l < rules.len() && #[trigger] lets_through(
                rules[l],
                info.rule.id,
                version,
                own_label(info.rule),
                sources,
                own_addrs(info, version),
                own_ports(info),
                own_protocols(info),
            );
        lemma_described_is_covered(
            version,
            rules[l].destination_addrs,
            own_addrs(info, version),
            x,
        );
        lemma_described_is_covered(version, rules[l].source_addrs, sources, source);
        assert(rules[l].id == rule.id);
    }
}

proof fn lemma_naming_is_a_setting(info: AclRuleInfoView, version: IpVersion, x: int)
    requires
        own_addrs(info, version).contains(x),
    ensures
        speaks_for_itself(info),
{
    if exists|network: IpNetwork| #[trigger]
        has_network(info, network) && shares_prefix(network, version, x) {
        let network = choose|network: IpNetwork| #[trigger]
            has_network(info, network) && shares_prefix(network, version, x);
        if !info.rule.destination@.contains(network) {
            let a = choose|a: int|
                0 <= a < info.aliases.len() && (#[trigger] info.aliases[a]).kind
                    == AliasKind::Component && info.aliases[a].destination@.contains(network);
            assert(info.aliases[a].destination@.len() > 0);
        }
    }
}

/// The firewall rules with one verdict.
pub open spec fn with_verdict(rules: Seq<FirewallRuleView>, verdict: FirewallPolicy) -> Seq<
    FirewallRuleView,
> {
    rules.filter(|rule: FirewallRuleView| rule.verdict == verdict)
}

#[verifier::opaque]
spec fn allow_part(
    infos: Seq<AclRuleInfoView>,
    location: WireguardNetwork<Id>,
    directory: Directory,
) -> Seq<FirewallRuleView> {
    infos.flat_map(|info: AclRuleInfoView| info_allow_rules(info, location, directory))
}

#[verifier::opaque]
spec fn deny_part(infos: Seq<AclRuleInfoView>, location: WireguardNetwork<Id>) -> Seq<
    FirewallRuleView,
> {
    infos.flat_map(|info: AclRuleInfoView| info_deny_rules(info, location))
}

proof fn lemma_verdicts(
    infos: Seq<AclRuleInfoView>,
    location: WireguardNetwork<Id>,
    directory: Directory,
)
    ensures
        firewall_rules(infos, location, directory) == allow_part(infos, location, directory)
            + deny_part(infos, location),
        with_verdict(firewall_rules(infos, location, directory), FirewallPolicy::Allow)
            == allow_part(infos, location, directory),
        with_verdict(firewall_rules(infos, location, directory), FirewallPolicy::Deny)
            == deny_part(infos, location),
{
    reveal(allow_part);
    reveal(deny_part);
    let allow = allow_part(infos, location, directory);
    let deny = deny_part(infos, location);
    let is_allow = |rule: FirewallRuleView| rule.verdict == FirewallPolicy::Allow;
    let is_deny = |rule: FirewallRuleView| rule.verdict == FirewallPolicy::Deny;
    assert forall|k: int| 0 <= k < allow.len() implies is_allow(#[trigger] allow[k])
        && !is_deny(allow[k]) by {
        assert(allow.contains(allow[k]));
        lemma_allow_origin(infos, location, directory, allow[k]);
    }
    assert forall|k: int| 0 <= k < deny.len() implies is_deny(#[trigger] deny[k])
        && !is_allow(deny[k]) by {
        assert(deny.contains(deny[k]));
        lemma_deny_origin(infos, location, deny[k]);
    }
    Seq::filter_distributes_over_add(allow, deny, is_allow);
    Seq::filter_distributes_over_add(allow, deny, is_deny);
    lemma_filter_all(allow, is_allow);
    lemma_filter_none(allow, is_deny);
    lemma_filter_all(deny, is_deny);
    lemma_filter_none(deny, is_allow);
    assert(allow + Seq::<FirewallRuleView>::empty() =~= allow);
    assert(Seq::<FirewallRuleView>::empty() + deny =~= deny);
}

proof fn lemma_parts_join(
    first: Seq<AclRuleInfoView>,
    second: Seq<AclRuleInfoView>,
    location: WireguardNetwork<Id>,
    directory: Directory,
)
    ensures
        allow_part(first + second, location, directory) == allow_part(first, location, directory)
            + allow_part(second, location, directory),
        deny_part(first + second, location) == deny_part(first, location) + deny_part(
            second,
            location,
        ),
        allow_part(Seq::empty(), location, directory).len() == 0,
        deny_part(Seq::empty(), location).len() == 0,
{
    reveal(allow_part);
    reveal(deny_part);
    let allowed = |info: AclRuleInfoView| info_allow_rules(info, location, directory);
    let denied = |info: AclRuleInfoView| info_deny_rules(info, location);
    let none = Seq::<AclRuleInfoView>::empty();
    lemma_flat_map_join(first, second, allowed);
    lemma_flat_map_join(first, second, denied);
    assert(none.flat_map(allowed) =~= Seq::<FirewallRuleView>::empty());
    assert(none.flat_map(denied) =~= Seq::<FirewallRuleView>::empty());
}

/// Firewall rules stand in the order of the rules that they are made of: those of earlier rules
/// before those of later ones, with either verdict. What one rule gives does not depend on the
/// others.
pub proof fn lemma_firewall_rules_keep_the_order(
    first: Seq<AclRuleInfoView>,
    second: Seq<AclRuleInfoView>,
    location: WireguardNetwork<Id>,
    directory: Directory,
    verdict: FirewallPolicy,
)
    ensures
        with_verdict(firewall_rules(first + second, location, directory), verdict) == with_verdict(
            firewall_rules(first, location, directory),
            verdict,
        ) + with_verdict(firewall_rules(second, location, directory), verdict),
        with_verdict(firewall_rules(Seq::empty(), location, directory), verdict).len() == 0,
        firewall_rules(first, location, directory) == with_verdict(
            firewall_rules(first, location, directory),
            FirewallPolicy::Allow,
        ) + with_verdict(firewall_rules(first, location, directory), FirewallPolicy::Deny),
{
    lemma_verdicts(first, location, directory);
    lemma_verdicts(second, location, directory);
    lemma_verdicts(first + second, location, directory);
    lemma_verdicts(Seq::empty(), location, directory);
    lemma_parts_join(first, second, location, directory);
    match verdict {
        FirewallPolicy::Allow => {},
        FirewallPolicy::Deny => {},
    }
}

/// How many of the two versions a condition holds of.
pub open spec fn count_versions(v4: bool, v6: bool) -> int {
    (if v4 {
        1int
    } else {
        0int
    }) + (if v6 {
        1int
    } else {
        0int
    })
}

/// Whether a firewall rule is of the version and has the comment.
pub open spec fn is_named(
    rule: FirewallRuleView,
    version: IpVersion,
    comment: Seq<char>,
) -> bool {
    rule.ip_version == version && rule.comment == Some(comment)
}

proof fn lemma_deny_part_of_one(info: AclRuleInfoView, location: WireguardNetwork<Id>, j: int)
    ensures
        ({
            let deny = deny_part(seq![info], location);
            let v4 = uses_version(location.address@, IpVersion::Ipv4);
            let v6 = uses_version(location.address@, IpVersion::Ipv6);
            let n = count_versions(v4, v6);
            &&& deny.len() == targets(info).len() * n
            &&& 0 <= j < targets(info).len() && v4 ==> is_named(
                deny[j * n],
                IpVersion::Ipv4,
                targets(info)[j].label + " DENY"@,
            )
            &&& 0 <= j < targets(info).len() && v6 ==> is_named(
                deny[j * n + n - 1],
                IpVersion::Ipv6,
                targets(info)[j].label + " DENY"@,
            )
        }),
{
    reveal(deny_part);
    let infos = seq![info];
    let denied = |info: AclRuleInfoView| info_deny_rules(info, location);
    let of_target = |target: TargetView| target_deny_rules(info.rule.id, target, location.address@);
    infos.lemma_flat_map_singleton(denied);
    lemma_uses_version(location.address@, IpVersion::Ipv4);
    lemma_uses_version(location.address@, IpVersion::Ipv6);
    let v4 = uses_version(location.address@, IpVersion::Ipv4);
    let v6 = uses_version(location.address@, IpVersion::Ipv6);
    let n = count_versions(v4, v6);
    let all = targets(info);
    assert forall|i: int| 0 <= i < all.len() implies of_target(#[trigger] all[i]).len() == n by {}
    lemma_flat_map_even(all, of_target, n as nat);
    if 0 <= j < all.len() {
        if v4 {
            assert(of_target(all[j])[0] == deny_rule(info.rule.id, all[j], IpVersion::Ipv4));
        }
        if v6 {
            assert(of_target(all[j])[n - 1] == deny_rule(info.rule.id, all[j], IpVersion::Ipv6));
        }
    }
}

proof fn lemma_allow_part_of_one(
    info: AclRuleInfoView,
    location: WireguardNetwork<Id>,
    directory: Directory,
    j: int,
)
    ensures
        ({
            let allow = allow_part(seq![info], location, directory);
            let s4 = source_set(info, directory, location.id, IpVersion::Ipv4);
            let s6 = source_set(info, directory, location.id, IpVersion::Ipv6);
            let v4 = uses_version(location.address@, IpVersion::Ipv4) && s4 != Set::<
                int,
            >::empty();
            let v6 = uses_version(location.address@, IpVersion::Ipv6) && s6 != Set::<
                int,
            >::empty();
            let n = count_versions(v4, v6);
            &&& allow.len() == targets(info).len() * n
            &&& 0 <= j < targets(info).len() && v4 ==> is_named(
                allow[j * n],
                IpVersion::Ipv4,
                targets(info)[j].label + " ALLOW"@,
            )
            &&& 0 <= j < targets(info).len() && v6 ==> is_named(
                allow[j * n + n - 1],
                IpVersion::Ipv6,
                targets(info)[j].label + " ALLOW"@,
            )
        }),
{
    reveal(allow_part);
    let infos = seq![info];
    let s4 = source_set(info, directory, location.id, IpVersion::Ipv4);
    let s6 = source_set(info, directory, location.id, IpVersion::Ipv6);
    let allowed = |info: AclRuleInfoView| info_allow_rules(info, location, directory);
    let of_target = |target: TargetView|
        target_allow_rules(info.rule.id, target, location.address@, s4, s6);
    infos.lemma_flat_map_singleton(allowed);
    lemma_uses_version(location.address@, IpVersion::Ipv4);
    lemma_uses_version(location.address@, IpVersion::Ipv6);
    let v4 = uses_version(location.address@, IpVersion::Ipv4) && s4 != Set::<int>::empty();
    let v6 = uses_version(location.address@, IpVersion::Ipv6) && s6 != Set::<int>::empty();
    let n = count_versions(v4, v6);
    let all = targets(info);
    assert forall|i: int| 0 <= i < all.len() implies of_target(#[trigger] all[i]).len() == n by {}
    lemma_flat_map_even(all, of_target, n as nat);
    if 0 <= j < all.len() {
        if v4 {
            assert(of_target(all[j])[0] == allow_rule(info.rule.id, all[j], s4, IpVersion::Ipv4));
        }
        if v6 {
            assert(of_target(all[j])[n - 1] == allow_rule(
                info.rule.id,
                all[j],
                s6,
                IpVersion::Ipv6,
            ));
        }
    }
}

/// What one rule gives, target by target and IPv4 before IPv6: for each target one firewall rule
/// that stops traffic in each version that the location has addresses of, and one that lets traffic
/// through in each of these versions in which the rule's traffic may come from anywhere.
pub proof fn lemma_one_rule_gives_one_pair_for_each_target(
    info: AclRuleInfoView,
    location: WireguardNetwork<Id>,
    directory: Directory,
    j: int,
)
    ensures
        ({
            let rules = firewall_rules(seq![info], location, directory);
            let allow = with_verdict(rules, FirewallPolicy::Allow);
            let deny = with_verdict(rules, FirewallPolicy::Deny);
            let v4 = uses_version(location.address@, IpVersion::Ipv4);
            let v6 = uses_version(location.address@, IpVersion::Ipv6);
            let allow_v4 = v4 && exists|x: int|
                may_send(info, directory, location.id, IpVersion::Ipv4, x);
            let allow_v6 = v6 && exists|x: int|
                may_send(info, directory, location.id, IpVersion::Ipv6, x);
            let stops = count_versions(v4, v6);
            let passes = count_versions(allow_v4, allow_v6);
            &&& deny.len() == targets(info).len() * stops
            &&& allow.len() == targets(info).len() * passes
            &&& 0 <= j < targets(info).len() ==> {
                let label = targets(info)[j].label;
                &&& v4 ==> is_named(deny[j * stops], IpVersion::Ipv4, label + " DENY"@)
                &&& v6 ==> is_named(deny[j * stops + stops - 1], IpVersion::Ipv6, label + " DENY"@)
                &&& allow_v4 ==> is_named(allow[j * passes], IpVersion::Ipv4, label + " ALLOW"@)
                &&& allow_v6 ==> is_named(
                    allow[j * passes + passes - 1],
                    IpVersion::Ipv6,
                    label + " ALLOW"@,
                )
            }
        }),
{
    lemma_verdicts(seq![info], location, directory);
    lemma_some_sender(info, directory, location.id, IpVersion::Ipv4);
    lemma_some_sender(info, directory, location.id, IpVersion::Ipv6);
    lemma_deny_part_of_one(info, location, j);
    lemma_allow_part_of_one(info, location, directory, j);
}

proof fn lemma_some_sender(
    info: AclRuleInfoView,
    directory: Directory,
    location_id: Id,
    version: IpVersion,
)
    ensures
        source_set(info, directory, location_id, version) != Set::<int>::empty() <==> exists|
            x: int,
        |
            may_send(info, directory, location_id, version, x),
{
    let sources = source_set(info, directory, location_id, version);
    lemma_sources_are_told_by_the_records(info, directory, location_id, version);
    if exists|x: int| may_send(info, directory, location_id, version, x) {
        let x = choose|x: int| may_send(info, directory, location_id, version, x);
        assert(sources.contains(x));
    } else {
        assert(sources =~= Set::<int>::empty());
    }
}

} // verus!
