//! The firewall of a location, made of the access control rules that hold there.

use vstd::prelude::*;

use crate::acl::{lemma_info_tells_the_records, rule_info, AclRule, AclRuleInfo, AclRuleInfoView, AclTables, RuleState};
use crate::addresses::{
    addr_messages, destination_set, get_source_addrs, ip_set, lemma_ip_set_in_width,
    lemma_no_addr_messages, process_destination_addrs,
};
use crate::ip::{IpAddr, IpNetwork, IpVersion};
use crate::lists::{
    contains_id, copy_all, lemma_filter_all, lemma_filter_holds, lemma_filter_next,
    lemma_filter_start, lemma_flat_map_holds,
};
use crate::ports::{merge_port_ranges, port_messages, port_set};
use crate::proto::{
    addr_views, rule_views, FirewallConfig, FirewallPolicy, FirewallRule, FirewallRuleView,
    IpAddress, Port,
};
use crate::protocols::{sort_protocols, sorted_set};
use crate::sources::{lemma_source_set_in_width, source_set, Directory};
use crate::targets::{target_views, targets, Target, TargetView};
use crate::Id;

verus! {

/// A location. `I` is `Id` once the location is saved, and `NoId` before.
#[derive(Clone, Debug)]
pub struct WireguardNetwork<I> {
    pub id: I,
    /// The networks that the addresses of devices in the location are taken from.
    pub address: Vec<IpNetwork>,
    /// Whether the location has a firewall.
    pub acl_enabled: bool,
    /// Whether packets that no rule speaks of pass.
    pub acl_default_allow: bool,
}

/// Whether the rule holds in the location at the moment `now`, in microseconds since 1970.
pub open spec fn is_active(rule: AclRule<Id>, tables: AclTables, location_id: Id, now: i64) -> bool {
    &&& rule.enabled
    &&& rule.state == RuleState::Applied
    &&& rule.expires matches Some(expires) ==> expires > now
    &&& rule.all_networks || rule_info(rule, tables).networks.contains(location_id)
}

/// The rules that hold in the location, each with everything that is tied to it.
pub open spec fn active_rules(tables: AclTables, location_id: Id, now: i64) -> Seq<
    AclRuleInfoView,
> {
    tables.rules@.filter(
        |rule: AclRule<Id>| is_active(rule, tables, location_id, now),
    ).map_values(|rule: AclRule<Id>| rule_info(rule, tables))
}

/// What a list of rules holds.
pub open spec fn info_views<'a>(infos: Seq<AclRuleInfo<'a>>) -> Seq<AclRuleInfoView> {
    infos.map_values(|info: AclRuleInfo<'a>| info@)
}

/// The rule that lets traffic from the sources through to the target.
pub open spec fn allow_rule(
    rule_id: Id,
    target: TargetView,
    sources: Set<int>,
    version: IpVersion,
) -> FirewallRuleView {
    FirewallRuleView {
        id: rule_id,
        source_addrs: addr_messages(version, sources),
        destination_addrs: addr_messages(
            version,
            destination_set(target.destination, target.ranges, version),
        ),
        destination_ports: port_messages(port_set(target.ports)),
        protocols: sorted_set(target.protocols),
        verdict: FirewallPolicy::Allow,
        comment: Some(target.label + " ALLOW"@),
        ip_version: version,
    }
}

/// The rule that stops all traffic to the addresses of the target.
pub open spec fn deny_rule(
    rule_id: Id,
    target: TargetView,
    version: IpVersion,
) -> FirewallRuleView {
    FirewallRuleView {
        id: rule_id,
        source_addrs: seq![],
        destination_addrs: addr_messages(
            version,
            destination_set(target.destination, target.ranges, version),
        ),
        destination_ports: seq![],
        protocols: seq![],
        verdict: FirewallPolicy::Deny,
        comment: Some(target.label + " DENY"@),
        ip_version: version,
    }
}

/// Makes the two rules of a target: one that lets its sources through, unless there are none, and
/// one that stops all traffic to its addresses.
pub fn create_rules(
    id: Id,
    ip_version: IpVersion,
    source_addrs: Vec<IpAddress>,
    destination_addrs: &Vec<IpAddress>,
    destination_ports: Vec<Port>,
    protocols: Vec<i32>,
    label: &str,
) -> (rules: (Option<FirewallRule>, FirewallRule))
    ensures
        rules.0 is Some <==> source_addrs@.len() > 0,
        rules.0 matches Some(allow) ==> allow@ == (FirewallRuleView {
            id,
            source_addrs: addr_views(source_addrs@),
            destination_addrs: addr_views(destination_addrs@),
            destination_ports: destination_ports@,
            protocols: protocols@,
            verdict: FirewallPolicy::Allow,
            comment: Some(label@ + " ALLOW"@),
            ip_version,
        }),
        rules.1@ == (FirewallRuleView {
            id,
            source_addrs: seq![],
            destination_addrs: addr_views(destination_addrs@),
            destination_ports: seq![],
            protocols: seq![],
            verdict: FirewallPolicy::Deny,
            comment: Some(label@ + " DENY"@),
            ip_version,
        }),
{
    let allow: Option<FirewallRule> = if source_addrs.len() == 0 {
        None
    } else {
        let mut comment: String = label.to_owned();
        comment.append(" ALLOW");
        Some(
            FirewallRule {
                id,
                source_addrs,
                destination_addrs: copy_addrs(destination_addrs),
                destination_ports,
                protocols,
                verdict: FirewallPolicy::Allow,
                comment: Some(comment),
                ip_version,
            },
        )
    };
    let mut comment: String = label.to_owned();
    comment.append(" DENY");
    let deny: FirewallRule = FirewallRule {
        id,
        source_addrs: Vec::new(),
        destination_addrs: copy_addrs(destination_addrs),
        destination_ports: Vec::new(),
        protocols: Vec::new(),
        verdict: FirewallPolicy::Deny,
        comment: Some(comment),
        ip_version,
    };
    assert(addr_views(deny.source_addrs@) =~= seq![]);
    assert(deny.destination_ports@ =~= seq![]);
    assert(deny.protocols@ =~= seq![]);
    (allow, deny)
}

fn copy_addrs(addrs: &Vec<IpAddress>) -> (copy: Vec<IpAddress>)
    ensures
        copy@ == addrs@,
{
    let mut copy: Vec<IpAddress> = Vec::new();
    let mut i: usize = 0;
    while i < addrs.len()
        invariant
            i <= addrs.len(),
            copy@ =~= addrs@.take(i as int),
        decreases addrs.len() - i,
    {
        copy.push(addrs[i].clone());
        i = i + 1;
    }
    assert(addrs@.take(i as int) =~= addrs@);
    copy
}

/// Whether one of the networks is of the given version.
pub open spec fn has_version(networks: Seq<IpNetwork>, version: IpVersion) -> bool {
    exists|i: int|
        0 <= i < networks.len() && (#[trigger] networks[i]).address().ip_version() == version
}

/// The rules of one version that let traffic through to the target: one, unless the location has
/// no addresses of that version or there are no sources.
pub open spec fn version_allow_rules(
    rule_id: Id,
    target: TargetView,
    address: Seq<IpNetwork>,
    sources: Set<int>,
    version: IpVersion,
) -> Seq<FirewallRuleView> {
    if has_version(address, version) && sources != Set::<int>::empty() {
        seq![allow_rule(rule_id, target, sources, version)]
    } else {
        seq![]
    }
}

/// The rules of one version that stop traffic to the target: one, unless the location has no
/// addresses of that version.
pub open spec fn version_deny_rules(
    rule_id: Id,
    target: TargetView,
    address: Seq<IpNetwork>,
    version: IpVersion,
) -> Seq<FirewallRuleView> {
    if has_version(address, version) {
        seq![deny_rule(rule_id, target, version)]
    } else {
        seq![]
    }
}

/// The rules that let traffic from the given sources through to the target: IPv4, then IPv6.
pub open spec fn target_allow_rules(
    rule_id: Id,
    target: TargetView,
    address: Seq<IpNetwork>,
    v4_sources: Set<int>,
    v6_sources: Set<int>,
) -> Seq<FirewallRuleView> {
    version_allow_rules(rule_id, target, address, v4_sources, IpVersion::Ipv4)
        + version_allow_rules(rule_id, target, address, v6_sources, IpVersion::Ipv6)
}

/// The rules that stop traffic to the target: IPv4, then IPv6.
pub open spec fn target_deny_rules(
    rule_id: Id,
    target: TargetView,
    address: Seq<IpNetwork>,
) -> Seq<FirewallRuleView> {
    version_deny_rules(rule_id, target, address, IpVersion::Ipv4) + version_deny_rules(
        rule_id,
        target,
        address,
        IpVersion::Ipv6,
    )
}

/// The rules that let the traffic of an access control rule through, target by target.
pub open spec fn info_allow_rules(
    info: AclRuleInfoView,
    location: WireguardNetwork<Id>,
    directory: Directory,
) -> Seq<FirewallRuleView> {
    targets(info).flat_map(
        |target: TargetView|
            target_allow_rules(
                info.rule.id,
                target,
                location.address@,
                source_set(info, directory, location.id, IpVersion::Ipv4),
                source_set(info, directory, location.id, IpVersion::Ipv6),
            ),
    )
}

/// The rules that stop all other traffic to the targets of an access control rule.
pub open spec fn info_deny_rules(
    info: AclRuleInfoView,
    location: WireguardNetwork<Id>,
) -> Seq<FirewallRuleView> {
    targets(info).flat_map(
        |target: TargetView| target_deny_rules(info.rule.id, target, location.address@),
    )
}

/// The firewall rules for access control rules: those that let traffic through, then those that
/// stop it.
pub open spec fn firewall_rules(
    infos: Seq<AclRuleInfoView>,
    location: WireguardNetwork<Id>,
    directory: Directory,
) -> Seq<FirewallRuleView> {
    infos.flat_map(|info: AclRuleInfoView| info_allow_rules(info, location, directory))
        + infos.flat_map(|info: AclRuleInfoView| info_deny_rules(info, location))
}

fn contains_version(networks: &Vec<IpNetwork>, version: IpVersion) -> (found: bool)
    ensures
        found == has_version(networks@, version),
{
    let mut i: usize = 0;
    while i < networks.len()
        invariant
            i <= networks.len(),
            forall|k: int|
                0 <= k < i ==> (#[trigger] networks@[k]).address().ip_version() != version,
        decreases networks.len() - i,
    {
        if networks[i].ip().version() == version {
            return true;
        }
        i = i + 1;
    }
    false
}

/// Adds the rules of one version for a target.
fn push_version_rules(
    rule_id: Id,
    target: &Target,
    destination_addrs: &Vec<IpAddress>,
    user_ips: &Vec<IpAddr>,
    device_ips: &Vec<IpAddr>,
    version: IpVersion,
    allow: &mut Vec<FirewallRule>,
    deny: &mut Vec<FirewallRule>,
)
    requires
        addr_views(destination_addrs@) == addr_messages(
            version,
            destination_set(target@.destination, target@.ranges, version),
        ),
    ensures
        ({
            let sources = ip_set(user_ips@ + device_ips@, version);
            rule_views(final(allow)@) == rule_views(old(allow)@) + if sources == Set::<
                int,
            >::empty() {
                seq![]
            } else {
                seq![allow_rule(rule_id, target@, sources, version)]
            }
        }),
        rule_views(final(deny)@) == rule_views(old(deny)@) + seq![
            deny_rule(rule_id, target@, version),
        ],
{
    let ghost sources = ip_set(user_ips@ + device_ips@, version);
    let source_addrs: Vec<IpAddress> = get_source_addrs(
        copy_all(user_ips),
        copy_all(device_ips),
        version,
    );
    proof {
        lemma_ip_set_in_width(user_ips@ + device_ips@, version);
        lemma_no_addr_messages(version, sources);
        assert(source_addrs@.len() == addr_views(source_addrs@).len());
    }
    let (new_allow, new_deny) = create_rules(
        rule_id,
        version,
        source_addrs,
        destination_addrs,
        merge_port_ranges(copy_all(&target.ports)),
        sort_protocols(&target.protocols),
        target.label.as_str(),
    );
    assert(new_deny@ =~= deny_rule(rule_id, target@, version));
    assert(rule_views(deny@.push(new_deny)) =~= rule_views(deny@) + seq![new_deny@]);
    deny.push(new_deny);
    match new_allow {
        Some(rule) => {
            assert(rule@ =~= allow_rule(rule_id, target@, sources, version));
            assert(rule_views(allow@.push(rule)) =~= rule_views(allow@) + seq![rule@]);
            allow.push(rule);
        },
        None => {
            assert(rule_views(allow@) + seq![] =~= rule_views(allow@));
        },
    }
}

/// Adds the rules for a target.
fn push_target_rules(
    rule_id: Id,
    target: &Target,
    address: &Vec<IpNetwork>,
    user_ips: &Vec<IpAddr>,
    device_ips: &Vec<IpAddr>,
    allow: &mut Vec<FirewallRule>,
    deny: &mut Vec<FirewallRule>,
)
    ensures
        rule_views(final(allow)@) == rule_views(old(allow)@) + target_allow_rules(
            rule_id,
            target@,
            address@,
            ip_set(user_ips@ + device_ips@, IpVersion::Ipv4),
            ip_set(user_ips@ + device_ips@, IpVersion::Ipv6),
        ),
        rule_views(final(deny)@) == rule_views(old(deny)@) + target_deny_rules(
            rule_id,
            target@,
            address@,
        ),
{
    let (v4_addrs, v6_addrs) = process_destination_addrs(
        target.destination.as_slice(),
        target.ranges.as_slice(),
    );
    if contains_version(address, IpVersion::Ipv4) {
        push_version_rules(
            rule_id,
            target,
            &v4_addrs,
            user_ips,
            device_ips,
            IpVersion::Ipv4,
            allow,
            deny,
        );
    }
    if contains_version(address, IpVersion::Ipv6) {
        push_version_rules(
            rule_id,
            target,
            &v6_addrs,
            user_ips,
            device_ips,
            IpVersion::Ipv6,
            allow,
            deny,
        );
    }
}

impl WireguardNetwork<Id> {
    /// Adds the rules for an access control rule.
    fn push_info_rules<'a>(
        &self,
        info: &AclRuleInfo<'a>,
        directory: &Directory,
        allow: &mut Vec<FirewallRule>,
        deny: &mut Vec<FirewallRule>,
    )
        ensures
            rule_views(final(allow)@) == rule_views(old(allow)@) + info_allow_rules(
                info@,
                *self,
                *directory,
            ),
            rule_views(final(deny)@) == rule_views(old(deny)@) + info_deny_rules(info@, *self),
    {
        let ghost rule_id = info@.rule.id;
        let ghost allowed = |target: TargetView|
            target_allow_rules(
                rule_id,
                target,
                self.address@,
                source_set(info@, *directory, self.id, IpVersion::Ipv4),
                source_set(info@, *directory, self.id, IpVersion::Ipv6),
            );
        let ghost denied = |target: TargetView| target_deny_rules(rule_id, target, self.address@);
        let ghost allow_before = rule_views(allow@);
        let ghost deny_before = rule_views(deny@);
        let (user_ips, device_ips) = info.get_source_ips(self.id, directory);
        let found: Vec<Target> = info.get_targets();
        let ghost all = targets(info@);
        let mut i: usize = 0;
        assert(all.take(0).flat_map(allowed) =~= seq![]);
        assert(all.take(0).flat_map(denied) =~= seq![]);
        while i < found.len()
            invariant
                i <= found.len(),
                rule_id == info.rule.id,
                all == target_views(found@),
                ip_set(user_ips@ + device_ips@, IpVersion::Ipv4) == source_set(
                    info@,
                    *directory,
                    self.id,
                    IpVersion::Ipv4,
                ),
                ip_set(user_ips@ + device_ips@, IpVersion::Ipv6) == source_set(
                    info@,
                    *directory,
                    self.id,
                    IpVersion::Ipv6,
                ),
                allowed == (|target: TargetView|
                    target_allow_rules(
                        rule_id,
                        target,
                        self.address@,
                        source_set(info@, *directory, self.id, IpVersion::Ipv4),
                        source_set(info@, *directory, self.id, IpVersion::Ipv6),
                    )),
                denied == (|target: TargetView| target_deny_rules(rule_id, target, self.address@)),
                rule_views(allow@) =~= allow_before + all.take(i as int).flat_map(allowed),
                rule_views(deny@) =~= deny_before + all.take(i as int).flat_map(denied),
            decreases found.len() - i,
        {
            push_target_rules(
                info.rule.id,
                &found[i],
                &self.address,
                &user_ips,
                &device_ips,
                allow,
                deny,
            );
            proof {
                all.lemma_flat_map_take_append(allowed, i as int);
                all.lemma_flat_map_take_append(denied, i as int);
                assert(all[i as int] == found@[i as int]@);
            }
            i = i + 1;
        }
        assert(all.take(i as int) =~= all);
    }

    /// The rules that hold in the location at the moment `now`, in microseconds since 1970.
    pub fn get_active_acl_rules<'a>(&self, tables: &'a AclTables, now: i64) -> (infos: Vec<
        AclRuleInfo<'a>,
    >)
        ensures
            info_views(infos@) == active_rules(*tables, self.id, now),
    {
        let ghost all = tables.rules@;
        let ghost wanted = |rule: AclRule<Id>| is_active(rule, *tables, self.id, now);
        let ghost collected = |rule: AclRule<Id>| rule_info(rule, *tables);
        let mut infos: Vec<AclRuleInfo<'a>> = Vec::new();
        let mut i: usize = 0;
        proof {
            lemma_filter_start(all, wanted);
        }
        while i < tables.rules.len()
            invariant
                i <= tables.rules.len(),
                all == tables.rules@,
                wanted == (|rule: AclRule<Id>| is_active(rule, *tables, self.id, now)),
                collected == (|rule: AclRule<Id>| rule_info(rule, *tables)),
                info_views(infos@) =~= all.take(i as int).filter(wanted).map_values(collected),
            decreases tables.rules.len() - i,
        {
            let rule: &'a AclRule<Id> = &tables.rules[i];
            proof {
                lemma_filter_next(all, i as int, wanted);
            }
            let unexpired: bool = match rule.expires {
                Some(expires) => expires > now,
                None => true,
            };
            if rule.enabled && rule.state == RuleState::Applied && unexpired {
                let info: AclRuleInfo<'a> = rule.to_info(tables);
                if rule.all_networks || contains_id(&info.networks, self.id) {
                    proof {
                        let before = all.take(i as int).filter(wanted);
                        assert(before.push(*rule).map_values(collected) =~= before.map_values(
                            collected,
                        ).push(info@));
                        assert(info_views(infos@.push(info)) =~= info_views(infos@).push(info@));
                    }
                    infos.push(info);
                }
            }
            i = i + 1;
        }
        assert(all.take(i as int) =~= all);
        infos
    }

    /// The firewall rules for the given access control rules.
    pub fn generate_firewall_rules<'a>(
        &self,
        infos: &Vec<AclRuleInfo<'a>>,
        directory: &Directory,
    ) -> (rules: Vec<FirewallRule>)
        ensures
            rule_views(rules@) == firewall_rules(info_views(infos@), *self, *directory),
    {
        let ghost all = info_views(infos@);
        let ghost allowed = |info: AclRuleInfoView| info_allow_rules(info, *self, *directory);
        let ghost denied = |info: AclRuleInfoView| info_deny_rules(info, *self);
        let mut allow: Vec<FirewallRule> = Vec::new();
        let mut deny: Vec<FirewallRule> = Vec::new();
        let mut i: usize = 0;
        assert(all.take(0).flat_map(allowed) =~= seq![]);
        assert(all.take(0).flat_map(denied) =~= seq![]);
        while i < infos.len()
            invariant
                i <= infos.len(),
                all == info_views(infos@),
                allowed == (|info: AclRuleInfoView| info_allow_rules(info, *self, *directory)),
                denied == (|info: AclRuleInfoView| info_deny_rules(info, *self)),
                rule_views(allow@) =~= all.take(i as int).flat_map(allowed),
                rule_views(deny@) =~= all.take(i as int).flat_map(denied),
            decreases infos.len() - i,
        {
            self.push_info_rules(&infos[i], directory, &mut allow, &mut deny);
            proof {
                all.lemma_flat_map_take_append(allowed, i as int);
                all.lemma_flat_map_take_append(denied, i as int);
                assert(all[i as int] == infos@[i as int]@);
            }
            i = i + 1;
        }
        assert(all.take(i as int) =~= all);
        assert(rule_views(allow@ + deny@) =~= rule_views(allow@) + rule_views(deny@));
        allow.append(&mut deny);
        allow
    }

    /// The firewall of the location at the moment `now`, in microseconds since 1970, or `None`
    /// where the location has no firewall.
    pub fn try_get_firewall_config(
        &self,
        tables: &AclTables,
        directory: &Directory,
        now: i64,
    ) -> (config: Option<FirewallConfig>)
        ensures
            config is Some <==> self.acl_enabled,
            config matches Some(firewall) ==> {
                &&& firewall.default_policy == if self.acl_default_allow {
                    FirewallPolicy::Allow
                } else {
                    FirewallPolicy::Deny
                }
                &&& rule_views(firewall.rules@) == firewall_rules(
                    active_rules(*tables, self.id, now),
                    *self,
                    *directory,
                )
            },
    {
        if !self.acl_enabled {
            return None;
        }
        let infos: Vec<AclRuleInfo> = self.get_active_acl_rules(tables, now);
        let default_policy: FirewallPolicy = if self.acl_default_allow {
            FirewallPolicy::Allow
        } else {
            FirewallPolicy::Deny
        };
        let rules: Vec<FirewallRule> = self.generate_firewall_rules(&infos, directory);
        Some(FirewallConfig { default_policy, rules })
    }
}

/// The rule is one of those that let the traffic of an access control rule through.
pub(crate) open spec fn allows_from(
    info: AclRuleInfoView,
    target: TargetView,
    version: IpVersion,
    location: WireguardNetwork<Id>,
    directory: Directory,
    rule: FirewallRuleView,
) -> bool {
    let sources = source_set(info, directory, location.id, version);
    &&& has_version(location.address@, version)
    &&& sources != Set::<int>::empty()
    &&& rule == allow_rule(info.rule.id, target, sources, version)
}

/// The rule is one of those that stop traffic to the targets of an access control rule.
pub(crate) open spec fn denies_from(
    info: AclRuleInfoView,
    target: TargetView,
    version: IpVersion,
    location: WireguardNetwork<Id>,
    rule: FirewallRuleView,
) -> bool {
    &&& has_version(location.address@, version)
    &&& rule == deny_rule(info.rule.id, target, version)
}

pub(crate) proof fn lemma_allow_origin(
    infos: Seq<AclRuleInfoView>,
    location: WireguardNetwork<Id>,
    directory: Directory,
    rule: FirewallRuleView,
)
    ensures
        infos.flat_map(
            |info: AclRuleInfoView| info_allow_rules(info, location, directory),
        ).contains(rule) <==> exists|i: int, j: int, version: IpVersion|
            0 <= i < infos.len() && 0 <= j < targets(infos[i]).len() && #[trigger] allows_from(
                infos[i],
                targets(infos[i])[j],
                version,
                location,
                directory,
                rule,
            ),
{
    let of_info = |info: AclRuleInfoView| info_allow_rules(info, location, directory);
    lemma_flat_map_holds(infos, of_info, rule);
    if infos.flat_map(of_info).contains(rule) {
        let i = choose|i: int| 0 <= i < infos.len() && of_info(#[trigger] infos[i]).contains(rule);
        let info = infos[i];
        let v4 = source_set(info, directory, location.id, IpVersion::Ipv4);
        let v6 = source_set(info, directory, location.id, IpVersion::Ipv6);
        let of_target = |target: TargetView|
            target_allow_rules(info.rule.id, target, location.address@, v4, v6);
        lemma_flat_map_holds(targets(info), of_target, rule);
        let j = choose|j: int|
            0 <= j < targets(info).len() && of_target(#[trigger] targets(info)[j]).contains(rule);
        let target = targets(info)[j];
        let first = version_allow_rules(
            info.rule.id,
            target,
            location.address@,
            v4,
            IpVersion::Ipv4,
        );
        let rules = of_target(target);
        let k = rules.index_of(rule);
        let version = if k < first.len() {
            IpVersion::Ipv4
        } else {
            IpVersion::Ipv6
        };
        assert(allows_from(infos[i], targets(infos[i])[j], version, location, directory, rule));
    }
    if exists|i: int, j: int, version: IpVersion|
        0 <= i < infos.len() && 0 <= j < targets(infos[i]).len() && #[trigger] allows_from(
            infos[i],
            targets(infos[i])[j],
            version,
            location,
            directory,
            rule,
        ) {
        let (i, j, version) = choose|i: int, j: int, version: IpVersion|
            0 <= i < infos.len() && 0 <= j < targets(infos[i]).len() && #[trigger] allows_from(
                infos[i],
                targets(infos[i])[j],
                version,
                location,
                directory,
                rule,
            );
        let info = infos[i];
        let target = targets(info)[j];
        let v4 = source_set(info, directory, location.id, IpVersion::Ipv4);
        let v6 = source_set(info, directory, location.id, IpVersion::Ipv6);
        let of_target = |target: TargetView|
            target_allow_rules(info.rule.id, target, location.address@, v4, v6);
        let first = version_allow_rules(
            info.rule.id,
            target,
            location.address@,
            v4,
            IpVersion::Ipv4,
        );
        let second = version_allow_rules(
            info.rule.id,
            target,
            location.address@,
            v6,
            IpVersion::Ipv6,
        );
        match version {
            IpVersion::Ipv4 => {
                assert((first + second)[0] == rule);
            },
            IpVersion::Ipv6 => {
                assert((first + second)[first.len() as int] == rule);
            },
        }
        assert(of_target(targets(info)[j]).contains(rule));
        lemma_flat_map_holds(targets(info), of_target, rule);
        assert(of_info(infos[i]).contains(rule));
    }
}

pub(crate) proof fn lemma_deny_origin(
    infos: Seq<AclRuleInfoView>,
    location: WireguardNetwork<Id>,
    rule: FirewallRuleView,
)
    ensures
        infos.flat_map(|info: AclRuleInfoView| info_deny_rules(info, location)).contains(rule)
            <==> exists|i: int, j: int, version: IpVersion|
            0 <= i < infos.len() && 0 <= j < targets(infos[i]).len() && #[trigger] denies_from(
                infos[i],
                targets(infos[i])[j],
                version,
                location,
                rule,
            ),
{
    let of_info = |info: AclRuleInfoView| info_deny_rules(info, location);
    lemma_flat_map_holds(infos, of_info, rule);
    if infos.flat_map(of_info).contains(rule) {
        let i = choose|i: int| 0 <= i < infos.len() && of_info(#[trigger] infos[i]).contains(rule);
        let info = infos[i];
        let of_target = |target: TargetView|
            target_deny_rules(info.rule.id, target, location.address@);
        lemma_flat_map_holds(targets(info), of_target, rule);
        let j = choose|j: int|
            0 <= j < targets(info).len() && of_target(#[trigger] targets(info)[j]).contains(rule);
        let target = targets(info)[j];
        let first = version_deny_rules(
            info.rule.id,
            target,
            location.address@,
            IpVersion::Ipv4,
        );
        let k = of_target(target).index_of(rule);
        if k < first.len() {
            assert(denies_from(infos[i], targets(infos[i])[j], IpVersion::Ipv4, location, rule));
        } else {
            assert(denies_from(infos[i], targets(infos[i])[j], IpVersion::Ipv6, location, rule));
        }
    }
    if exists|i: int, j: int, version: IpVersion|
        0 <= i < infos.len() && 0 <= j < targets(infos[i]).len() && #[trigger] denies_from(
            infos[i],
            targets(infos[i])[j],
            version,
            location,
            rule,
        ) {
        let (i, j, version) = choose|i: int, j: int, version: IpVersion|
            0 <= i < infos.len() && 0 <= j < targets(infos[i]).len() && #[trigger] denies_from(
                infos[i],
                targets(infos[i])[j],
                version,
                location,
                rule,
            );
        let info = infos[i];
        let target = targets(info)[j];
        let of_target = |target: TargetView|
            target_deny_rules(info.rule.id, target, location.address@);
        let first = version_deny_rules(
            info.rule.id,
            target,
            location.address@,
            IpVersion::Ipv4,
        );
        let second = version_deny_rules(
            info.rule.id,
            target,
            location.address@,
            IpVersion::Ipv6,
        );
        match version {
            IpVersion::Ipv4 => {
                assert((first + second)[0] == rule);
            },
            IpVersion::Ipv6 => {
                assert((first + second)[first.len() as int] == rule);
            },
        }
        assert(of_target(targets(info)[j]).contains(rule));
        lemma_flat_map_holds(targets(info), of_target, rule);
        assert(of_info(infos[i]).contains(rule));
    }
}

/// Rules that let traffic through have at least one source, and stand before all rules that stop
/// traffic. Rules that stop traffic do so for every source, port and protocol.
pub proof fn lemma_allow_rules_stand_first(
    infos: Seq<AclRuleInfoView>,
    location: WireguardNetwork<Id>,
    directory: Directory,
)
    ensures
        ({
            let rules = firewall_rules(infos, location, directory);
            &&& forall|i: int, j: int|
                0 <= i < j < rules.len() && (#[trigger] rules[i]).verdict == FirewallPolicy::Deny
                    ==> (#[trigger] rules[j]).verdict == FirewallPolicy::Deny
            &&& forall|i: int|
                0 <= i < rules.len() && (#[trigger] rules[i]).verdict == FirewallPolicy::Allow
                    ==> rules[i].source_addrs.len() > 0
            &&& forall|i: int|
                0 <= i < rules.len() && (#[trigger] rules[i]).verdict == FirewallPolicy::Deny
                    ==> rules[i].source_addrs.len() == 0 && rules[i].destination_ports.len() == 0
                    && rules[i].protocols.len() == 0
        }),
{
    let allow = infos.flat_map(
        |info: AclRuleInfoView| info_allow_rules(info, location, directory),
    );
    let deny = infos.flat_map(|info: AclRuleInfoView| info_deny_rules(info, location));
    let rules = firewall_rules(infos, location, directory);
    assert forall|i: int| 0 <= i < rules.len() implies if i < allow.len() {
        (#[trigger] rules[i]).verdict == FirewallPolicy::Allow && rules[i].source_addrs.len() > 0
    } else {
        rules[i].verdict == FirewallPolicy::Deny && rules[i].source_addrs.len() == 0
            && rules[i].destination_ports.len() == 0 && rules[i].protocols.len() == 0
    } by {
        let rule = rules[i];
        if i < allow.len() {
            assert(allow[i] == rule);
            assert(allow.contains(rule));
            lemma_allow_origin(infos, location, directory, rule);
            let (k, j, version) = choose|k: int, j: int, version: IpVersion|
                0 <= k < infos.len() && 0 <= j < targets(infos[k]).len() && #[trigger] allows_from(
                    infos[k],
                    targets(infos[k])[j],
                    version,
                    location,
                    directory,
                    rule,
                );
            let sources = source_set(infos[k], directory, location.id, version);
            lemma_source_set_in_width(infos[k], directory, location.id, version);
            lemma_no_addr_messages(version, sources);
        } else {
            assert(deny[i - allow.len()] == rule);
            assert(deny.contains(rule));
            lemma_deny_origin(infos, location, rule);
        }
    }
}

/// Where traffic to some addresses is let through, all other traffic to them is stopped later on.
pub proof fn lemma_every_allow_rule_has_a_deny_rule(
    infos: Seq<AclRuleInfoView>,
    location: WireguardNetwork<Id>,
    directory: Directory,
    i: int,
)
    requires
        0 <= i < firewall_rules(infos, location, directory).len(),
        firewall_rules(infos, location, directory)[i].verdict == FirewallPolicy::Allow,
    ensures
        ({
            let rules = firewall_rules(infos, location, directory);
            exists|j: int|
                {
                    &&& i < j < rules.len()
                    &&& (#[trigger] rules[j]).verdict == FirewallPolicy::Deny
                    &&& rules[j].id == rules[i].id
                    &&& rules[j].ip_version == rules[i].ip_version
                    &&& rules[j].destination_addrs == rules[i].destination_addrs
                }
        }),
{
    let allow = infos.flat_map(
        |info: AclRuleInfoView| info_allow_rules(info, location, directory),
    );
    let deny = infos.flat_map(|info: AclRuleInfoView| info_deny_rules(info, location));
    let rules = firewall_rules(infos, location, directory);
    let rule = rules[i];
    if i >= allow.len() {
        assert(deny[i - allow.len()] == rule);
        assert(deny.contains(rule));
        lemma_deny_origin(infos, location, rule);
    } else {
        assert(allow[i] == rule);
        assert(allow.contains(rule));
        lemma_allow_origin(infos, location, directory, rule);
        let (k, l, version) = choose|k: int, l: int, version: IpVersion|
            0 <= k < infos.len() && 0 <= l < targets(infos[k]).len() && #[trigger] allows_from(
                infos[k],
                targets(infos[k])[l],
                version,
                location,
                directory,
                rule,
            );
        let stop = deny_rule(infos[k].rule.id, targets(infos[k])[l], version);
        assert(denies_from(infos[k], targets(infos[k])[l], version, location, stop));
        lemma_deny_origin(infos, location, stop);
        let j = allow.len() + deny.index_of(stop);
        assert(rules[j] == stop);
    }
}

/// Every rule of a firewall stands under the id of an access control rule that is enabled, applied,
/// not expired, and tied to the location or to all locations. It is of a version that the location
/// has addresses of.
pub proof fn lemma_rules_come_from_active_rules(
    tables: AclTables,
    location: WireguardNetwork<Id>,
    directory: Directory,
    now: i64,
    i: int,
)
    requires
        0 <= i < firewall_rules(
            active_rules(tables, location.id, now),
            location,
            directory,
        ).len(),
    ensures
        ({
            let rule = firewall_rules(
                active_rules(tables, location.id, now),
                location,
                directory,
            )[i];
            &&& has_version(location.address@, rule.ip_version)
            &&& uses_version(location.address@, rule.ip_version)
            &&& exists|acl: AclRule<Id>|
                {
                    &&& #[trigger] tables.rules@.contains(acl)
                    &&& is_active(acl, tables, location.id, now)
                    &&& acl.id == rule.id
                    &&& acl.enabled
                    &&& acl.state == RuleState::Applied
                    &&& acl.expires is None || acl.expires->0 > now
                    &&& acl.all_networks || exists|row: int|
                        0 <= row < tables.rule_networks@.len() && (
                        #[trigger] tables.rule_networks@[row]).rule_id == acl.id
                            && tables.rule_networks@[row].network_id == location.id
                }
        }),
{
    let infos = active_rules(tables, location.id, now);
    let active = |acl: AclRule<Id>| is_active(acl, tables, location.id, now);
    let acls = tables.rules@.filter(active);
    let allow = infos.flat_map(
        |info: AclRuleInfoView| info_allow_rules(info, location, directory),
    );
    let deny = infos.flat_map(|info: AclRuleInfoView| info_deny_rules(info, location));
    let rule = firewall_rules(infos, location, directory)[i];
    let k: int = if i < allow.len() {
        assert(allow[i] == rule);
        assert(allow.contains(rule));
        lemma_allow_origin(infos, location, directory, rule);
        let (k, l, version) = choose|k: int, l: int, version: IpVersion|
            0 <= k < infos.len() && 0 <= l < targets(infos[k]).len() && #[trigger] allows_from(
                infos[k],
                targets(infos[k])[l],
                version,
                location,
                directory,
                rule,
            );
        k
    } else {
        assert(deny[i - allow.len()] == rule);
        assert(deny.contains(rule));
        lemma_deny_origin(infos, location, rule);
        let (k, l, version) = choose|k: int, l: int, version: IpVersion|
            0 <= k < infos.len() && 0 <= l < targets(infos[k]).len() && #[trigger] denies_from(
                infos[k],
                targets(infos[k])[l],
                version,
                location,
                rule,
            );
        k
    };
    assert(infos[k] == rule_info(acls[k], tables));
    assert(acls.contains(acls[k]));
    lemma_filter_holds(tables.rules@, active, acls[k]);
    assert(tables.rules@.contains(acls[k]));
    lemma_info_tells_the_records(acls[k], tables, location.id);
    lemma_uses_version(location.address@, rule.ip_version);
}

/// Rules that do not hold in the location, be they disabled, not applied, expired or tied to other
/// locations only, might as well not be there.
pub proof fn lemma_inactive_rules_are_left_out(
    tables: AclTables,
    without: AclTables,
    location_id: Id,
    now: i64,
)
    requires
        without.rules@ == tables.rules@.filter(
            |rule: AclRule<Id>| is_active(rule, tables, location_id, now),
        ),
        without.aliases == tables.aliases,
        without.rule_networks == tables.rule_networks,
        without.rule_users == tables.rule_users,
        without.rule_groups == tables.rule_groups,
        without.rule_devices == tables.rule_devices,
        without.rule_destination_ranges == tables.rule_destination_ranges,
        without.rule_aliases == tables.rule_aliases,
    ensures
        active_rules(without, location_id, now) == active_rules(tables, location_id, now),
{
    let active = |rule: AclRule<Id>| is_active(rule, tables, location_id, now);
    let still_active = |rule: AclRule<Id>| is_active(rule, without, location_id, now);
    assert forall|rule: AclRule<Id>| #[trigger]
        rule_info(rule, without) == rule_info(rule, tables) by {}
    assert forall|i: int| 0 <= i < without.rules@.len() implies still_active(
        #[trigger] without.rules@[i],
    ) by {
        tables.rules@.lemma_filter_pred(active, i);
        assert(rule_info(without.rules@[i], without) == rule_info(without.rules@[i], tables));
    }
    lemma_filter_all(without.rules@, still_active);
    assert(active_rules(without, location_id, now) =~= active_rules(tables, location_id, now));
}

/// Whether one of the networks is an IPv4 network, or an IPv6 network.
pub open spec fn uses_version(networks: Seq<IpNetwork>, version: IpVersion) -> bool {
    exists|i: int|
        0 <= i < networks.len() && match #[trigger] networks[i] {
            IpNetwork::V4(_) => version == IpVersion::Ipv4,
            IpNetwork::V6(_) => version == IpVersion::Ipv6,
        }
}

pub(crate) proof fn lemma_uses_version(networks: Seq<IpNetwork>, version: IpVersion)
    ensures
        has_version(networks, version) <==> uses_version(networks, version),
{
    if has_version(networks, version) {
        let i = choose|i: int|
            0 <= i < networks.len() && (#[trigger] networks[i]).address().ip_version() == version;
        assert(match networks[i] {
            IpNetwork::V4(_) => version == IpVersion::Ipv4,
            IpNetwork::V6(_) => version == IpVersion::Ipv6,
        });
    }
    if uses_version(networks, version) {
        let i = choose|i: int|
            0 <= i < networks.len() && match #[trigger] networks[i] {
                IpNetwork::V4(_) => version == IpVersion::Ipv4,
                IpNetwork::V6(_) => version == IpVersion::Ipv6,
            };
        assert(networks[i].address().ip_version() == version);
    }
}

/// The rules that are selected for a location are the saved ones that are enabled, applied, not
/// expired, and tied to the location or to all locations: each of these four counts, whatever the
/// others say, and nothing else does.
pub proof fn lemma_four_things_make_a_rule_active(
    tables: AclTables,
    location_id: Id,
    now: i64,
    rule: AclRule<Id>,
)
    ensures
        (exists|i: int|
            0 <= i < active_rules(tables, location_id, now).len() && (
            #[trigger] active_rules(tables, location_id, now)[i]).rule == rule) <==> {
            &&& tables.rules@.contains(rule)
            &&& rule.enabled
            &&& rule.state == RuleState::Applied
            &&& rule.expires is None || rule.expires->0 > now
            &&& rule.all_networks || exists|row: int|
                0 <= row < tables.rule_networks@.len() && (
                #[trigger] tables.rule_networks@[row]).rule_id == rule.id
                    && tables.rule_networks@[row].network_id == location_id
        },
        forall|i: int|
            0 <= i < active_rules(tables, location_id, now).len() ==> (
            #[trigger] active_rules(tables, location_id, now)[i]) == rule_info(
                active_rules(tables, location_id, now)[i].rule,
                tables,
            ),
{
    let active = |rule: AclRule<Id>| is_active(rule, tables, location_id, now);
    let kept = tables.rules@.filter(active);
    let infos = active_rules(tables, location_id, now);
    lemma_info_tells_the_records(rule, tables, location_id);
    lemma_filter_holds(tables.rules@, active, rule);
    assert forall|i: int| 0 <= i < infos.len() implies (#[trigger] infos[i]) == rule_info(
        infos[i].rule,
        tables,
    ) && infos[i].rule == kept[i] by {
        lemma_info_tells_the_records(kept[i], tables, location_id);
    }
    if exists|i: int| 0 <= i < infos.len() && (#[trigger] infos[i]).rule == rule {
        let i = choose|i: int| 0 <= i < infos.len() && (#[trigger] infos[i]).rule == rule;
        assert(kept.contains(kept[i]));
    }
    if kept.contains(rule) {
        let i = kept.index_of(rule);
        assert(infos[i].rule == rule);
    }
}

/// A rule that is saved behind others is selected behind them, once, if it is enabled, applied, not
/// expired, and tied to the location or to all locations. Otherwise nothing changes.
pub proof fn lemma_rules_are_selected_one_by_one(
    before: AclTables,
    after: AclTables,
    location_id: Id,
    now: i64,
    rule: AclRule<Id>,
)
    requires
        after.rules@ == before.rules@.push(rule),
        after.aliases == before.aliases,
        after.rule_networks == before.rule_networks,
        after.rule_users == before.rule_users,
        after.rule_groups == before.rule_groups,
        after.rule_devices == before.rule_devices,
        after.rule_destination_ranges == before.rule_destination_ranges,
        after.rule_aliases == before.rule_aliases,
    ensures
        active_rules(after, location_id, now) == if rule.enabled && rule.state == RuleState::Applied
            && (rule.expires is None || rule.expires->0 > now) && (rule.all_networks || exists|
            row: int,
        |
            0 <= row < before.rule_networks@.len() && (
            #[trigger] before.rule_networks@[row]).rule_id == rule.id
                && before.rule_networks@[row].network_id == location_id) {
            active_rules(before, location_id, now).push(rule_info(rule, after))
        } else {
            active_rules(before, location_id, now)
        },
{
    let was_active = |r: AclRule<Id>| is_active(r, before, location_id, now);
    let active = |r: AclRule<Id>| is_active(r, after, location_id, now);
    let info_before = |r: AclRule<Id>| rule_info(r, before);
    let info_after = |r: AclRule<Id>| rule_info(r, after);
    assert forall|r: AclRule<Id>| #[trigger] rule_info(r, after) == rule_info(r, before) by {}
    assert(was_active =~= active) by {
        assert forall|r: AclRule<Id>| #[trigger] was_active(r) == active(r) by {
            assert(rule_info(r, after) == rule_info(r, before));
        }
    }
    assert(info_before =~= info_after) by {
        assert forall|r: AclRule<Id>| #[trigger] info_before(r) == info_after(r) by {
            assert(rule_info(r, after) == rule_info(r, before));
        }
    }
    lemma_info_tells_the_records(rule, after, location_id);
    reveal(Seq::filter);
    assert(after.rules@.drop_last() =~= before.rules@);
    let kept = before.rules@.filter(was_active);
    assert(kept.push(rule).map_values(info_after) =~= kept.map_values(info_after).push(
        rule_info(rule, after),
    ));
}

} // verus!
