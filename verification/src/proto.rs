//! The messages that describe a firewall to a gateway.

use vstd::prelude::*;

use crate::ip::IpVersion;
use crate::Id;

verus! {

/// A range of addresses, both ends included.
#[derive(Debug, PartialEq, Eq)]
pub struct IpRange {
    pub start: String,
    pub end: String,
}

/// An address, a subnet or a range of addresses.
#[derive(Debug, PartialEq, Eq)]
pub enum Address {
    Ip(String),
    IpSubnet(String),
    IpRange(IpRange),
}

/// The addresses that a rule speaks of.
#[derive(Debug, PartialEq, Eq)]
pub struct IpAddress {
    pub address: Option<Address>,
}

impl Clone for IpRange {
    fn clone(&self) -> (range: Self)
        ensures
            range == *self,
    {
        IpRange { start: self.start.clone(), end: self.end.clone() }
    }
}

impl Clone for Address {
    fn clone(&self) -> (address: Self)
        ensures
            address == *self,
    {
        match self {
            Address::Ip(text) => Address::Ip(text.clone()),
            Address::IpSubnet(text) => Address::IpSubnet(text.clone()),
            Address::IpRange(range) => Address::IpRange(range.clone()),
        }
    }
}

impl Clone for IpAddress {
    fn clone(&self) -> (addr: Self)
        ensures
            addr == *self,
    {
        match &self.address {
            Some(address) => IpAddress { address: Some(address.clone()) },
            None => IpAddress { address: None },
        }
    }
}

/// What an [`Address`] says.
pub enum AddressView {
    Ip(Seq<char>),
    IpSubnet(Seq<char>),
    IpRange(Seq<char>, Seq<char>),
}

impl View for Address {
    type V = AddressView;

    open spec fn view(&self) -> AddressView {
        match self {
            Address::Ip(text) => AddressView::Ip(text@),
            Address::IpSubnet(text) => AddressView::IpSubnet(text@),
            Address::IpRange(range) => AddressView::IpRange(range.start@, range.end@),
        }
    }
}

impl View for IpAddress {
    type V = Option<AddressView>;

    open spec fn view(&self) -> Option<AddressView> {
        match self.address {
            Some(address) => Some(address@),
            None => None,
        }
    }
}

/// What a list of addresses says.
pub open spec fn addr_views(addrs: Seq<IpAddress>) -> Seq<Option<AddressView>> {
    addrs.map_values(|addr: IpAddress| addr@)
}

/// A range of ports, both ends included.
#[derive(Clone, Copy, Debug, PartialEq, Eq, Structural)]
pub struct PortRangeProto {
    pub start: u32,
    pub end: u32,
}

/// A port or a range of ports.
#[derive(Clone, Copy, Debug, PartialEq, Eq, Structural)]
pub enum PortInner {
    SinglePort(u32),
    PortRange(PortRangeProto),
}

/// The ports that a rule speaks of.
#[derive(Clone, Copy, Debug, PartialEq, Eq, Structural)]
pub struct Port {
    pub port: Option<PortInner>,
}

/// The transport protocols that a rule can name.
#[derive(Clone, Copy, Debug, PartialEq, Eq, Structural)]
pub enum Protocol {
    Tcp,
    Udp,
}

/// The number that is assigned to a protocol in the header of an IP packet.
pub open spec fn protocol_number(protocol: Protocol) -> i32 {
    match protocol {
        Protocol::Tcp => 6,
        Protocol::Udp => 17,
    }
}

impl From<Protocol> for i32 {
    fn from(protocol: Protocol) -> (number: i32) {
        match protocol {
            Protocol::Tcp => 6,
            Protocol::Udp => 17,
        }
    }
}

impl vstd::std_specs::convert::FromSpecImpl<Protocol> for i32 {
    open spec fn obeys_from_spec() -> bool {
        true
    }

    open spec fn from_spec(protocol: Protocol) -> i32 {
        protocol_number(protocol)
    }
}

/// What becomes of a packet.
#[derive(Clone, Copy, Debug, PartialEq, Eq, Structural)]
pub enum FirewallPolicy {
    Allow,
    Deny,
}

/// A rule of a firewall. An empty list of addresses, ports or protocols stands for all of them.
#[derive(Clone, Debug, PartialEq, Eq)]
pub struct FirewallRule {
    pub id: Id,
    pub source_addrs: Vec<IpAddress>,
    pub destination_addrs: Vec<IpAddress>,
    pub destination_ports: Vec<Port>,
    pub protocols: Vec<i32>,
    pub verdict: FirewallPolicy,
    pub comment: Option<String>,
    pub ip_version: IpVersion,
}

/// What a [`FirewallRule`] says.
#[verifier::ext_equal]
pub struct FirewallRuleView {
    pub id: Id,
    pub source_addrs: Seq<Option<AddressView>>,
    pub destination_addrs: Seq<Option<AddressView>>,
    pub destination_ports: Seq<Port>,
    pub protocols: Seq<i32>,
    pub verdict: FirewallPolicy,
    pub comment: Option<Seq<char>>,
    pub ip_version: IpVersion,
}

impl View for FirewallRule {
    type V = FirewallRuleView;

    open spec fn view(&self) -> FirewallRuleView {
        FirewallRuleView {
            id: self.id,
            source_addrs: addr_views(self.source_addrs@),
            destination_addrs: addr_views(self.destination_addrs@),
            destination_ports: self.destination_ports@,
            protocols: self.protocols@,
            verdict: self.verdict,
            comment: match self.comment {
                Some(comment) => Some(comment@),
                None => None,
            },
            ip_version: self.ip_version,
        }
    }
}

/// What a list of rules says.
pub open spec fn rule_views(rules: Seq<FirewallRule>) -> Seq<FirewallRuleView> {
    rules.map_values(|rule: FirewallRule| rule@)
}

/// The firewall of a location: its rules, and the policy for packets that no rule speaks of.
#[derive(Clone, Debug, PartialEq, Eq)]
pub struct FirewallConfig {
    pub default_policy: FirewallPolicy,
    pub rules: Vec<FirewallRule>,
}

/// The views of messages tell everything that they say.
pub proof fn lemma_messages_are_told_by_their_views(
    text: String,
    range: IpRange,
    address: Address,
    rule: FirewallRule,
    i: int,
)
    ensures
        Address::Ip(text)@ == AddressView::Ip(text@),
        Address::IpSubnet(text)@ == AddressView::IpSubnet(text@),
        Address::IpRange(range)@ == AddressView::IpRange(range.start@, range.end@),
        (IpAddress { address: Some(address) })@ == Some(address@),
        (IpAddress { address: None })@ is None,
        rule@.id == rule.id,
        rule@.source_addrs.len() == rule.source_addrs@.len(),
        0 <= i < rule.source_addrs@.len() ==> rule@.source_addrs[i] == rule.source_addrs@[i]@,
        rule@.destination_addrs.len() == rule.destination_addrs@.len(),
        0 <= i < rule.destination_addrs@.len() ==> rule@.destination_addrs[i]
            == rule.destination_addrs@[i]@,
        rule@.destination_ports == rule.destination_ports@,
        rule@.protocols == rule.protocols@,
        rule@.verdict == rule.verdict,
        rule@.comment is Some <==> rule.comment is Some,
        rule.comment matches Some(comment) ==> rule@.comment == Some(comment@),
        rule@.ip_version == rule.ip_version,
        protocol_number(Protocol::Tcp) == 6,
        protocol_number(Protocol::Udp) == 17,
{
}

/// What a list of rules says, it says rule by rule, in their order.
pub proof fn lemma_rules_are_told_one_by_one(rules: Seq<FirewallRule>, i: int)
    ensures
        rule_views(rules).len() == rules.len(),
        0 <= i < rules.len() ==> rule_views(rules)[i] == rules[i]@,
{
}

} // verus!
