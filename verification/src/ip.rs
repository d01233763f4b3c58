//! IP addresses and networks.

use vstd::arithmetic::power2::pow2;
use vstd::prelude::*;

use crate::subnets::{
    block_end, block_start, lemma_block_in_width, lemma_width_fits, low_mask,
};
use crate::text::{
    decimal, ipv4_network_to_text, ipv4_text, ipv4_to_text, ipv6_network_to_text, ipv6_text,
    ipv6_to_text,
};

verus! {

/// The two versions of the internet protocol.
#[derive(Clone, Copy, Debug, PartialEq, Eq, Structural)]
pub enum IpVersion {
    Ipv4,
    Ipv6,
}

impl IpVersion {
    /// The number of bits of an address.
    pub open spec fn bits(self) -> nat {
        match self {
            IpVersion::Ipv4 => 32,
            IpVersion::Ipv6 => 128,
        }
    }

    /// The number of bits of an address.
    pub fn width(self) -> (width: u8)
        ensures
            width == self.bits(),
    {
        match self {
            IpVersion::Ipv4 => 32,
            IpVersion::Ipv6 => 128,
        }
    }
}

/// An IPv4 address, as a number.
#[derive(Clone, Copy, Debug, PartialEq, Eq, Structural)]
pub struct Ipv4Addr {
    pub bits: u32,
}

impl Ipv4Addr {
    /// The address with the four given bytes, the most significant one first.
    pub fn new(a: u8, b: u8, c: u8, d: u8) -> (addr: Self)
        ensures
            addr.bits == a * 0x1000000 + b * 0x10000 + c * 0x100 + d,
    {
        Ipv4Addr {
            bits: a as u32 * 0x1000000 + b as u32 * 0x10000 + c as u32 * 0x100 + d as u32,
        }
    }

    /// The address 0.0.0.0.
    pub fn unspecified() -> (addr: Self)
        ensures
            addr.bits == 0,
    {
        Ipv4Addr { bits: 0 }
    }
}

/// An IPv6 address, as a number.
#[derive(Clone, Copy, Debug, PartialEq, Eq, Structural)]
pub struct Ipv6Addr {
    pub bits: u128,
}

/// The number with the given digits to the base 65536, the most significant one first.
pub open spec fn segments_value(segments: Seq<u16>) -> int
    decreases segments.len(),
{
    if segments.len() == 0 {
        0
    } else {
        segments_value(segments.drop_last()) * 0x10000 + segments.last()
    }
}

impl Ipv6Addr {
    /// The address with the eight given segments, the most significant one first.
    pub fn new(a: u16, b: u16, c: u16, d: u16, e: u16, f: u16, g: u16, h: u16) -> (addr: Self)
        ensures
            addr.bits == segments_value(seq![a, b, c, d, e, f, g, h]),
    {
        let segments: [u16; 8] = [a, b, c, d, e, f, g, h];
        let mut bits: u128 = 0;
        let mut i: usize = 0;
        let ghost mut bound: int = 1;
        while i < 8
            invariant
                i <= 8,
                segments@.len() == 8,
                bits == segments_value(segments@.take(i as int)),
                bits < bound,
                i == 0 ==> bound == 1,
                i == 1 ==> bound == 0x10000,
                i == 2 ==> bound == 0x1_0000_0000,
                i == 3 ==> bound == 0x1_0000_0000_0000,
                i == 4 ==> bound == 0x1_0000_0000_0000_0000,
                i == 5 ==> bound == 0x1_0000_0000_0000_0000_0000,
                i == 6 ==> bound == 0x1_0000_0000_0000_0000_0000_0000,
                i == 7 ==> bound == 0x1_0000_0000_0000_0000_0000_0000_0000,
                i == 8 ==> bound == 0x1_0000_0000_0000_0000_0000_0000_0000_0000,
            decreases 8 - i,
        {
            assert(segments@.take(i + 1).drop_last() =~= segments@.take(i as int));
            bits = bits * 0x10000 + segments[i] as u128;
            i = i + 1;
            proof {
                bound = bound * 0x10000;
            }
        }
        assert(segments@.take(8) =~= seq![a, b, c, d, e, f, g, h]);
        Ipv6Addr { bits }
    }

    /// The address `::`.
    pub fn unspecified() -> (addr: Self)
        ensures
            addr.bits == 0,
    {
        Ipv6Addr { bits: 0 }
    }
}

/// An IP address of either version.
#[derive(Clone, Copy, Debug, PartialEq, Eq, Structural)]
pub enum IpAddr {
    V4(Ipv4Addr),
    V6(Ipv6Addr),
}

impl IpAddr {
    /// The version of the address.
    pub open spec fn ip_version(self) -> IpVersion {
        match self {
            IpAddr::V4(_) => IpVersion::Ipv4,
            IpAddr::V6(_) => IpVersion::Ipv6,
        }
    }

    /// The address as a number.
    pub open spec fn value(self) -> u128 {
        match self {
            IpAddr::V4(addr) => addr.bits as u128,
            IpAddr::V6(addr) => addr.bits,
        }
    }

    /// The version of the address.
    pub fn version(&self) -> (version: IpVersion)
        ensures
            version == self.ip_version(),
    {
        match self {
            IpAddr::V4(_) => IpVersion::Ipv4,
            IpAddr::V6(_) => IpVersion::Ipv6,
        }
    }

    /// The address as a number.
    pub fn to_bits(&self) -> (bits: u128)
        ensures
            bits == self.value(),
            bits < pow2(self.ip_version().bits()),
    {
        proof {
            lemma_pow2_widths();
        }
        match self {
            IpAddr::V4(addr) => addr.bits as u128,
            IpAddr::V6(addr) => addr.bits,
        }
    }

    /// The address of the given version with the given number.
    pub fn from_bits(version: IpVersion, bits: u128) -> (addr: Self)
        requires
            bits < pow2(version.bits()),
        ensures
            addr.ip_version() == version,
            addr.value() == bits,
    {
        proof {
            lemma_pow2_widths();
        }
        match version {
            IpVersion::Ipv4 => IpAddr::V4(Ipv4Addr { bits: bits as u32 }),
            IpVersion::Ipv6 => IpAddr::V6(Ipv6Addr { bits }),
        }
    }
}

pub(crate) proof fn lemma_pow2_widths()
    ensures
        pow2(32) == 0x1_0000_0000,
        pow2(128) == u128::MAX + 1,
{
    vstd::arithmetic::power2::lemma2_to64();
    vstd::arithmetic::power2::lemma_pow2_adds(64, 64);
}

/// The lowest and the highest address of the block of `2^host_bits` addresses that holds `bits`.
fn block_bounds(width: u8, bits: u128, host_bits: u8) -> (bounds: (u128, u128))
    requires
        host_bits <= width <= 128,
        bits < pow2(width as nat),
    ensures
        bounds.0 == block_start(bits as int, host_bits as nat),
        bounds.1 == block_end(bits as int, host_bits as nat),
        bounds.0 <= bounds.1 < pow2(width as nat),
{
    let mask: u128 = low_mask(host_bits);
    proof {
        lemma_pow2_widths();
        lemma_width_fits(width as nat);
        lemma_block_in_width(width as nat, bits as int, host_bits as nat);
        if mask == u128::MAX && host_bits < 128 {
            vstd::arithmetic::power2::lemma_pow2_strictly_increases(host_bits as nat, 128);
        }
    }
    let first: u128 = if mask == u128::MAX {
        0
    } else {
        bits - bits % (mask + 1)
    };
    (first, first + mask)
}

/// An IPv4 address together with the length of its network's prefix, such as 10.0.0.7/24.
#[derive(Clone, Copy, Debug, PartialEq, Eq)]
pub struct Ipv4Network {
    addr: Ipv4Addr,
    prefix: u8,
}

impl Ipv4Network {
    #[verifier::type_invariant]
    spec fn prefix_fits(self) -> bool {
        self.prefix <= 32
    }

    /// The address that the network was made of.
    pub closed spec fn address(self) -> Ipv4Addr {
        self.addr
    }

    /// The length of the network's prefix.
    pub closed spec fn prefix_len(self) -> u8 {
        self.prefix
    }

    /// Makes a network, unless the prefix is longer than the address.
    pub fn new(addr: Ipv4Addr, prefix: u8) -> (network: Option<Self>)
        ensures
            network is Some <==> prefix <= 32,
            network matches Some(n) ==> n.address() == addr && n.prefix_len() == prefix,
    {
        if prefix <= 32 {
            Some(Ipv4Network { addr, prefix })
        } else {
            None
        }
    }

    /// The address that the network was made of.
    pub fn ip(&self) -> (addr: Ipv4Addr)
        ensures
            addr == self.address(),
    {
        self.addr
    }

    /// The length of the network's prefix.
    pub fn prefix(&self) -> (prefix: u8)
        ensures
            prefix == self.prefix_len(),
            prefix <= 32,
    {
        proof {
            use_type_invariant(self);
        }
        self.prefix
    }

    /// The network as text.
    pub fn to_string(&self) -> (text: String)
        ensures
            text@ == ipv4_text(self.address().bits) + seq!['/'] + decimal(self.prefix_len() as nat),
    {
        let prefix: u8 = self.prefix();
        ipv4_network_to_text(self.addr.bits, prefix)
    }
}

/// An IPv6 address together with the length of its network's prefix, such as fc00::7/64.
#[derive(Clone, Copy, Debug, PartialEq, Eq)]
pub struct Ipv6Network {
    addr: Ipv6Addr,
    prefix: u8,
}

impl Ipv6Network {
    #[verifier::type_invariant]
    spec fn prefix_fits(self) -> bool {
        self.prefix <= 128
    }

    /// The address that the network was made of.
    pub closed spec fn address(self) -> Ipv6Addr {
        self.addr
    }

    /// The length of the network's prefix.
    pub closed spec fn prefix_len(self) -> u8 {
        self.prefix
    }

    /// Makes a network, unless the prefix is longer than the address.
    pub fn new(addr: Ipv6Addr, prefix: u8) -> (network: Option<Self>)
        ensures
            network is Some <==> prefix <= 128,
            network matches Some(n) ==> n.address() == addr && n.prefix_len() == prefix,
    {
        if prefix <= 128 {
            Some(Ipv6Network { addr, prefix })
        } else {
            None
        }
    }

    /// The address that the network was made of.
    pub fn ip(&self) -> (addr: Ipv6Addr)
        ensures
            addr == self.address(),
    {
        self.addr
    }

    /// The length of the network's prefix.
    pub fn prefix(&self) -> (prefix: u8)
        ensures
            prefix == self.prefix_len(),
            prefix <= 128,
    {
        proof {
            use_type_invariant(self);
        }
        self.prefix
    }

    /// The network as text.
    pub fn to_string(&self) -> (text: String)
        ensures
            text@ == ipv6_text(self.address().bits) + seq!['/'] + decimal(self.prefix_len() as nat),
    {
        let prefix: u8 = self.prefix();
        ipv6_network_to_text(self.addr.bits, prefix)
    }
}

/// A network of either version.
#[derive(Clone, Copy, Debug, PartialEq, Eq)]
pub enum IpNetwork {
    V4(Ipv4Network),
    V6(Ipv6Network),
}

impl IpNetwork {
    /// The address that the network was made of.
    pub open spec fn address(self) -> IpAddr {
        match self {
            IpNetwork::V4(network) => IpAddr::V4(network.address()),
            IpNetwork::V6(network) => IpAddr::V6(network.address()),
        }
    }

    /// The length of the network's prefix.
    pub open spec fn prefix_len(self) -> u8 {
        match self {
            IpNetwork::V4(network) => network.prefix_len(),
            IpNetwork::V6(network) => network.prefix_len(),
        }
    }

    /// The number of bits that the prefix leaves to the hosts of the network.
    pub open spec fn host_bits(self) -> nat {
        (self.address().ip_version().bits() - self.prefix_len()) as nat
    }

    /// The lowest address of the network, as a number.
    pub open spec fn first(self) -> int {
        block_start(self.address().value() as int, self.host_bits())
    }

    /// The highest address of the network, as a number.
    pub open spec fn last(self) -> int {
        block_end(self.address().value() as int, self.host_bits())
    }

    /// Whether the address of the given version with number `x` lies in the network.
    pub open spec fn has(self, version: IpVersion, x: int) -> bool {
        &&& self.address().ip_version() == version
        &&& self.first() <= x <= self.last()
    }

    /// The text of the network: its address, a slash and the length of its prefix.
    pub open spec fn text(self) -> Seq<char> {
        addr_text(self.address()) + seq!['/'] + decimal(self.prefix_len() as nat)
    }

    /// Makes a network, unless the prefix is longer than the address.
    pub fn new(addr: IpAddr, prefix: u8) -> (network: Option<Self>)
        ensures
            network is Some <==> prefix <= addr.ip_version().bits(),
            network matches Some(n) ==> n.address() == addr && n.prefix_len() == prefix,
    {
        match addr {
            IpAddr::V4(addr) => match Ipv4Network::new(addr, prefix) {
                Some(network) => Some(IpNetwork::V4(network)),
                None => None,
            },
            IpAddr::V6(addr) => match Ipv6Network::new(addr, prefix) {
                Some(network) => Some(IpNetwork::V6(network)),
                None => None,
            },
        }
    }

    /// The address that the network was made of.
    pub fn ip(&self) -> (addr: IpAddr)
        ensures
            addr == self.address(),
    {
        match self {
            IpNetwork::V4(network) => IpAddr::V4(network.ip()),
            IpNetwork::V6(network) => IpAddr::V6(network.ip()),
        }
    }

    /// The length of the network's prefix.
    pub fn prefix(&self) -> (prefix: u8)
        ensures
            prefix == self.prefix_len(),
            prefix <= self.address().ip_version().bits(),
    {
        match self {
            IpNetwork::V4(network) => network.prefix(),
            IpNetwork::V6(network) => network.prefix(),
        }
    }

    /// The lowest and the highest address of the network, as numbers.
    pub fn bounds(&self) -> (bounds: (u128, u128))
        ensures
            bounds.0 == self.first(),
            bounds.1 == self.last(),
            bounds.0 <= bounds.1 < pow2(self.address().ip_version().bits()),
    {
        let addr: IpAddr = self.ip();
        let width: u8 = addr.version().width();
        block_bounds(width, addr.to_bits(), width - self.prefix())
    }

    /// The lowest and the highest address of the network.
    pub fn addr_bounds(&self) -> (bounds: (IpAddr, IpAddr))
        ensures
            bounds.0.ip_version() == self.address().ip_version(),
            bounds.1.ip_version() == self.address().ip_version(),
            bounds.0.value() == self.first(),
            bounds.1.value() == self.last(),
    {
        let version: IpVersion = self.ip().version();
        let (first, last) = self.bounds();
        (IpAddr::from_bits(version, first), IpAddr::from_bits(version, last))
    }

    /// The network as text.
    pub fn to_string(&self) -> (text: String)
        ensures
            text@ == self.text(),
    {
        match self {
            IpNetwork::V4(network) => network.to_string(),
            IpNetwork::V6(network) => network.to_string(),
        }
    }
}

/// The text of an address.
pub open spec fn addr_text(addr: IpAddr) -> Seq<char> {
    match addr {
        IpAddr::V4(addr) => ipv4_text(addr.bits),
        IpAddr::V6(addr) => ipv6_text(addr.bits),
    }
}

impl IpAddr {
    /// The address as text.
    pub fn to_string(&self) -> (text: String)
        ensures
            text@ == addr_text(*self),
    {
        match self {
            IpAddr::V4(addr) => ipv4_to_text(addr.bits),
            IpAddr::V6(addr) => ipv6_to_text(addr.bits),
        }
    }
}

/// An address is its version and its number: 32 bits of an IPv4 address, 128 of an IPv6 address.
pub proof fn lemma_address_is_its_number(a: IpAddr, b: IpAddr)
    ensures
        IpVersion::Ipv4.bits() == 32,
        IpVersion::Ipv6.bits() == 128,
        a matches IpAddr::V4(addr) ==> a.ip_version() == IpVersion::Ipv4 && a.value() == addr.bits,
        a matches IpAddr::V6(addr) ==> a.ip_version() == IpVersion::Ipv6 && a.value() == addr.bits,
        a.ip_version() == b.ip_version() && a.value() == b.value() ==> a == b,
{
}

/// An address lies in a network just where it is of the network's version and has its prefix: it
/// agrees with the network's address in all but the bits behind the prefix.
pub proof fn lemma_network_shares_a_prefix(network: IpNetwork, version: IpVersion, x: int)
    ensures
        ({
            let behind = match network.address() {
                IpAddr::V4(_) => (32 - network.prefix_len()) as nat,
                IpAddr::V6(_) => (128 - network.prefix_len()) as nat,
            };
            network.has(version, x) <==> network.address().ip_version() == version && x / (pow2(
                behind,
            ) as int) == network.address().value() as int / (pow2(behind) as int)
        }),
{
    crate::subnets::lemma_block_is_a_quotient(
        network.address().value() as int,
        network.host_bits(),
        x,
    );
}

/// The number of an IPv6 address has its segments as digits to the base 65536.
pub proof fn lemma_segments_are_digits(
    a: u16,
    b: u16,
    c: u16,
    d: u16,
    e: u16,
    f: u16,
    g: u16,
    h: u16,
)
    ensures
        segments_value(seq![a, b, c, d, e, f, g, h]) == a
            * 0x1_0000_0000_0000_0000_0000_0000_0000int + b
            * 0x1_0000_0000_0000_0000_0000_0000int + c * 0x1_0000_0000_0000_0000_0000int + d
            * 0x1_0000_0000_0000_0000int + e * 0x1_0000_0000_0000int + f * 0x1_0000_0000int + g
            * 0x1_0000int + h,
{
    reveal_with_fuel(segments_value, 9);
    let s = seq![a, b, c, d, e, f, g, h];
    assert(s.drop_last() =~= seq![a, b, c, d, e, f, g]);
    assert(seq![a, b, c, d, e, f, g].drop_last() =~= seq![a, b, c, d, e, f]);
    assert(seq![a, b, c, d, e, f].drop_last() =~= seq![a, b, c, d, e]);
    assert(seq![a, b, c, d, e].drop_last() =~= seq![a, b, c, d]);
    assert(seq![a, b, c, d].drop_last() =~= seq![a, b, c]);
    assert(seq![a, b, c].drop_last() =~= seq![a, b]);
    assert(seq![a, b].drop_last() =~= seq![a]);
    assert(seq![a].drop_last() =~= Seq::<u16>::empty());
}

/// The text of an address is that of its version, and the text of a network is that of the address
/// that it was made of, a slash and the length of its prefix.
pub proof fn lemma_texts_go_by_version(addr: IpAddr, network: IpNetwork)
    ensures
        addr matches IpAddr::V4(v4) ==> addr_text(addr) == ipv4_text(v4.bits),
        addr matches IpAddr::V6(v6) ==> addr_text(addr) == ipv6_text(v6.bits),
        network.address() == addr ==> network.text() == addr_text(addr) + seq!['/'] + decimal(
            network.prefix_len() as nat,
        ),
        network matches IpNetwork::V4(n) ==> network.address() == IpAddr::V4(n.address())
            && network.prefix_len() == n.prefix_len(),
        network matches IpNetwork::V6(n) ==> network.address() == IpAddr::V6(n.address())
            && network.prefix_len() == n.prefix_len(),
{
}

} // verus!
