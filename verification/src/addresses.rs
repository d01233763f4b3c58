//! Merging of addresses into lists of addresses, subnets and ranges.

use vstd::arithmetic::power2::pow2;
use vstd::prelude::*;

use crate::acl::AclRuleDestinationRange;
use crate::ip::{addr_text, IpAddr, IpNetwork, IpVersion, Ipv4Addr, Ipv6Addr, Ipv6Network};
use crate::proto::{addr_views, Address, AddressView, IpAddress, IpRange};
use crate::ranges::{covered, lemma_covered_push, merge_ranges, Span};
use crate::subnets::{
    fits, in_width, interval, is_pieces_of, largest_subnet, lemma_pieces_of, lemma_width_fits,
    pieces_cover, pieces_of, split_runs, Piece,
};
use crate::text::{decimal, ipv4_text, ipv6_text};
use crate::Id;

verus! {

/// The addresses from `start` to `end`, both included. A range whose ends are of different
/// versions, or whose start lies above its end, holds no address.
#[derive(Clone, Copy, Debug, PartialEq, Eq, Structural)]
pub struct AddrRange {
    pub start: IpAddr,
    pub end: IpAddr,
}

impl AddrRange {
    /// Whether the address of the given version with number `x` lies in the range.
    pub open spec fn has(self, version: IpVersion, x: int) -> bool {
        &&& self.start.ip_version() == version
        &&& self.end.ip_version() == version
        &&& self.start.value() <= x <= self.end.value()
    }
}

/// The addresses of one version that lie in at least one of the ranges, as numbers.
pub open spec fn addr_set(ranges: Seq<AddrRange>, version: IpVersion) -> Set<int> {
    Set::new(|x: int| exists|i: int| 0 <= i < ranges.len() && (#[trigger] ranges[i]).has(version, x))
}

/// The addresses of one version in a list, as numbers.
pub open spec fn ip_set(ips: Seq<IpAddr>, version: IpVersion) -> Set<int> {
    Set::new(
        |x: int|
            exists|i: int|
                0 <= i < ips.len() && (#[trigger] ips[i]).ip_version() == version && ips[i].value()
                    == x,
    )
}

/// The address of the given version with number `x`.
pub open spec fn addr_at(version: IpVersion, x: int) -> IpAddr {
    match version {
        IpVersion::Ipv4 => IpAddr::V4(Ipv4Addr { bits: x as u32 }),
        IpVersion::Ipv6 => IpAddr::V6(Ipv6Addr { bits: x as u128 }),
    }
}

/// The message for a piece of an address range.
pub open spec fn piece_message(version: IpVersion, piece: Piece) -> AddressView {
    match piece {
        Piece::Subnet { base, host_bits } => {
            let text = addr_text(addr_at(version, base as int));
            if host_bits == 0 {
                AddressView::Ip(text)
            } else {
                AddressView::IpSubnet(
                    text + seq!['/'] + decimal((version.bits() - host_bits) as nat),
                )
            }
        },
        Piece::Pair { first } => AddressView::IpRange(
            addr_text(addr_at(version, first as int)),
            addr_text(addr_at(version, first + 1)),
        ),
    }
}

/// The messages for the given pieces.
pub open spec fn piece_messages(version: IpVersion, pieces: Seq<Piece>) -> Seq<
    Option<AddressView>,
> {
    pieces.map_values(|piece: Piece| Some(piece_message(version, piece)))
}

/// The messages for a set of addresses: its largest subnets, single addresses and lone pairs, in
/// ascending order.
pub open spec fn addr_messages(version: IpVersion, addrs: Set<int>) -> Seq<Option<AddressView>> {
    piece_messages(version, pieces_of(version.bits(), addrs))
}

/// Every address of the piece is an address of the version.
pub open spec fn piece_in_width(width: nat, piece: Piece) -> bool {
    &&& piece.last() < pow2(width)
    &&& piece matches Piece::Subnet { base, host_bits } ==> host_bits <= width
}

fn render_piece(version: IpVersion, piece: Piece) -> (addr: IpAddress)
    requires
        piece_in_width(version.bits(), piece),
    ensures
        addr@ == Some(piece_message(version, piece)),
{
    let width: u8 = version.width();
    proof {
        lemma_width_fits(width as nat);
        crate::ip::lemma_pow2_widths();
        if let Piece::Subnet { base, host_bits } = piece {
            vstd::arithmetic::power2::lemma_pow2_pos(host_bits as nat);
        }
    }
    let address: Address = match piece {
        Piece::Subnet { base, host_bits } => {
            let first: IpAddr = IpAddr::from_bits(version, base);
            if host_bits == 0 {
                Address::Ip(first.to_string())
            } else {
                match IpNetwork::new(first, width - host_bits) {
                    Some(network) => Address::IpSubnet(network.to_string()),
                    None => Address::Ip(first.to_string()),
                }
            }
        },
        Piece::Pair { first } => {
            let start: IpAddr = IpAddr::from_bits(version, first);
            let end: IpAddr = IpAddr::from_bits(version, first + 1);
            Address::IpRange(IpRange { start: start.to_string(), end: end.to_string() })
        },
    };
    IpAddress { address: Some(address) }
}

/// Writes the messages for the given pieces.
fn render_pieces(version: IpVersion, pieces: &Vec<Piece>) -> (addrs: Vec<IpAddress>)
    requires
        forall|i: int|
            0 <= i < pieces@.len() ==> piece_in_width(version.bits(), #[trigger] pieces@[i]),
    ensures
        addr_views(addrs@) == piece_messages(version, pieces@),
{
    let mut addrs: Vec<IpAddress> = Vec::new();
    let mut i: usize = 0;
    while i < pieces.len()
        invariant
            i <= pieces.len(),
            forall|k: int|
                0 <= k < pieces@.len() ==> piece_in_width(version.bits(), #[trigger] pieces@[k]),
            addrs@.len() == i,
            forall|k: int|
                0 <= k < i ==> (#[trigger] addrs@[k])@ == Some(
                    piece_message(version, pieces@[k]),
                ),
        decreases pieces.len() - i,
    {
        addrs.push(render_piece(version, pieces[i]));
        i = i + 1;
    }
    assert(addr_views(addrs@) =~= piece_messages(version, pieces@));
    addrs
}

/// The pieces of the addresses that the spans cover.
fn pieces_of_spans(version: IpVersion, spans: &Vec<Span>) -> (pieces: Vec<Piece>)
    requires
        in_width(version.bits(), covered(spans@)),
    ensures
        is_pieces_of(version.bits(), pieces@, covered(spans@)),
        pieces@ == pieces_of(version.bits(), covered(spans@)),
        forall|i: int|
            0 <= i < pieces@.len() ==> piece_in_width(version.bits(), #[trigger] pieces@[i]),
{
    let runs: Vec<Span> = merge_ranges(spans);
    assert forall|i: int| 0 <= i < runs@.len() implies (#[trigger] runs@[i]).end < pow2(
        version.bits(),
    ) by {
        assert(runs@[i].has(runs@[i].end as int));
        assert(covered(runs@).contains(runs@[i].end as int));
    }
    let pieces: Vec<Piece> = split_runs(version.width(), &runs);
    proof {
        lemma_pieces_in_width(version.bits(), pieces@, covered(spans@));
    }
    pieces
}

/// The pieces of a set of addresses hold addresses only.
proof fn lemma_pieces_in_width(width: nat, pieces: Seq<Piece>, set: Set<int>)
    requires
        in_width(width, set),
        is_pieces_of(width, pieces, set),
    ensures
        forall|i: int| 0 <= i < pieces.len() ==> piece_in_width(width, #[trigger] pieces[i]),
{
    assert forall|i: int| 0 <= i < pieces.len() implies piece_in_width(
        width,
        #[trigger] pieces[i],
    ) by {
        assert(pieces[i].is_piece(width, set));
        if let Piece::Subnet { base, host_bits } = pieces[i] {
            vstd::arithmetic::power2::lemma_pow2_pos(host_bits as nat);
        }
        assert(pieces[i].has(pieces[i].last()));
        assert(pieces_cover(pieces).contains(pieces[i].last()));
    }
}

proof fn lemma_addr_set_in_width(ranges: Seq<AddrRange>, version: IpVersion)
    ensures
        in_width(version.bits(), addr_set(ranges, version)),
{
    crate::ip::lemma_pow2_widths();
    assert forall|x: int| #[trigger] addr_set(ranges, version).contains(x) implies 0 <= x < pow2(
        version.bits(),
    ) by {
        let i = choose|i: int| 0 <= i < ranges.len() && (#[trigger] ranges[i]).has(version, x);
        assert(ranges[i].end.ip_version() == version);
    }
}

/// The largest subnets of the addresses of one version that the ranges hold.
pub fn merge_version(ranges: &Vec<AddrRange>, version: IpVersion) -> (pieces: Vec<Piece>)
    ensures
        is_pieces_of(version.bits(), pieces@, addr_set(ranges@, version)),
        pieces@ == pieces_of(version.bits(), addr_set(ranges@, version)),
        forall|i: int|
            0 <= i < pieces@.len() ==> piece_in_width(version.bits(), #[trigger] pieces@[i]),
{
    let mut spans: Vec<Span> = Vec::new();
    let mut i: usize = 0;
    assert(covered(spans@) =~= addr_set(ranges@.take(0), version));
    while i < ranges.len()
        invariant
            i <= ranges.len(),
            covered(spans@) =~= addr_set(ranges@.take(i as int), version),
        decreases ranges.len() - i,
    {
        let range: AddrRange = ranges[i];
        proof {
            lemma_addr_set_push(ranges@.take(i as int), range, version);
            assert(ranges@.take(i as int).push(range) =~= ranges@.take(i + 1));
        }
        if range.start.version() == version && range.end.version() == version {
            let span: Span = Span { start: range.start.to_bits(), end: range.end.to_bits() };
            proof {
                lemma_covered_push(spans@, span);
                let one = seq![span];
                assert(covered(one) =~= interval(span.start as int, span.end as int)) by {
                    assert(one[0] == span);
                }
            }
            spans.push(span);
        }
        i = i + 1;
    }
    assert(ranges@.take(i as int) =~= ranges@);
    proof {
        lemma_addr_set_in_width(ranges@, version);
    }
    pieces_of_spans(version, &spans)
}

proof fn lemma_addr_set_push(ranges: Seq<AddrRange>, range: AddrRange, version: IpVersion)
    ensures
        addr_set(ranges.push(range), version) =~= addr_set(ranges, version).union(
            Set::new(|x: int| range.has(version, x)),
        ),
{
    let all = ranges.push(range);
    assert forall|x: int| addr_set(ranges, version).contains(x) implies addr_set(
        all,
        version,
    ).contains(x) by {
        let i = choose|i: int| 0 <= i < ranges.len() && (#[trigger] ranges[i]).has(version, x);
        assert(all[i].has(version, x));
    }
    assert forall|x: int| range.has(version, x) implies addr_set(all, version).contains(x) by {
        assert(all[ranges.len() as int].has(version, x));
    }
    assert forall|x: int| addr_set(all, version).contains(x) implies addr_set(
        ranges,
        version,
    ).contains(x) || range.has(version, x) by {
        let i = choose|i: int| 0 <= i < all.len() && (#[trigger] all[i]).has(version, x);
        if i < ranges.len() {
            assert(ranges[i].has(version, x));
        }
    }
}

/// Merges ranges of addresses that overlap or follow one another, and writes what they hold as the
/// largest subnets that fit: IPv4 first, then IPv6.
pub fn merge_addrs(addr_ranges: Vec<AddrRange>) -> (addrs: Vec<IpAddress>)
    ensures
        addr_views(addrs@) == addr_messages(
            IpVersion::Ipv4,
            addr_set(addr_ranges@, IpVersion::Ipv4),
        ) + addr_messages(IpVersion::Ipv6, addr_set(addr_ranges@, IpVersion::Ipv6)),
{
    let v4: Vec<Piece> = merge_version(&addr_ranges, IpVersion::Ipv4);
    let v6: Vec<Piece> = merge_version(&addr_ranges, IpVersion::Ipv6);
    let mut addrs: Vec<IpAddress> = render_pieces(IpVersion::Ipv4, &v4);
    let mut rest: Vec<IpAddress> = render_pieces(IpVersion::Ipv6, &v6);
    assert(addr_views(addrs@ + rest@) =~= addr_views(addrs@) + addr_views(rest@));
    addrs.append(&mut rest);
    addrs
}

pub(crate) proof fn lemma_ip_set_in_width(ips: Seq<IpAddr>, version: IpVersion)
    ensures
        in_width(version.bits(), ip_set(ips, version)),
{
    crate::ip::lemma_pow2_widths();
    assert forall|x: int| #[trigger] ip_set(ips, version).contains(x) implies 0 <= x < pow2(
        version.bits(),
    ) by {
        let i = choose|i: int|
            0 <= i < ips.len() && (#[trigger] ips[i]).ip_version() == version && ips[i].value()
                == x;
        assert(ips[i].ip_version() == version);
    }
}

proof fn lemma_ip_set_push(ips: Seq<IpAddr>, ip: IpAddr, version: IpVersion)
    ensures
        ip_set(ips.push(ip), version) =~= ip_set(ips, version).union(
            Set::new(|x: int| ip.ip_version() == version && ip.value() == x),
        ),
{
    let all = ips.push(ip);
    assert forall|x: int| ip_set(ips, version).contains(x) implies ip_set(
        all,
        version,
    ).contains(x) by {
        let i = choose|i: int|
            0 <= i < ips.len() && (#[trigger] ips[i]).ip_version() == version && ips[i].value()
                == x;
        assert(all[i].ip_version() == version);
    }
    if ip.ip_version() == version {
        assert(all[ips.len() as int].ip_version() == version);
        assert(ip_set(all, version).contains(ip.value() as int));
    }
    assert forall|x: int| ip_set(all, version).contains(x) implies ip_set(
        ips,
        version,
    ).contains(x) || ip.ip_version() == version && ip.value() == x by {
        let i = choose|i: int|
            0 <= i < all.len() && (#[trigger] all[i]).ip_version() == version && all[i].value()
                == x;
        if i < ips.len() {
            assert(ips[i].ip_version() == version);
        }
    }
}

/// The largest subnets of the addresses of one version in a list.
pub fn merge_ips(ips: &Vec<IpAddr>, version: IpVersion) -> (pieces: Vec<Piece>)
    ensures
        is_pieces_of(version.bits(), pieces@, ip_set(ips@, version)),
        pieces@ == pieces_of(version.bits(), ip_set(ips@, version)),
        forall|i: int|
            0 <= i < pieces@.len() ==> piece_in_width(version.bits(), #[trigger] pieces@[i]),
{
    let mut spans: Vec<Span> = Vec::new();
    let mut i: usize = 0;
    assert(covered(spans@) =~= ip_set(ips@.take(0), version));
    while i < ips.len()
        invariant
            i <= ips.len(),
            covered(spans@) =~= ip_set(ips@.take(i as int), version),
        decreases ips.len() - i,
    {
        let ip: IpAddr = ips[i];
        proof {
            lemma_ip_set_push(ips@.take(i as int), ip, version);
            assert(ips@.take(i as int).push(ip) =~= ips@.take(i + 1));
        }
        if ip.version() == version {
            let bits: u128 = ip.to_bits();
            let span: Span = Span { start: bits, end: bits };
            proof {
                lemma_covered_push(spans@, span);
                let one = seq![span];
                assert(covered(one) =~= interval(bits as int, bits as int)) by {
                    assert(one[0] == span);
                }
            }
            spans.push(span);
        }
        i = i + 1;
    }
    assert(ips@.take(i as int) =~= ips@);
    proof {
        lemma_ip_set_in_width(ips@, version);
    }
    pieces_of_spans(version, &spans)
}

/// The source addresses of a rule: the addresses of the devices of users and of network devices
/// that are of the given version, merged.
pub fn get_source_addrs(
    user_device_ips: Vec<IpAddr>,
    network_device_ips: Vec<IpAddr>,
    ip_version: IpVersion,
) -> (addrs: Vec<IpAddress>)
    ensures
        addr_views(addrs@) == addr_messages(
            ip_version,
            ip_set(user_device_ips@ + network_device_ips@, ip_version),
        ),
{
    let mut ips: Vec<IpAddr> = user_device_ips;
    let mut more: Vec<IpAddr> = network_device_ips;
    ips.append(&mut more);
    let pieces: Vec<Piece> = merge_ips(&ips, ip_version);
    render_pieces(ip_version, &pieces)
}

/// The addresses of one version that destination networks and ranges hold, as numbers.
pub open spec fn destination_set(
    networks: Seq<IpNetwork>,
    ranges: Seq<AclRuleDestinationRange<Id>>,
    version: IpVersion,
) -> Set<int> {
    Set::new(
        |x: int|
            {
                ||| exists|i: int| 0 <= i < networks.len() && (#[trigger] networks[i]).has(version, x)
                ||| exists|i: int| 0 <= i < ranges.len() && (#[trigger] ranges[i]).has(version, x)
            },
    )
}

/// Networks and ranges of destinations as ranges of addresses.
fn destination_ranges(
    dest_ips: &[IpNetwork],
    dest_ranges: &[AclRuleDestinationRange<Id>],
) -> (ranges: Vec<AddrRange>)
    ensures
        forall|version: IpVersion|
            #[trigger] addr_set(ranges@, version) == destination_set(
                dest_ips@,
                dest_ranges@,
                version,
            ),
{
    let mut ranges: Vec<AddrRange> = Vec::new();
    let mut i: usize = 0;
    while i < dest_ips.len()
        invariant
            i <= dest_ips.len(),
            ranges@.len() == i,
            forall|k: int, version: IpVersion, x: int|
                0 <= k < i ==> (#[trigger] ranges@[k].has(version, x) <==> dest_ips@[k].has(
                    version,
                    x,
                )),
        decreases dest_ips.len() - i,
    {
        let (start, end) = dest_ips[i].addr_bounds();
        ranges.push(AddrRange { start, end });
        i = i + 1;
    }
    let mut j: usize = 0;
    while j < dest_ranges.len()
        invariant
            j <= dest_ranges.len(),
            i == dest_ips.len(),
            ranges@.len() == i + j,
            forall|k: int, version: IpVersion, x: int|
                0 <= k < i ==> (#[trigger] ranges@[k].has(version, x) <==> dest_ips@[k].has(
                    version,
                    x,
                )),
            forall|k: int, version: IpVersion, x: int|
                i <= k < i + j ==> (#[trigger] ranges@[k].has(version, x) <==> dest_ranges@[k
                    - i].has(version, x)),
        decreases dest_ranges.len() - j,
    {
        ranges.push(AddrRange { start: dest_ranges[j].start, end: dest_ranges[j].end });
        j = j + 1;
    }
    assert forall|version: IpVersion| #[trigger]
        addr_set(ranges@, version) == destination_set(dest_ips@, dest_ranges@, version) by {
        let set = destination_set(dest_ips@, dest_ranges@, version);
        assert forall|x: int| addr_set(ranges@, version).contains(x) implies set.contains(x) by {
            let k = choose|k: int| 0 <= k < ranges@.len() && (#[trigger] ranges@[k]).has(version, x);
            if k < i {
                assert(dest_ips@[k].has(version, x));
            } else {
                assert(dest_ranges@[k - i].has(version, x));
            }
        }
        assert forall|x: int| set.contains(x) implies addr_set(ranges@, version).contains(x) by {
            if exists|k: int| 0 <= k < dest_ips@.len() && (#[trigger] dest_ips@[k]).has(version, x) {
                let k = choose|k: int|
                    0 <= k < dest_ips@.len() && (#[trigger] dest_ips@[k]).has(version, x);
                assert(ranges@[k].has(version, x));
            } else {
                let k = choose|k: int|
                    0 <= k < dest_ranges@.len() && (#[trigger] dest_ranges@[k]).has(version, x);
                assert(ranges@[i + k].has(version, x));
            }
        }
        assert(addr_set(ranges@, version) =~= set);
    }
    ranges
}

/// The largest subnets of the destination addresses of one version.
pub fn destination_pieces(
    dest_ips: &[IpNetwork],
    dest_ranges: &[AclRuleDestinationRange<Id>],
    version: IpVersion,
) -> (pieces: Vec<Piece>)
    ensures
        is_pieces_of(
            version.bits(),
            pieces@,
            destination_set(dest_ips@, dest_ranges@, version),
        ),
        pieces@ == pieces_of(
            version.bits(),
            destination_set(dest_ips@, dest_ranges@, version),
        ),
        forall|i: int|
            0 <= i < pieces@.len() ==> piece_in_width(version.bits(), #[trigger] pieces@[i]),
{
    let ranges: Vec<AddrRange> = destination_ranges(dest_ips, dest_ranges);
    merge_version(&ranges, version)
}

/// The destination addresses of a rule, merged: those of version 4 and those of version 6.
pub fn process_destination_addrs(
    dest_ips: &[IpNetwork],
    dest_ranges: &[AclRuleDestinationRange<Id>],
) -> (addrs: (Vec<IpAddress>, Vec<IpAddress>))
    ensures
        addr_views(addrs.0@) == addr_messages(
            IpVersion::Ipv4,
            destination_set(dest_ips@, dest_ranges@, IpVersion::Ipv4),
        ),
        addr_views(addrs.1@) == addr_messages(
            IpVersion::Ipv6,
            destination_set(dest_ips@, dest_ranges@, IpVersion::Ipv6),
        ),
{
    let v4: Vec<Piece> = destination_pieces(dest_ips, dest_ranges, IpVersion::Ipv4);
    let v6: Vec<Piece> = destination_pieces(dest_ips, dest_ranges, IpVersion::Ipv6);
    (render_pieces(IpVersion::Ipv4, &v4), render_pieces(IpVersion::Ipv6, &v6))
}

/// There are messages for a set of addresses just where the set holds an address.
pub proof fn lemma_no_addr_messages(version: IpVersion, addrs: Set<int>)
    requires
        in_width(version.bits(), addrs),
    ensures
        addr_messages(version, addrs).len() == 0 <==> addrs == Set::<int>::empty(),
{
    let pieces = pieces_of(version.bits(), addrs);
    lemma_pieces_of(version.bits(), addrs);
    if pieces.len() > 0 {
        if let Piece::Subnet { base, host_bits } = pieces[0] {
            vstd::arithmetic::power2::lemma_pow2_pos(host_bits as nat);
        }
        assert(pieces[0].has(pieces[0].first()));
        assert(pieces_cover(pieces).contains(pieces[0].first()));
    } else {
        assert(pieces_cover(pieces) =~= Set::<int>::empty());
    }
}

/// The messages for ranges of addresses depend on neither the order of the ranges nor on how often
/// a range is given.
pub proof fn lemma_merging_ignores_order(
    a: Seq<AddrRange>,
    b: Seq<AddrRange>,
    version: IpVersion,
)
    requires
        forall|range: AddrRange| a.contains(range) <==> b.contains(range),
    ensures
        addr_messages(version, addr_set(a, version)) == addr_messages(
            version,
            addr_set(b, version),
        ),
{
    assert forall|x: int| addr_set(a, version).contains(x) <==> addr_set(b, version).contains(x) by {
        if addr_set(a, version).contains(x) {
            let i = choose|i: int| 0 <= i < a.len() && (#[trigger] a[i]).has(version, x);
            assert(a.contains(a[i]));
            assert(b[b.index_of(a[i])].has(version, x));
        }
        if addr_set(b, version).contains(x) {
            let i = choose|i: int| 0 <= i < b.len() && (#[trigger] b[i]).has(version, x);
            assert(b.contains(b[i]));
            assert(a[a.index_of(b[i])].has(version, x));
        }
    }
    assert(addr_set(a, version) =~= addr_set(b, version));
}

/// Merging loses no address and adds none: an address lies in one of the ranges just where it lies
/// in one of the pieces that the messages are made of, and in that piece only.
pub proof fn lemma_merging_keeps_addresses(ranges: Seq<AddrRange>, version: IpVersion, x: int)
    ensures
        ({
            let pieces = pieces_of(version.bits(), addr_set(ranges, version));
            &&& (exists|i: int| 0 <= i < ranges.len() && (#[trigger] ranges[i]).has(version, x))
                <==> (exists|i: int| 0 <= i < pieces.len() && (#[trigger] pieces[i]).has(x))
            &&& forall|i: int, j: int|
                0 <= i < pieces.len() && 0 <= j < pieces.len() && (#[trigger] pieces[i]).has(x) && (
                #[trigger] pieces[j]).has(x) ==> i == j
            &&& addr_messages(version, addr_set(ranges, version)).len() == pieces.len()
        }),
{
    let set = addr_set(ranges, version);
    lemma_addr_set_in_width(ranges, version);
    lemma_pieces_of(version.bits(), set);
    assert(set.contains(x) <==> pieces_cover(pieces_of(version.bits(), set)).contains(x));
}

/// The highest address of an IPv6 network.
pub fn get_last_ip_in_v6_subnet(subnet: &Ipv6Network) -> (last: IpAddr)
    ensures
        last == addr_at(IpVersion::Ipv6, IpNetwork::V6(*subnet).last()),
        last.value() == IpNetwork::V6(*subnet).last(),
        forall|x: int|
            #[trigger] IpNetwork::V6(*subnet).has(IpVersion::Ipv6, x) ==> x <= last.value(),
{
    let network: IpNetwork = IpNetwork::V6(*subnet);
    network.addr_bounds().1
}

/// The largest subnet of two addresses or more that lies between two addresses, and of the
/// largest ones the first. There is none between addresses of different versions.
pub fn find_largest_subnet_in_range(start: IpAddr, end: IpAddr) -> (subnet: Option<IpNetwork>)
    ensures
        start.ip_version() != end.ip_version() || start.value() > end.value() ==> subnet is None,
        subnet is Some <==> start.ip_version() == end.ip_version() && exists|x: int, h: nat|
            1 <= h <= start.ip_version().bits() && #[trigger] fits(
                x,
                h,
                start.value() as int,
                end.value() as int,
            ),
        subnet matches Some(n) ==> {
            &&& n.address().ip_version() == start.ip_version()
            &&& n.host_bits() >= 1
            &&& n.prefix_len() <= start.ip_version().bits()
            &&& fits(
                n.address().value() as int,
                n.host_bits(),
                start.value() as int,
                end.value() as int,
            )
            &&& forall|x: int, h: nat|
                h <= start.ip_version().bits() && #[trigger] fits(
                    x,
                    h,
                    start.value() as int,
                    end.value() as int,
                ) ==> h < n.host_bits() || h == n.host_bits() && n.address().value() <= x
        },
{
    let version: IpVersion = start.version();
    if version != end.version() {
        return None;
    }
    let lo: u128 = start.to_bits();
    let hi: u128 = end.to_bits();
    if lo > hi {
        proof {
            assert forall|x: int, h: nat| !#[trigger] fits(x, h, lo as int, hi as int) by {
                vstd::arithmetic::power2::lemma_pow2_pos(h);
            }
        }
        return None;
    }
    let width: u8 = version.width();
    match largest_subnet(width, lo, hi) {
        Some((base, host_bits)) => {
            proof {
                vstd::arithmetic::power2::lemma_pow2_pos(host_bits as nat);
            }
            IpNetwork::new(IpAddr::from_bits(version, base), width - host_bits)
        },
        None => None,
    }
}

/// The text of the address of a version with number `x`.
pub open spec fn number_text(version: IpVersion, x: int) -> Seq<char> {
    match version {
        IpVersion::Ipv4 => ipv4_text(x as u32),
        IpVersion::Ipv6 => ipv6_text(x as u128),
    }
}

/// Whether a message speaks of the addresses from `lo` to `hi`: by the one address that this is, by
/// the first and the last of them, or by the subnet that they make up. A subnet that leaves `free`
/// bits to its hosts is written as its first address, a slash and the number of the other bits.
pub open spec fn reads_as(
    version: IpVersion,
    message: Option<AddressView>,
    lo: int,
    hi: int,
) -> bool {
    let width: int = match version {
        IpVersion::Ipv4 => 32,
        IpVersion::Ipv6 => 128,
    };
    match message {
        Some(AddressView::Ip(text)) => lo == hi && text == number_text(version, lo),
        Some(AddressView::IpRange(start, end)) => lo < hi && start == number_text(version, lo)
            && end == number_text(version, hi),
        Some(AddressView::IpSubnet(text)) => exists|free: nat|
            {
                &&& 1 <= free <= width
                &&& lo % (#[trigger] pow2(free) as int) == 0
                &&& hi == lo + pow2(free) - 1
                &&& text == number_text(version, lo) + seq!['/'] + decimal((width - free) as nat)
            },
        None => false,
    }
}

/// Whether a number lies between two others.
pub open spec fn lies_within(ends: (int, int), x: int) -> bool {
    ends.0 <= x && x <= ends.1
}

/// The messages, read one by one, speak of the addresses between these ends, which are those of the
/// set and no others.
pub open spec fn is_reading(
    version: IpVersion,
    messages: Seq<Option<AddressView>>,
    ends: Seq<(int, int)>,
    addrs: Set<int>,
) -> bool {
    &&& ends.len() == messages.len()
    &&& forall|i: int|
        0 <= i < ends.len() ==> reads_as(version, messages[i], (#[trigger] ends[i]).0, ends[i].1)
    &&& forall|x: int| #[trigger]
        addrs.contains(x) <==> exists|i: int|
            0 <= i < ends.len() && #[trigger] lies_within(ends[i], x)
}

/// The messages speak of the addresses of the set and of no others.
pub open spec fn describes(
    version: IpVersion,
    messages: Seq<Option<AddressView>>,
    addrs: Set<int>,
) -> bool {
    exists|ends: Seq<(int, int)>| is_reading(version, messages, ends, addrs)
}

/// The messages for a set of addresses speak of the addresses of the set and of no others.
pub proof fn lemma_messages_describe(version: IpVersion, addrs: Set<int>)
    requires
        in_width(version.bits(), addrs),
    ensures
        describes(version, addr_messages(version, addrs), addrs),
{
    let pieces = pieces_of(version.bits(), addrs);
    let messages = addr_messages(version, addrs);
    lemma_pieces_of(version.bits(), addrs);
    lemma_pieces_in_width(version.bits(), pieces, addrs);
    lemma_width_fits(version.bits());
    crate::ip::lemma_pow2_widths();
    let ends = pieces.map_values(|piece: Piece| (piece.first(), piece.last()));
    assert forall|i: int| 0 <= i < ends.len() implies reads_as(
        version,
        messages[i],
        (#[trigger] ends[i]).0,
        ends[i].1,
    ) by {
        assert(piece_in_width(version.bits(), pieces[i]));
        assert(pieces[i].is_piece(version.bits(), addrs));
        assert(messages[i] == Some(piece_message(version, pieces[i])));
        if let Piece::Subnet { base, host_bits } = pieces[i] {
            let h = host_bits as nat;
            vstd::arithmetic::power2::lemma_pow2_pos(h);
            vstd::arithmetic::power2::lemma2_to64();
            if h > 0 {
                crate::subnets::lemma_aligned_is_multiple(base as int, h);
                assert(base as int % (pow2(h) as int) == 0);
            }
        }
    }
    assert forall|x: int| #[trigger] addrs.contains(x) <==> exists|i: int|
        0 <= i < ends.len() && #[trigger] lies_within(ends[i], x) by {
        assert(addrs.contains(x) <==> pieces_cover(pieces).contains(x));
        if pieces_cover(pieces).contains(x) {
            let i = choose|i: int| 0 <= i < pieces.len() && (#[trigger] pieces[i]).has(x);
            assert(lies_within(ends[i], x));
        }
        if exists|i: int| 0 <= i < ends.len() && #[trigger] lies_within(ends[i], x) {
            let i = choose|i: int| 0 <= i < ends.len() && #[trigger] lies_within(ends[i], x);
            assert(pieces[i].has(x));
        }
    }
    assert(is_reading(version, messages, ends, addrs));
}

/// Whether an address is of the version and has the number `x`.
pub open spec fn is_number(ip: IpAddr, version: IpVersion, x: int) -> bool {
    match ip {
        IpAddr::V4(addr) => version == IpVersion::Ipv4 && x == addr.bits,
        IpAddr::V6(addr) => version == IpVersion::Ipv6 && x == addr.bits,
    }
}

/// Whether the address of the version with number `x` is not below the first address and not above
/// the second one, which are of that version.
pub open spec fn between_addrs(start: IpAddr, end: IpAddr, version: IpVersion, x: int) -> bool {
    match (start, end) {
        (IpAddr::V4(low), IpAddr::V4(high)) => version == IpVersion::Ipv4 && low.bits <= x && x
            <= high.bits,
        (IpAddr::V6(low), IpAddr::V6(high)) => version == IpVersion::Ipv6 && low.bits <= x && x
            <= high.bits,
        _ => false,
    }
}

/// Whether the address of the version with number `x` agrees with the address of the network in all
/// bits but those behind the prefix.
pub open spec fn shares_prefix(network: IpNetwork, version: IpVersion, x: int) -> bool {
    match network {
        IpNetwork::V4(n) => {
            let size = pow2((32 - n.prefix_len()) as nat) as int;
            version == IpVersion::Ipv4 && x / size == n.address().bits as int / size
        },
        IpNetwork::V6(n) => {
            let size = pow2((128 - n.prefix_len()) as nat) as int;
            version == IpVersion::Ipv6 && x / size == n.address().bits as int / size
        },
    }
}

/// Source messages speak of the addresses of the version in the two lists, and of no others.
pub proof fn lemma_source_messages_describe(
    user_device_ips: Seq<IpAddr>,
    network_device_ips: Seq<IpAddr>,
    version: IpVersion,
)
    ensures
        describes(
            version,
            addr_messages(version, ip_set(user_device_ips + network_device_ips, version)),
            Set::new(
                |x: int|
                    {
                        ||| exists|i: int|
                            0 <= i < user_device_ips.len() && #[trigger] is_number(
                                user_device_ips[i],
                                version,
                                x,
                            )
                        ||| exists|i: int|
                            0 <= i < network_device_ips.len() && #[trigger] is_number(
                                network_device_ips[i],
                                version,
                                x,
                            )
                    },
            ),
        ),
{
    let a = user_device_ips;
    let b = network_device_ips;
    let all = a + b;
    let direct = Set::new(
        |x: int|
            {
                ||| exists|i: int| 0 <= i < a.len() && #[trigger] is_number(a[i], version, x)
                ||| exists|i: int| 0 <= i < b.len() && #[trigger] is_number(b[i], version, x)
            },
    );
    assert forall|x: int| ip_set(all, version).contains(x) <==> direct.contains(x) by {
        if ip_set(all, version).contains(x) {
            let i = choose|i: int|
                0 <= i < all.len() && (#[trigger] all[i]).ip_version() == version && all[i].value()
                    == x;
            if i < a.len() {
                assert(is_number(a[i], version, x));
            } else {
                assert(is_number(b[i - a.len()], version, x));
            }
        }
        if exists|i: int| 0 <= i < a.len() && #[trigger] is_number(a[i], version, x) {
            let i = choose|i: int| 0 <= i < a.len() && #[trigger] is_number(a[i], version, x);
            assert(all[i] == a[i]);
            assert(all[i].ip_version() == version && all[i].value() == x);
        }
        if exists|i: int| 0 <= i < b.len() && #[trigger] is_number(b[i], version, x) {
            let i = choose|i: int| 0 <= i < b.len() && #[trigger] is_number(b[i], version, x);
            assert(all[a.len() + i] == b[i]);
            assert(all[a.len() + i].ip_version() == version && all[a.len() + i].value() == x);
        }
    }
    assert(ip_set(all, version) =~= direct);
    lemma_ip_set_in_width(all, version);
    lemma_messages_describe(version, ip_set(all, version));
}

/// The messages for merged ranges speak of the addresses that lie between the ends of some range,
/// and of no others.
pub proof fn lemma_merged_messages_describe(ranges: Seq<AddrRange>, version: IpVersion)
    ensures
        describes(
            version,
            addr_messages(version, addr_set(ranges, version)),
            Set::new(
                |x: int|
                    exists|i: int|
                        0 <= i < ranges.len() && #[trigger] between_addrs(
                            ranges[i].start,
                            ranges[i].end,
                            version,
                            x,
                        ),
            ),
        ),
{
    let direct = Set::new(
        |x: int|
            exists|i: int|
                0 <= i < ranges.len() && #[trigger] between_addrs(
                    ranges[i].start,
                    ranges[i].end,
                    version,
                    x,
                ),
    );
    assert forall|x: int| addr_set(ranges, version).contains(x) <==> direct.contains(x) by {
        if addr_set(ranges, version).contains(x) {
            let i = choose|i: int| 0 <= i < ranges.len() && (#[trigger] ranges[i]).has(version, x);
            assert(between_addrs(ranges[i].start, ranges[i].end, version, x));
        }
        if direct.contains(x) {
            let i = choose|i: int|
                0 <= i < ranges.len() && #[trigger] between_addrs(
                    ranges[i].start,
                    ranges[i].end,
                    version,
                    x,
                );
            assert(ranges[i].has(version, x));
        }
    }
    assert(addr_set(ranges, version) =~= direct);
    lemma_addr_set_in_width(ranges, version);
    lemma_messages_describe(version, addr_set(ranges, version));
}

/// Whether the address of the version with number `x` shares the prefix of some network, or lies
/// between the ends of some range.
pub open spec fn is_destination(
    networks: Seq<IpNetwork>,
    ranges: Seq<AclRuleDestinationRange<Id>>,
    version: IpVersion,
    x: int,
) -> bool {
    ||| exists|i: int| 0 <= i < networks.len() && #[trigger] shares_prefix(networks[i], version, x)
    ||| exists|i: int|
        0 <= i < ranges.len() && #[trigger] between_addrs(
            ranges[i].start,
            ranges[i].end,
            version,
            x,
        )
}

/// Destination messages speak of the addresses that share the prefix of some network or lie between
/// the ends of some range, and of no others.
pub proof fn lemma_destination_messages_describe(
    networks: Seq<IpNetwork>,
    ranges: Seq<AclRuleDestinationRange<Id>>,
    version: IpVersion,
)
    requires
        forall|i: int|
            0 <= i < networks.len() ==> (#[trigger] networks[i]).prefix_len()
                <= networks[i].address().ip_version().bits(),
    ensures
        describes(
            version,
            addr_messages(version, destination_set(networks, ranges, version)),
            Set::new(|x: int| is_destination(networks, ranges, version, x)),
        ),
{
    let set = destination_set(networks, ranges, version);
    let direct = Set::new(|x: int| is_destination(networks, ranges, version, x));
    assert forall|x: int| set.contains(x) <==> direct.contains(x) by {
        lemma_is_destination(networks, ranges, version, x);
    }
    assert(set =~= direct);
    lemma_destination_set_in_width(networks, ranges, version);
    lemma_messages_describe(version, set);
}

/// The destination addresses of networks and ranges, said by prefixes and ends.
pub proof fn lemma_is_destination(
    networks: Seq<IpNetwork>,
    ranges: Seq<AclRuleDestinationRange<Id>>,
    version: IpVersion,
    x: int,
)
    ensures
        destination_set(networks, ranges, version).contains(x) <==> is_destination(
            networks,
            ranges,
            version,
            x,
        ),
{
    assert forall|i: int| 0 <= i < networks.len() implies (#[trigger] networks[i].has(version, x)
        <==> shares_prefix(networks[i], version, x)) by {
        crate::ip::lemma_network_shares_a_prefix(networks[i], version, x);
    }
    assert forall|i: int| 0 <= i < ranges.len() implies (#[trigger] ranges[i].has(version, x)
        <==> between_addrs(ranges[i].start, ranges[i].end, version, x)) by {}
    if destination_set(networks, ranges, version).contains(x) {
        if exists|i: int| 0 <= i < networks.len() && (#[trigger] networks[i]).has(version, x) {
            let i = choose|i: int|
                0 <= i < networks.len() && (#[trigger] networks[i]).has(version, x);
            assert(shares_prefix(networks[i], version, x));
        } else {
            let i = choose|i: int| 0 <= i < ranges.len() && (#[trigger] ranges[i]).has(version, x);
            assert(between_addrs(ranges[i].start, ranges[i].end, version, x));
        }
    }
    if is_destination(networks, ranges, version, x) {
        if exists|i: int|
            0 <= i < networks.len() && #[trigger] shares_prefix(networks[i], version, x) {
            let i = choose|i: int|
                0 <= i < networks.len() && #[trigger] shares_prefix(networks[i], version, x);
            assert(networks[i].has(version, x));
        } else {
            let i = choose|i: int|
                0 <= i < ranges.len() && #[trigger] between_addrs(
                    ranges[i].start,
                    ranges[i].end,
                    version,
                    x,
                );
            assert(ranges[i].has(version, x));
        }
    }
}

proof fn lemma_destination_set_in_width(
    networks: Seq<IpNetwork>,
    ranges: Seq<AclRuleDestinationRange<Id>>,
    version: IpVersion,
)
    requires
        forall|i: int|
            0 <= i < networks.len() ==> (#[trigger] networks[i]).prefix_len()
                <= networks[i].address().ip_version().bits(),
    ensures
        in_width(version.bits(), destination_set(networks, ranges, version)),
{
    let set = destination_set(networks, ranges, version);
    crate::ip::lemma_pow2_widths();
    assert forall|x: int| #[trigger] set.contains(x) implies 0 <= x < pow2(version.bits()) by {
        if exists|i: int| 0 <= i < networks.len() && (#[trigger] networks[i]).has(version, x) {
            let i = choose|i: int|
                0 <= i < networks.len() && (#[trigger] networks[i]).has(version, x);
            crate::subnets::lemma_block_in_width(
                version.bits(),
                networks[i].address().value() as int,
                networks[i].host_bits(),
            );
        } else {
            let i = choose|i: int| 0 <= i < ranges.len() && (#[trigger] ranges[i]).has(version, x);
            assert(ranges[i].end.ip_version() == version);
        }
    }
}

} // verus!
