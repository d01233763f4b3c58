use defguard_core::addresses::{find_largest_subnet_in_range, merge_addrs, AddrRange};
use defguard_core::ip::{IpAddr, IpNetwork, Ipv4Addr, Ipv6Addr};
use defguard_core::ports::{merge_port_ranges, PortRange};
use defguard_core::proto::{Address, IpAddress, IpRange, Port, PortInner, PortRangeProto};
use defguard_core::protocols::sort_protocols;
use defguard_core::ranges::{merge_ranges, Span};
use defguard_core::subnets::{largest_subnet, split_runs, Piece};

fn span(start: u128, end: u128) -> Span {
    Span { start, end }
}

fn v4(a: u8, b: u8, c: u8, d: u8) -> IpAddr {
    IpAddr::V4(Ipv4Addr::new(a, b, c, d))
}

fn subnet(text: &str) -> IpAddress {
    IpAddress { address: Some(Address::IpSubnet(text.to_string())) }
}

#[test]
fn ranges_that_overlap_or_touch_are_merged() {
    assert_eq!(merge_ranges(&vec![span(5, 9), span(1, 2), span(3, 3)]), [span(1, 3), span(5, 9)]);
    assert_eq!(merge_ranges(&vec![span(1, 2), span(4, 5), span(2, 4)]), [span(1, 5)]);
    assert_eq!(merge_ranges(&vec![span(7, 3)]), []);
    assert_eq!(merge_ranges(&Vec::new()), []);
    assert_eq!(
        merge_ranges(&vec![span(u128::MAX, u128::MAX), span(0, u128::MAX)]),
        [span(0, u128::MAX)]
    );
}

#[test]
fn merging_again_changes_nothing() {
    let merged = merge_ranges(&vec![span(9, 12), span(0, 3), span(4, 5), span(20, 20)]);
    assert_eq!(merged, [span(0, 5), span(9, 12), span(20, 20)]);
    assert_eq!(merge_ranges(&merged), merged);
}

#[test]
fn runs_are_split_into_the_largest_subnets() {
    let pieces = split_runs(32, &vec![span(1, 6), span(9, 10), span(12, 12)]);
    assert_eq!(
        pieces,
        [
            Piece::Subnet { base: 1, host_bits: 0 },
            Piece::Subnet { base: 2, host_bits: 1 },
            Piece::Subnet { base: 4, host_bits: 1 },
            Piece::Subnet { base: 6, host_bits: 0 },
            Piece::Pair { first: 9 },
            Piece::Subnet { base: 12, host_bits: 0 },
        ]
    );
    assert_eq!(
        split_runs(128, &vec![span(0, u128::MAX)]),
        [Piece::Subnet { base: 0, host_bits: 128 }]
    );
}

#[test]
fn largest_subnet_is_the_first_of_its_size() {
    assert_eq!(largest_subnet(32, 3, 12), Some((4, 2)));
    assert_eq!(largest_subnet(32, 1, 2), None);
    assert_eq!(largest_subnet(32, 8, 8), None);
    assert_eq!(largest_subnet(32, 0, 0xffff_ffff), Some((0, 32)));
}

#[test]
fn find_largest_subnet_ignores_single_addresses() {
    assert!(find_largest_subnet_in_range(v4(10, 0, 0, 1), v4(10, 0, 0, 1)).is_none());
    assert!(find_largest_subnet_in_range(v4(10, 0, 0, 1), v4(10, 0, 0, 2)).is_none());
    let found = find_largest_subnet_in_range(v4(0, 0, 0, 0), v4(255, 255, 255, 255));
    assert_eq!(found, IpNetwork::new(v4(0, 0, 0, 0), 0));
}

#[test]
fn merged_addresses_depend_on_neither_order_nor_repetition() {
    let a = AddrRange { start: v4(10, 0, 0, 0), end: v4(10, 0, 0, 3) };
    let b = AddrRange { start: v4(10, 0, 0, 4), end: v4(10, 0, 0, 7) };
    let expected = [subnet("10.0.0.0/29")];
    assert_eq!(merge_addrs(vec![a, b]), expected);
    assert_eq!(merge_addrs(vec![b, a, b]), expected);
}

#[test]
fn versions_are_kept_apart() {
    let low = IpAddr::V6(Ipv6Addr::new(0, 0, 0, 0, 0, 0, 0, 1));
    let high = IpAddr::V6(Ipv6Addr::new(0, 0, 0, 0, 0, 0, 0, 2));
    let merged = merge_addrs(vec![
        AddrRange { start: low, end: high },
        AddrRange { start: v4(0, 0, 0, 1), end: v4(0, 0, 0, 1) },
        AddrRange { start: v4(0, 0, 0, 1), end: high },
        AddrRange { start: v4(0, 0, 0, 9), end: v4(0, 0, 0, 8) },
    ]);
    assert_eq!(
        merged,
        [
            IpAddress { address: Some(Address::Ip("0.0.0.1".to_string())) },
            IpAddress {
                address: Some(Address::IpRange(IpRange {
                    start: "::1".to_string(),
                    end: "::2".to_string(),
                })),
            },
        ]
    );
}

#[test]
fn ports_that_touch_are_merged() {
    let expected = [
        Port { port: Some(PortInner::PortRange(PortRangeProto { start: 1, end: 4 })) },
        Port { port: Some(PortInner::SinglePort(65535)) },
    ];
    let a = PortRange::new(1, 2);
    let b = PortRange::new(3, 4);
    let c = PortRange::new(65535, 65535);
    assert_eq!(merge_port_ranges(vec![a, b, c]), expected);
    assert_eq!(merge_port_ranges(vec![c, b, a, c, PortRange::new(9, 8)]), expected);
    assert_eq!(merge_port_ranges(Vec::new()), []);
}

#[test]
fn protocols_are_sorted_and_occur_once() {
    assert_eq!(sort_protocols(&vec![17, 6, 17, 1, 6]), [1, 6, 17]);
    assert_eq!(sort_protocols(&Vec::new()), []);
}
