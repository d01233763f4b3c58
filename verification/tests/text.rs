use defguard_core::ip::{IpAddr, IpNetwork, IpVersion, Ipv4Addr, Ipv4Network, Ipv6Addr, Ipv6Network};
use defguard_core::text::{decimal_text, ipv4_to_text, signed_decimal_text};

#[test]
fn numbers_are_written_in_decimal_notation() {
    assert_eq!(decimal_text(0), "0");
    assert_eq!(decimal_text(1_234_567_890), "1234567890");
    assert_eq!(decimal_text(u64::MAX), "18446744073709551615");
    assert_eq!(signed_decimal_text(17), "17");
    assert_eq!(signed_decimal_text(-203), "-203");
    assert_eq!(signed_decimal_text(i64::MIN), "-9223372036854775808");
}

#[test]
fn ipv4_addresses_are_written_with_dots() {
    assert_eq!(ipv4_to_text(0), "0.0.0.0");
    assert_eq!(ipv4_to_text(0xc0a8_0164), "192.168.1.100");
    assert_eq!(IpAddr::V4(Ipv4Addr::new(255, 255, 255, 255)).to_string(), "255.255.255.255");
}

#[test]
fn ipv6_addresses_are_written_in_short() {
    assert_eq!(IpAddr::V6(Ipv6Addr::unspecified()).to_string(), "::");
    assert_eq!(
        IpAddr::V6(Ipv6Addr::new(0x2001, 0xdb8, 0, 0, 0, 0, 0, 0x1f)).to_string(),
        "2001:db8::1f"
    );
    assert_eq!(
        IpAddr::V6(Ipv6Addr::new(0, 0, 0, 0, 0, 0xffff, 0x0a00, 1)).to_string(),
        "::ffff:10.0.0.1"
    );
}

#[test]
fn networks_are_written_with_their_prefix() {
    let v4 = Ipv4Network::new(Ipv4Addr::new(10, 1, 2, 3), 8).unwrap();
    assert_eq!(v4.to_string(), "10.1.2.3/8");
    let v6 = Ipv6Network::new(Ipv6Addr::new(0xfc00, 0, 0, 0, 0, 0, 0, 0), 112).unwrap();
    assert_eq!(v6.to_string(), "fc00::/112");
    assert_eq!(IpNetwork::V6(v6).to_string(), "fc00::/112");
    assert_eq!(IpNetwork::V4(v4).to_string(), "10.1.2.3/8");
}

#[test]
fn prefixes_that_are_too_long_are_refused() {
    assert!(Ipv4Network::new(Ipv4Addr::unspecified(), 33).is_none());
    assert!(Ipv6Network::new(Ipv6Addr::unspecified(), 129).is_none());
    assert!(IpNetwork::new(IpAddr::V4(Ipv4Addr::unspecified()), 64).is_none());
    assert!(IpNetwork::new(IpAddr::V6(Ipv6Addr::unspecified()), 64).is_some());
}

#[test]
fn networks_know_their_bounds() {
    let network = IpNetwork::new(IpAddr::V4(Ipv4Addr::new(192, 168, 1, 77)), 26).unwrap();
    let (first, last) = network.addr_bounds();
    assert_eq!(first, IpAddr::V4(Ipv4Addr::new(192, 168, 1, 64)));
    assert_eq!(last, IpAddr::V4(Ipv4Addr::new(192, 168, 1, 127)));
    assert_eq!(network.ip(), IpAddr::V4(Ipv4Addr::new(192, 168, 1, 77)));
    assert_eq!(network.prefix(), 26);

    let all = IpNetwork::new(IpAddr::V6(Ipv6Addr::unspecified()), 0).unwrap();
    assert_eq!(all.bounds(), (0, u128::MAX));
}

#[test]
fn addresses_and_numbers_are_the_same() {
    let addr = IpAddr::V4(Ipv4Addr::new(10, 0, 0, 1));
    assert_eq!(addr.to_bits(), 0x0a00_0001);
    assert_eq!(addr.version(), IpVersion::Ipv4);
    assert_eq!(IpAddr::from_bits(IpVersion::Ipv4, 0x0a00_0001), addr);
    let addr = IpAddr::V6(Ipv6Addr::new(0xff00, 0, 0, 0, 0, 0, 2, 1));
    assert_eq!(addr.to_bits(), 0xff00_0000_0000_0000_0000_0000_0002_0001);
    assert_eq!(IpAddr::from_bits(IpVersion::Ipv6, addr.to_bits()), addr);
}
