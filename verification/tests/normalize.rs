use moat::network::{normalize, CanonicalNetwork, Family};

fn v4(a: u8, b: u8, c: u8, d: u8) -> u128 {
    (u128::from(a) << 24) | (u128::from(b) << 16) | (u128::from(c) << 8) | u128::from(d)
}

fn parts(n: Option<CanonicalNetwork>) -> Option<(Family, u128, u8)> {
    n.map(|n| (n.family(), n.address(), n.prefix()))
}

#[test]
fn masks_host_bits_of_ipv4_cidr() {
    let n = normalize(Family::V4, "10.0.0.5/24").unwrap();
    assert_eq!(n.family(), Family::V4);
    assert_eq!(n.address(), v4(10, 0, 0, 0));
    assert_eq!(n.prefix(), 24);
}

#[test]
fn bare_ipv4_is_host_route() {
    let n = normalize(Family::V4, "10.0.0.5").unwrap();
    assert_eq!(n.address(), v4(10, 0, 0, 5));
    assert_eq!(n.prefix(), 32);
}

#[test]
fn masks_host_bits_of_ipv6_cidr() {
    let n = normalize(Family::V6, "2001:db8::1/64").unwrap();
    assert_eq!(n.family(), Family::V6);
    assert_eq!(n.address(), 0x2001_0db8_0000_0000_0000_0000_0000_0000u128);
    assert_eq!(n.prefix(), 64);
    assert_eq!(Some(n), CanonicalNetwork::new(Family::V6, 0x2001_0db8u128 << 96, 64));
}

#[test]
fn bare_ipv6_is_host_route() {
    let n = normalize(Family::V6, "2001:db8::1").unwrap();
    assert_eq!(n.address(), (0x2001_0db8u128 << 96) | 1);
    assert_eq!(n.prefix(), 128);
}

#[test]
fn rejection_set() {
    assert!(normalize(Family::V4, "").is_none());
    assert!(normalize(Family::V6, "").is_none());
    assert!(normalize(Family::V4, "not-an-ip").is_none());
    assert!(normalize(Family::V4, "10.0.0.1/33").is_none());
    assert!(normalize(Family::V4, "10.0.0.1/abc").is_none());
    assert!(normalize(Family::V6, "2001:db8::1/200").is_none());
}

#[test]
fn family_isolation() {
    assert!(normalize(Family::V4, "2001:db8::1").is_none());
    assert!(normalize(Family::V4, "2001:db8::/32").is_none());
    assert!(normalize(Family::V4, "::ffff:1.2.3.4").is_none());
    assert!(normalize(Family::V6, "10.0.0.5").is_none());
    assert!(normalize(Family::V6, "10.0.0.0/8").is_none());
    assert!(normalize(Family::V4, "10.0.0.1/2:4").is_none());
}

#[test]
fn prefix_zero_masks_everything() {
    assert_eq!(parts(normalize(Family::V4, "203.0.113.9/0")), Some((Family::V4, 0, 0)));
    assert_eq!(parts(normalize(Family::V6, "2001:db8::1/0")), Some((Family::V6, 0, 0)));
}

#[test]
fn longest_prefix_keeps_every_bit() {
    assert_eq!(
        parts(normalize(Family::V4, "255.255.255.255/32")),
        Some((Family::V4, 0xFFFF_FFFF, 32))
    );
    assert_eq!(
        parts(normalize(Family::V6, "ffff:ffff:ffff:ffff:ffff:ffff:ffff:ffff/128")),
        Some((Family::V6, u128::MAX, 128))
    );
    assert!(normalize(Family::V6, "::/129").is_none());
}

#[test]
fn each_ipv4_prefix_length_masks_exactly() {
    let all_ones = "255.255.255.255";
    let mut prefix: u32 = 0;
    while prefix <= 32 {
        let entry = format!("{}/{}", all_ones, prefix);
        let n = normalize(Family::V4, &entry).unwrap();
        let expected: u32 = if prefix == 0 { 0 } else { u32::MAX << (32 - prefix) };
        assert_eq!(n.address(), u128::from(expected));
        assert_eq!(u32::from(n.prefix()), prefix);
        prefix += 1;
    }
}

#[test]
fn each_ipv6_prefix_length_masks_exactly() {
    let all_ones = "ffff:ffff:ffff:ffff:ffff:ffff:ffff:ffff";
    let mut prefix: u32 = 0;
    while prefix <= 128 {
        let entry = format!("{}/{}", all_ones, prefix);
        let n = normalize(Family::V6, &entry).unwrap();
        let expected: u128 = if prefix == 0 { 0 } else { u128::MAX << (128 - prefix) };
        assert_eq!(n.address(), expected);
        assert_eq!(u32::from(n.prefix()), prefix);
        prefix += 1;
    }
}

#[test]
fn whitespace_around_entry_and_parts_is_ignored() {
    let expected = Some((Family::V4, v4(10, 0, 0, 0), 24));
    assert_eq!(parts(normalize(Family::V4, "  10.0.0.5/24\n")), expected);
    assert_eq!(parts(normalize(Family::V4, "10.0.0.5 / 24")), expected);
    assert_eq!(parts(normalize(Family::V4, "\t10.0.0.5\u{a0}/\u{2003}24\u{3000}")), expected);
    assert!(normalize(Family::V4, "   ").is_none());
    assert!(normalize(Family::V4, "10.0. 0.5/24").is_none());
    assert!(normalize(Family::V4, "10.0.0.5/2 4").is_none());
}

#[test]
fn prefix_numeral_forms() {
    let expected = Some((Family::V4, v4(10, 0, 0, 0), 24));
    assert_eq!(parts(normalize(Family::V4, "10.0.0.5/+24")), expected);
    assert_eq!(parts(normalize(Family::V4, "10.0.0.5/024")), expected);
    assert_eq!(parts(normalize(Family::V4, "10.0.0.5/0000000000000000000000024")), expected);
    assert!(normalize(Family::V4, "10.0.0.5/").is_none());
    assert!(normalize(Family::V4, "10.0.0.5/+").is_none());
    assert!(normalize(Family::V4, "10.0.0.5/-1").is_none());
    assert!(normalize(Family::V4, "10.0.0.5/++1").is_none());
    assert!(normalize(Family::V4, "10.0.0.5/24.0").is_none());
    assert!(normalize(Family::V4, "10.0.0.5/256").is_none());
    assert!(normalize(Family::V4, "10.0.0.5/99999999999999999999").is_none());
    assert!(normalize(Family::V6, "::1/255").is_none());
    assert!(normalize(Family::V6, "::1/256").is_none());
}

#[test]
fn more_than_one_slash_is_rejected() {
    assert!(normalize(Family::V4, "10.0.0.5/24/1").is_none());
    assert!(normalize(Family::V4, "10.0.0.5//24").is_none());
    assert!(normalize(Family::V4, "/10.0.0.5/24").is_none());
    assert!(normalize(Family::V6, "::1/64/").is_none());
    assert!(normalize(Family::V4, "/24").is_none());
    assert!(normalize(Family::V4, "/").is_none());
}

#[test]
fn ipv4_address_grammar() {
    assert_eq!(parts(normalize(Family::V4, "0.0.0.0")), Some((Family::V4, 0, 32)));
    assert_eq!(
        parts(normalize(Family::V4, "1.2.3.4")),
        Some((Family::V4, v4(1, 2, 3, 4), 32))
    );
    assert_eq!(
        parts(normalize(Family::V4, "192.168.100.255")),
        Some((Family::V4, v4(192, 168, 100, 255), 32))
    );
    assert!(normalize(Family::V4, "256.0.0.1").is_none());
    assert!(normalize(Family::V4, "1.2.3").is_none());
    assert!(normalize(Family::V4, "1.2.3.4.5").is_none());
    assert!(normalize(Family::V4, "1.2.3.").is_none());
    assert!(normalize(Family::V4, ".1.2.3").is_none());
    assert!(normalize(Family::V4, "1..2.3").is_none());
    assert!(normalize(Family::V4, "01.2.3.4").is_none());
    assert!(normalize(Family::V4, "1.2.3.004").is_none());
    assert!(normalize(Family::V4, "1.2.3.0004").is_none());
    assert!(normalize(Family::V4, "1.2.3.4a").is_none());
    assert!(normalize(Family::V4, "+1.2.3.4").is_none());
    assert!(normalize(Family::V4, "1.2.3.-4").is_none());
    assert!(normalize(Family::V4, "0x1.2.3.4").is_none());
    assert!(normalize(Family::V4, "16909060").is_none());
    assert!(normalize(Family::V4, "\u{661}.2.3.4").is_none());
}

#[test]
fn ipv6_address_grammar() {
    let host = |s: &str| normalize(Family::V6, s).map(|n| n.address());
    assert_eq!(host("::"), Some(0));
    assert_eq!(host("::1"), Some(1));
    assert_eq!(host("1::"), Some(1u128 << 112));
    assert_eq!(
        host("1:2:3:4:5:6:7:8"),
        Some(0x0001_0002_0003_0004_0005_0006_0007_0008u128)
    );
    assert_eq!(
        host("1:2:3:4:5:6:7::"),
        Some(0x0001_0002_0003_0004_0005_0006_0007_0000u128)
    );
    assert_eq!(
        host("::2:3:4:5:6:7:8"),
        Some(0x0000_0002_0003_0004_0005_0006_0007_0008u128)
    );
    assert_eq!(host("2001:DB8::Ab:0cD"), Some((0x2001_0db8u128 << 96) | 0x00ab_00cd));
    assert_eq!(host("0001:0002::0000:0008"), Some((0x0001_0002u128 << 96) | 8));
    assert_eq!(host("::ffff:1.2.3.4"), Some((0xffffu128 << 32) | 0x0102_0304));
    assert_eq!(host("::1.2.3.4"), Some(0x0102_0304));
    assert_eq!(
        host("1:2:3:4:5:6:1.2.3.4"),
        Some(0x0001_0002_0003_0004_0005_0006_0102_0304u128)
    );
    assert_eq!(host("64:ff9b::192.0.2.33"), Some((0x0064_ff9bu128 << 96) | 0xc000_0221));
    assert_eq!(host(":"), None);
    assert_eq!(host(":::"), None);
    assert_eq!(host("1:::2"), None);
    assert_eq!(host("1::2::3"), None);
    assert_eq!(host(":1::"), None);
    assert_eq!(host("1:2:3:4:5:6:7"), None);
    assert_eq!(host("1:2:3:4:5:6:7:8:9"), None);
    assert_eq!(host("1:2:3:4:5:6:7:8:"), None);
    assert_eq!(host(":1:2:3:4:5:6:7:8"), None);
    assert_eq!(host("1:2:3:4:5:6:7:8::"), None);
    assert_eq!(host("::1:2:3:4:5:6:7:8"), None);
    assert_eq!(host("1:2:3:4::5:6:7:8"), None);
    assert_eq!(host("1:2:3:4:5:6:7::8"), None);
    assert_eq!(host("12345::"), None);
    assert_eq!(host("::g"), None);
    assert_eq!(host("1.2.3.4::"), None);
    assert_eq!(host("::1.2.3.4:5"), None);
    assert_eq!(host("1:2:3:4:5:6:7:1.2.3.4"), None);
    assert_eq!(host("1:2:3:4:5:1.2.3.4"), None);
    assert_eq!(host("::1.2.3"), None);
    assert_eq!(host("::1.2.3.256"), None);
    assert_eq!(host("::01.2.3.4"), None);
    assert_eq!(host("fe80::1%eth0"), None);
    assert_eq!(host("[::1]"), None);
}

#[test]
fn new_accepts_canonical_parts_only() {
    assert!(CanonicalNetwork::new(Family::V4, v4(10, 0, 0, 0), 24).is_some());
    assert!(CanonicalNetwork::new(Family::V4, v4(10, 0, 0, 5), 24).is_none());
    assert!(CanonicalNetwork::new(Family::V4, v4(10, 0, 0, 5), 32).is_some());
    assert!(CanonicalNetwork::new(Family::V4, v4(10, 0, 0, 0), 33).is_none());
    assert!(CanonicalNetwork::new(Family::V4, 1u128 << 32, 0).is_none());
    assert!(CanonicalNetwork::new(Family::V4, 0, 0).is_some());
    assert!(CanonicalNetwork::new(Family::V6, 1u128 << 64, 64).is_some());
    assert!(CanonicalNetwork::new(Family::V6, 1u128 << 63, 64).is_none());
    assert!(CanonicalNetwork::new(Family::V6, 1, 129).is_none());
}

#[test]
fn containing_masks_the_address() {
    let n = CanonicalNetwork::containing(Family::V4, v4(192, 168, 77, 9), 20).unwrap();
    assert_eq!(n.address(), v4(192, 168, 64, 0));
    assert_eq!(n.prefix(), 20);
    assert_eq!(Some(n), normalize(Family::V4, "192.168.77.9/20"));
    assert!(CanonicalNetwork::containing(Family::V4, v4(1, 2, 3, 4), 33).is_none());
    assert!(CanonicalNetwork::containing(Family::V4, u128::MAX, 8).is_none());
    let m = CanonicalNetwork::containing(Family::V6, u128::MAX, 1).unwrap();
    assert_eq!(m.address(), 1u128 << 127);
}

#[test]
fn networks_are_equal_by_family_address_and_prefix() {
    let a = normalize(Family::V4, "10.1.2.3/8").unwrap();
    let b = normalize(Family::V4, " 10.200.0.0/8 ").unwrap();
    let c = normalize(Family::V4, "10.0.0.0/9").unwrap();
    let d = normalize(Family::V6, "::a00:0/104").unwrap();
    assert_eq!(a, b);
    assert_ne!(a, c);
    assert_ne!(a, d);
}
