use moat::network::{normalize, CanonicalNetwork, Family};

fn text_of(family: Family, entry: &str) -> String {
    normalize(family, entry).unwrap().to_text()
}

#[test]
fn ipv4_text_is_dotted_decimal_with_prefix() {
    assert_eq!(text_of(Family::V4, "10.0.0.5/24"), "10.0.0.0/24");
    assert_eq!(text_of(Family::V4, "10.0.0.5"), "10.0.0.5/32");
    assert_eq!(text_of(Family::V4, "255.255.255.255"), "255.255.255.255/32");
    assert_eq!(text_of(Family::V4, "1.2.3.4/0"), "0.0.0.0/0");
    assert_eq!(text_of(Family::V4, "192.168.100.99/+031"), "192.168.100.98/31");
    assert_eq!(text_of(Family::V4, "109.10.9.100/32"), "109.10.9.100/32");
}

#[test]
fn ipv6_text_compresses_the_first_longest_zero_run() {
    assert_eq!(text_of(Family::V6, "2001:db8::1/64"), "2001:db8::/64");
    assert_eq!(text_of(Family::V6, "::"), "::/128");
    assert_eq!(text_of(Family::V6, "::1"), "::1/128");
    assert_eq!(text_of(Family::V6, "1::"), "1::/128");
    assert_eq!(text_of(Family::V6, "1:0:0:2:0:0:0:3"), "1:0:0:2::3/128");
    assert_eq!(text_of(Family::V6, "1:0:0:2:0:0:3:4"), "1::2:0:0:3:4/128");
    assert_eq!(text_of(Family::V6, "1:0:2:3:4:5:6:7"), "1:0:2:3:4:5:6:7/128");
    assert_eq!(text_of(Family::V6, "0:1:2:3:4:5:6:7"), "0:1:2:3:4:5:6:7/128");
    assert_eq!(text_of(Family::V6, "1:2:3:4:5:6:0:0"), "1:2:3:4:5:6::/128");
    assert_eq!(text_of(Family::V6, "0:0:1:2:3:4:5:6"), "::1:2:3:4:5:6/128");
    assert_eq!(text_of(Family::V6, "ABCD:EF01:2345:6789:abcd:ef01:2345:6789"),
        "abcd:ef01:2345:6789:abcd:ef01:2345:6789/128");
    assert_eq!(text_of(Family::V6, "0001:0020:0300:4000::/64"), "1:20:300:4000::/64");
}

#[test]
fn ipv6_text_of_mapped_address_ends_in_dotted_decimal() {
    assert_eq!(text_of(Family::V6, "::ffff:1.2.3.4"), "::ffff:1.2.3.4/128");
    assert_eq!(text_of(Family::V6, "::ffff:102:304"), "::ffff:1.2.3.4/128");
    assert_eq!(text_of(Family::V6, "::ffff:0:0/96"), "::ffff:0.0.0.0/96");
    assert_eq!(text_of(Family::V6, "::1.2.3.4"), "::102:304/128");
    assert_eq!(text_of(Family::V6, "::fffe:1.2.3.4"), "::fffe:102:304/128");
}

#[test]
fn address_text_of_chosen_bit_patterns() {
    let v6: [(u128, &str); 12] = [
        (0, "::"),
        (1, "::1"),
        (u128::MAX, "ffff:ffff:ffff:ffff:ffff:ffff:ffff:ffff"),
        (0x2001_0db8_0000_0000_0000_0000_0000_0001, "2001:db8::1"),
        (0x0001_0000_0000_0002_0000_0000_0000_0003, "1:0:0:2::3"),
        (0x0001_0000_0000_0002_0000_0000_0003_0004, "1::2:0:0:3:4"),
        (0x0000_0000_0000_0000_0000_ffff_c0a8_0001, "::ffff:192.168.0.1"),
        (0x0000_0000_0000_0000_0000_0000_c0a8_0001, "::c0a8:1"),
        (0x0000_0001_0000_0001_0000_0001_0000_0001, "0:1:0:1:0:1:0:1"),
        (0xfe80_0000_0000_0000_0202_b3ff_fe1e_8329, "fe80::202:b3ff:fe1e:8329"),
        (0x0001_0002_0003_0004_0005_0006_0007_0000, "1:2:3:4:5:6:7:0"),
        (0x0000_0000_0001_0000_0000_0000_0000_0000, "0:0:1::"),
    ];
    for (bits, text) in v6 {
        let n = CanonicalNetwork::new(Family::V6, bits, 128).unwrap();
        assert_eq!(n.to_text(), format!("{}/128", text));
        assert_eq!(normalize(Family::V6, text), Some(n));
    }
    let v4: [(u32, &str); 6] = [
        (0, "0.0.0.0"),
        (1, "0.0.0.1"),
        (u32::MAX, "255.255.255.255"),
        (0x0a00_0005, "10.0.0.5"),
        (0xc0a8_64ff, "192.168.100.255"),
        (0x7f00_0001, "127.0.0.1"),
    ];
    for (bits, text) in v4 {
        let n = CanonicalNetwork::new(Family::V4, u128::from(bits), 32).unwrap();
        assert_eq!(n.to_text(), format!("{}/32", text));
        assert_eq!(normalize(Family::V4, text), Some(n));
    }
}

#[test]
fn canonical_text_normalises_to_the_same_network() {
    let entries = [
        (Family::V4, "10.0.0.5/24"),
        (Family::V4, "10.0.0.5"),
        (Family::V4, " 203.0.113.77 / +09 "),
        (Family::V4, "0.0.0.0/0"),
        (Family::V6, "2001:db8::1/64"),
        (Family::V6, "::ffff:10.1.2.3/120"),
        (Family::V6, "::10.1.2.3"),
        (Family::V6, "1:0:0:2:0:0:0:3/127"),
        (Family::V6, "::/0"),
        (Family::V6, "ffff:ffff:ffff:ffff:ffff:ffff:ffff:ffff"),
    ];
    for (family, entry) in entries {
        let first = normalize(family, entry).unwrap();
        let again = normalize(family, &first.to_text()).unwrap();
        assert_eq!(first, again);
        assert_eq!(first.to_text(), again.to_text());
    }
}
