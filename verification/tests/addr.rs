use clapscan::addr::{parse_ip_literal, select_address, IpAddress};

#[test]
fn loopback_is_a_literal() {
    assert_eq!(parse_ip_literal("127.0.0.1"), Some(IpAddress::V4(127, 0, 0, 1)));
}

#[test]
fn ipv4_bounds() {
    assert_eq!(parse_ip_literal("0.0.0.0"), Some(IpAddress::V4(0, 0, 0, 0)));
    assert_eq!(
        parse_ip_literal("255.255.255.255"),
        Some(IpAddress::V4(255, 255, 255, 255))
    );
    assert_eq!(parse_ip_literal("256.0.0.1"), None);
    assert_eq!(parse_ip_literal("1.2.3"), None);
    assert_eq!(parse_ip_literal("1.2.3.4.5"), None);
    assert_eq!(parse_ip_literal("01.2.3.4"), None);
    assert_eq!(parse_ip_literal("1.2.3.4 "), None);
}

#[test]
fn ipv6_loopback() {
    assert_eq!(
        parse_ip_literal("::1"),
        Some(IpAddress::V6(0, 0, 0, 0, 0, 0, 0, 1))
    );
}

#[test]
fn ipv6_unspecified() {
    assert_eq!(
        parse_ip_literal("::"),
        Some(IpAddress::V6(0, 0, 0, 0, 0, 0, 0, 0))
    );
}

#[test]
fn ipv6_full_form() {
    assert_eq!(
        parse_ip_literal("1:2:3:4:5:6:7:8"),
        Some(IpAddress::V6(1, 2, 3, 4, 5, 6, 7, 8))
    );
}

#[test]
fn ipv6_compressed_middle() {
    assert_eq!(
        parse_ip_literal("2001:db8::8a2e:370:7334"),
        Some(IpAddress::V6(0x2001, 0xdb8, 0, 0, 0, 0x8a2e, 0x370, 0x7334))
    );
}

#[test]
fn ipv6_compressed_tail() {
    assert_eq!(
        parse_ip_literal("fe80::"),
        Some(IpAddress::V6(0xfe80, 0, 0, 0, 0, 0, 0, 0))
    );
}

#[test]
fn ipv6_upper_and_lower_hex() {
    assert_eq!(
        parse_ip_literal("ABcd::eF"),
        Some(IpAddress::V6(0xabcd, 0, 0, 0, 0, 0, 0, 0xef))
    );
}

#[test]
fn ipv6_rejects_malformed() {
    assert_eq!(parse_ip_literal(":::"), None);
    assert_eq!(parse_ip_literal("1::2::3"), None);
    assert_eq!(parse_ip_literal("12345::"), None);
    assert_eq!(parse_ip_literal("g::1"), None);
    assert_eq!(parse_ip_literal("1:2:3:4:5:6:7"), None);
    assert_eq!(parse_ip_literal("1:2:3:4:5:6:7:8:9"), None);
    assert_eq!(parse_ip_literal("1:2:3:4:5:6:7:8::"), None);
}

#[test]
fn ipv6_with_embedded_ipv4_tail() {
    assert_eq!(
        parse_ip_literal("::ffff:192.168.0.1"),
        Some(IpAddress::V6(0, 0, 0, 0, 0, 0xffff, 0xc0a8, 0x0001))
    );
    assert_eq!(
        parse_ip_literal("1:2:3:4:5:6:7.8.9.10"),
        Some(IpAddress::V6(1, 2, 3, 4, 5, 6, 0x0708, 0x090a))
    );
    assert_eq!(
        parse_ip_literal("::1.2.3.4"),
        Some(IpAddress::V6(0, 0, 0, 0, 0, 0, 0x0102, 0x0304))
    );
}

#[test]
fn embedded_ipv4_only_at_the_tail() {
    assert_eq!(parse_ip_literal("1.2.3.4::5"), None);
    assert_eq!(parse_ip_literal("::1.2.3"), None);
    assert_eq!(parse_ip_literal("::ffff:1.2.3.04"), None);
    assert_eq!(parse_ip_literal("1.2.3.4:5::"), None);
}

#[test]
fn hostnames_are_not_literals() {
    assert_eq!(parse_ip_literal("localhost"), None);
    assert_eq!(parse_ip_literal("nonexistent.invalid.test"), None);
    assert_eq!(parse_ip_literal(""), None);
}

#[test]
fn first_lookup_result_wins() {
    let addrs = vec![IpAddress::V4(10, 0, 0, 1), IpAddress::V4(10, 0, 0, 2)];
    let got = select_address("example.test", &addrs).unwrap();
    assert_eq!(got, IpAddress::V4(10, 0, 0, 1));
}

#[test]
fn empty_lookup_is_resolution_error() {
    let e = select_address("nonexistent.invalid.test", &vec![]).unwrap_err();
    assert_eq!(e.host, String::from("nonexistent.invalid.test"));
}
