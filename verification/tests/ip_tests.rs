use scope::ip::{is_ipv4, is_ipv6, is_valid_ip};

#[test]
fn ipv4_accepts_plain_addresses() {
    assert!(is_ipv4("1.2.3.4"));
    assert!(is_ipv4("0.0.0.0"));
    assert!(is_ipv4("255.255.255.255"));
    assert!(is_ipv4("10.0.0.0"));
    assert!(is_ipv4("192.168.1.77"));
}

#[test]
fn ipv4_rejects_malformed_addresses() {
    assert!(!is_ipv4(""));
    assert!(!is_ipv4("1.2.3"));
    assert!(!is_ipv4("1.2.3.4.5"));
    assert!(!is_ipv4("256.1.1.1"));
    assert!(!is_ipv4("1.2.3.256"));
    assert!(!is_ipv4("01.2.3.4"));
    assert!(!is_ipv4("1.2.3.04"));
    assert!(!is_ipv4("00.0.0.0"));
    assert!(!is_ipv4("1..2.3"));
    assert!(!is_ipv4("a.b.c.d"));
    assert!(!is_ipv4("1.2.3.4 "));
    assert!(!is_ipv4("-1.2.3.4"));
    assert!(!is_ipv4("10.0.0.0/24"));
}

#[test]
fn ipv6_accepts_plain_addresses() {
    assert!(is_ipv6("::"));
    assert!(is_ipv6("::1"));
    assert!(is_ipv6("1::"));
    assert!(is_ipv6("2001:db8::1"));
    assert!(is_ipv6("1:2:3:4:5:6:7:8"));
    assert!(is_ipv6("ABCD:EF01:2345:6789:abcd:ef01:2345:6789"));
    assert!(is_ipv6("1:2:3:4:5:6:7::"));
    assert!(is_ipv6("::1:2:3:4:5:6:7"));
    assert!(is_ipv6("fe80::204:61ff:fe9d:f156"));
    assert!(is_ipv6("0:0:0:0:0:0:0:0"));
    assert!(is_ipv6("0000:0000:0000:0000:0000:0000:0000:0000"));
    assert!(is_ipv6("1:2:3:4:5:6:7:08"));
}

#[test]
fn ipv6_accepts_embedded_ipv4() {
    assert!(is_ipv6("::ffff:1.2.3.4"));
    assert!(is_ipv6("::1.2.3.4"));
    assert!(is_ipv6("1:2:3:4:5:6:1.2.3.4"));
    assert!(is_ipv6("64:ff9b::192.0.2.33"));
    assert!(is_ipv6("1::ffff:1.2.3.4"));
    assert!(is_ipv6("::0.0.0.0"));
}

#[test]
fn ipv6_rejects_malformed_addresses() {
    assert!(!is_ipv6(""));
    assert!(!is_ipv6(":"));
    assert!(!is_ipv6(":::"));
    assert!(!is_ipv6("::::"));
    assert!(!is_ipv6("1:2:3:4:5:6:7"));
    assert!(!is_ipv6("1:2:3:4:5:6:7:8:9"));
    assert!(!is_ipv6("::1:2:3:4:5:6:7:8"));
    assert!(!is_ipv6("1:::2"));
    assert!(!is_ipv6(":1::2"));
    assert!(!is_ipv6("1::2::3"));
    assert!(!is_ipv6("12345::"));
    assert!(!is_ipv6("g::1"));
    assert!(!is_ipv6("1.2.3.4::"));
    assert!(!is_ipv6("::1.2.3.4.5"));
    assert!(!is_ipv6("1::2:1.2.3.4:5"));
    assert!(!is_ipv6("1:2:"));
    assert!(!is_ipv6("1:2:3:4:5:1.2.3.4"));
    assert!(!is_ipv6("::ffff:01.2.3.4"));
    assert!(!is_ipv6("::%eth0"));
    assert!(!is_ipv6("1:2:3:4:5:6:7:1.2.3.4"));
}

#[test]
fn valid_ip_accepts_both_families() {
    assert!(is_valid_ip("1.2.3.4"));
    assert!(is_valid_ip("::1"));
    assert!(!is_valid_ip("example.com"));
    assert!(!is_valid_ip("10.0.0.0/24"));
    assert!(!is_valid_ip("  "));
}
