use network_monitor::ip::{
    ip_to_string, is_private_or_loopback, is_reasonable_inet_target, parse_ip, same_ip, IpAddress,
};

fn text(s: &str) -> String {
    ip_to_string(&parse_ip(s).expect("address"))
}

#[test]
fn ipv4_text_round_trips() {
    assert_eq!(text("8.8.8.8"), "8.8.8.8");
    assert_eq!(text("255.0.10.1"), "255.0.10.1");
    assert!(parse_ip("256.1.1.1").is_none());
    assert!(parse_ip("01.1.1.1").is_none());
    assert!(parse_ip("1.1.1").is_none());
    assert!(parse_ip("").is_none());
}

#[test]
fn ipv6_text_is_canonical() {
    assert_eq!(text("2001:0db8:0000:0000:0000:0000:0000:0001"), "2001:db8::1");
    assert_eq!(text("::"), "::");
    assert_eq!(text("::1"), "::1");
    assert_eq!(text("1:0:0:2:0:0:0:3"), "1:0:0:2::3");
    assert_eq!(text("1:0:2:3:4:5:6:7"), "1:0:2:3:4:5:6:7");
    assert_eq!(text("::ffff:1.2.3.4"), "::ffff:1.2.3.4");
    assert_eq!(text("fe80::1:2"), "fe80::1:2");
    assert!(parse_ip("1:::2").is_none());
    assert!(parse_ip("12345::").is_none());
}

#[test]
fn private_ranges_are_recognised() {
    for s in ["10.1.2.3", "172.16.0.1", "192.168.5.5", "127.0.0.1", "169.254.1.1", "255.255.255.255", "224.0.0.1", "0.0.0.0", "::1", "::", "fe80::1", "fd00::1", "ff02::1"] {
        assert!(is_private_or_loopback(&parse_ip(s).unwrap()), "{s}");
    }
    for s in ["8.8.8.8", "172.32.0.1", "2001:4860::8888"] {
        assert!(!is_private_or_loopback(&parse_ip(s).unwrap()), "{s}");
    }
}

#[test]
fn reasonable_targets_are_public_addresses() {
    assert!(is_reasonable_inet_target("8.8.8.8"));
    assert!(is_reasonable_inet_target("[2001:4860::8888]"));
    assert!(!is_reasonable_inet_target("0.1.2.3"));
    assert!(!is_reasonable_inet_target("192.168.0.1"));
    assert!(!is_reasonable_inet_target("fd12::1"));
    assert!(!is_reasonable_inet_target("example.com"));
    assert!(is_reasonable_inet_target("::"));
}

#[test]
fn same_ip_compares_values() {
    assert!(same_ip(&IpAddress::V4([1, 2, 3, 4]), &parse_ip("1.2.3.4").unwrap()));
    assert!(!same_ip(&IpAddress::V4([1, 2, 3, 4]), &IpAddress::V4([1, 2, 3, 5])));
}

#[test]
fn rendered_addresses_parse_back() {
    let samples = [
        IpAddress::V4([0, 0, 0, 0]),
        IpAddress::V4([192, 168, 100, 7]),
        IpAddress::V6([0; 16]),
        IpAddress::V6([0, 0, 0, 0, 0, 0, 0, 0, 0, 0, 0xff, 0xff, 10, 0, 0, 1]),
        IpAddress::V6([0x20, 0x01, 0x0d, 0xb8, 0, 0, 0, 0, 0, 1, 0, 0, 0, 0, 0, 1]),
        IpAddress::V6([0xfe, 0x80, 0, 0, 0, 0, 0, 0, 0x12, 0x34, 0x56, 0x78, 0x9a, 0xbc, 0xde, 0xf0]),
    ];
    for ip in samples {
        let text = ip_to_string(&ip);
        let back = parse_ip(&text).expect("parses");
        assert!(same_ip(&ip, &back), "{text}");
    }
}
