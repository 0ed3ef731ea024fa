use adb_on::address::{
    endpoint_string, ip_is_multicast, ip_is_unspecified, ip_string, parse_endpoint, parse_ip_text, write_decimal,
    write_hex, Endpoint, IpAddress,
};

fn chars(s: &str) -> Vec<char> {
    s.chars().collect()
}

#[test]
fn socket_addresses_parse_and_print_canonically() {
    let cases: [(&str, Option<&str>); 21] = [
        ("192.168.1.2:37001", Some("192.168.1.2:37001")),
        ("0.0.0.0:0", Some("0.0.0.0:0")),
        ("255.255.255.255:65535", Some("255.255.255.255:65535")),
        ("[fe80::1]:5555", Some("[fe80::1]:5555")),
        ("[fe80::1%3]:5555", Some("[fe80::1%3]:5555")),
        ("[::]:1", Some("[::]:1")),
        ("[::ffff:192.168.1.2]:80", Some("[::ffff:192.168.1.2]:80")),
        ("[1:2:3:4:5:6:7:8]:9", Some("[1:2:3:4:5:6:7:8]:9")),
        ("[1:0:0:0:0:0:0:8]:9", Some("[1::8]:9")),
        ("192.168.1.2:65536", None),
        ("192.168.1.256:1", None),
        ("192.168.01.2:1", None),
        ("192.168.1:1", None),
        ("fe80::1:5555", None),
        ("[fe80::1]", None),
        ("[1:2:3:4:5:6:7:8:9]:1", None),
        ("[1::2::3]:1", None),
        (":80", None),
        ("192.168.1.2:+80", None),
        ("192.168.1.2: 80", None),
        ("", None),
    ];
    for (text, expected) in cases {
        let ours = parse_endpoint(&chars(text)).map(|a| endpoint_string(&a));
        assert_eq!(ours.as_deref(), expected, "{text}");
    }
}

#[test]
fn ip_addresses_print_in_canonical_form() {
    let cases = [
        ("0.0.0.0", "0.0.0.0"),
        ("10.0.0.7", "10.0.0.7"),
        ("0:0:0:0:0:0:0:0", "::"),
        ("::1", "::1"),
        ("FE80:0:0:0:0:0:0:1", "fe80::1"),
        ("1:0:0:2:0:0:0:3", "1:0:0:2::3"),
        ("1:0:0:2:0:0:3:4", "1::2:0:0:3:4"),
        ("1:2:3:4:5:6:7:8", "1:2:3:4:5:6:7:8"),
        ("1:0:3:4:5:6:7:8", "1:0:3:4:5:6:7:8"),
        ("::ffff:c0a8:102", "::ffff:192.168.1.2"),
        ("::ffff:0:1", "::ffff:0.0.0.1"),
        ("::2", "::2"),
        ("2001:db8::ff00:42:8329", "2001:db8::ff00:42:8329"),
    ];
    for (text, expected) in cases {
        let ours = parse_ip_text(text).unwrap();
        assert_eq!(ip_string(&ours), expected, "{text}");
    }
    assert_eq!(parse_ip_text("192.168.1.4"), Some(IpAddress::V4(192, 168, 1, 4)));
    assert_eq!(parse_ip_text("192.168.1.4:5"), None);
}

#[test]
fn unspecified_and_multicast_addresses_are_recognised() {
    assert!(ip_is_unspecified(&IpAddress::V4(0, 0, 0, 0)));
    assert!(ip_is_unspecified(&IpAddress::V6(0, 0, 0, 0, 0, 0, 0, 0)));
    assert!(!ip_is_unspecified(&IpAddress::V4(0, 0, 0, 1)));
    assert!(ip_is_multicast(&IpAddress::V4(224, 0, 0, 251)));
    assert!(ip_is_multicast(&IpAddress::V4(239, 255, 255, 255)));
    assert!(!ip_is_multicast(&IpAddress::V4(223, 0, 0, 1)));
    assert!(ip_is_multicast(&IpAddress::V6(0xff02, 0, 0, 0, 0, 0, 0, 0xfb)));
    assert!(!ip_is_multicast(&IpAddress::V6(0xfe80, 0, 0, 0, 0, 0, 0, 1)));
}

#[test]
fn numbers_are_written_in_decimal_and_small_hex() {
    let mut out = Vec::new();
    write_decimal(&mut out, 0);
    write_decimal(&mut out, 65535);
    out.push(' ');
    write_hex(&mut out, 0xfe80);
    write_hex(&mut out, 0);
    assert_eq!(out.into_iter().collect::<String>(), "065535 fe800");
    let e = Endpoint { ip: IpAddress::V6(0xfe80, 0, 0, 0, 0, 0, 0, 1), port: 5555, scope_id: 7 };
    assert_eq!(endpoint_string(&e), "[fe80::1%7]:5555");
    assert_eq!(e.port(), 5555);
    assert_eq!(e.ip(), IpAddress::V6(0xfe80, 0, 0, 0, 0, 0, 0, 1));
}

#[test]
fn written_ip_addresses_read_back() {
    let ips = [
        IpAddress::V4(0, 0, 0, 0),
        IpAddress::V4(192, 168, 1, 3),
        IpAddress::V4(255, 0, 10, 100),
        IpAddress::V6(0, 0, 0, 0, 0, 0, 0, 0),
        IpAddress::V6(0, 0, 0, 0, 0, 0, 0, 1),
        IpAddress::V6(0xfe80, 0, 0, 0, 0, 0, 0, 1),
        IpAddress::V6(1, 0, 0, 2, 0, 0, 0, 3),
        IpAddress::V6(1, 2, 3, 4, 5, 6, 7, 8),
        IpAddress::V6(0, 0, 0, 0, 0, 0xffff, 0xc0a8, 0x0102),
        IpAddress::V6(0, 0, 0, 0, 0, 0xfffe, 0xc0a8, 0x0102),
        IpAddress::V6(0xffff, 0xffff, 0xffff, 0xffff, 0xffff, 0xffff, 0xffff, 0),
    ];
    for ip in ips {
        assert_eq!(parse_ip_text(&ip_string(&ip)), Some(ip), "{ip:?}");
    }
}
