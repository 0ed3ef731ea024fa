use adb_on::address::{endpoint_string, ip_string, parse_ip_text};
use adb_on::model::{devices, endpoint, pairing_code, same_phone, services, wireless, Device};

#[test]
fn parses_authorized_and_pending_without_treating_header_as_device() {
    let rows = devices(
        "List of devices attached\r\nR5ABC unauthorized usb:1-1\r\n192.168.1.2:39411 device product:x model:Pixel_9 device:tokay transport_id:2\r\n",
    );
    assert_eq!(rows.len(), 2);
    assert_eq!(rows[0].state, "unauthorized");
    assert_eq!(rows[1].name, "Pixel 9");
}

#[test]
fn wireless_covers_tcp_and_mdns_serials_but_not_usb() {
    for serial in [
        "192.168.1.2:39411",
        "[fe80::1]:5555",
        "adb-R5ABC-yF7kj8._adb-tls-connect._tcp",
        "adb-R5ABC-yF7kj8._adb-tls-connect._tcp.",
    ] {
        assert!(wireless(serial), "{serial}");
    }
    for serial in ["R5ABC", "emulator-5554", "adb-R5ABC._adb-tls-pairing._tcp"] {
        assert!(!wireless(serial), "{serial}");
    }
}

#[test]
fn endpoints_are_addresses_not_commands_and_reject_zero_port() {
    assert!(endpoint("192.168.1.2:37001").is_ok());
    assert_eq!(endpoint(" 192.168.1.2 37001 ").unwrap().port(), 37001);
    assert_eq!(endpoint("192.168.1.2-37001").unwrap().port(), 37001);
    assert_eq!(endpoint("１９２．１６８．１．２：３７００１").unwrap().port(), 37001);
    assert!(endpoint("19216812:37001").is_err(), "digits without dots cannot be reconstructed");
    assert!(endpoint("[fe80::1]:37001").is_ok());
    for text in ["-a", "host:1234;cmd", "192.168.1.2", "127.0.0.1:0"] {
        assert!(endpoint(text).is_err(), "{text}");
    }
}

#[test]
fn pairing_and_connection_ports_stay_separate() {
    let rows = services(
        "List of discovered mdns services\nphone _adb-tls-pairing._tcp. 192.168.1.4:33333\nphone _adb-tls-connect._tcp 192.168.1.4:44444\nother _http._tcp 192.168.1.4:80\n",
    );
    assert_eq!(rows.len(), 2);
    assert!(rows[0].pairing);
    assert!(!rows[1].pairing);
    assert_ne!(rows[0].address.port(), rows[1].address.port());
    assert_eq!(rows[0].name, "phone");
    let found = services("adb-R3CX0A1B2C3-k2Qw9z _adb-tls-connect._tcp 192.168.1.20:39769\n")
        .remove(0);
    assert_eq!(found.serial(), Some("R3CX0A1B2C3"));
    assert_eq!(rows[0].serial(), None);
    let device = |serial: &str| Device { serial: serial.into(), name: "SM S908N".into(), state: "device".into() };
    assert!(same_phone(&found, &device("192.168.1.20:39769")));
    assert!(same_phone(&found, &device("adb-R3CX0A1B2C3-k2Qw9z._adb-tls-connect._tcp")));
    assert!(same_phone(&found, &device("R3CX0A1B2C3")));
    assert!(!same_phone(&found, &device("192.168.1.20:41839")));
    assert!(!same_phone(&found, &device("R3CX0A1B2C4")));
    assert!(pairing_code("123456").is_ok());
    assert_eq!(pairing_code(" 12 34 56 ").unwrap(), "123456");
    assert_eq!(pairing_code("１２３４５６").unwrap(), "123456");
    assert_eq!(pairing_code("123-456").unwrap(), "123456");
    for bad in ["", "12345", "1234567", "12 456", "123\n45", "12345a"] {
        assert!(pairing_code(bad).is_err());
    }
}

#[test]
fn separators_and_full_width_digits_read_as_the_same_address() {
    let colon = endpoint("10.0.0.7:5555").unwrap();
    assert_eq!(endpoint("10.0.0.7 5555"), Ok(colon));
    assert_eq!(endpoint("10.0.0.7-5555"), Ok(colon));
    assert_eq!(endpoint("１０．０．０．７：５５５５"), Ok(colon));
    assert_eq!(pairing_code("１２３４５６"), pairing_code("123456"));
}

#[test]
fn written_addresses_read_back() {
    for text in [
        "10.0.0.7:5555",
        "192.168.1.20:39769",
        "1.2.3.4:1",
        "255.255.255.254:65535",
        "[fe80::1]:5555",
        "[fe80::1%3]:5555",
        "[::ffff:192.168.1.2]:80",
        "[2001:db8::1]:443",
        "[1:2:3:4:5:6:7:8]:9",
    ] {
        let e = endpoint(text).unwrap();
        let written = endpoint_string(&e);
        assert_eq!(written, text);
        assert_eq!(endpoint(&written), Ok(e));
        assert_eq!(parse_ip_text(&ip_string(&e.ip)), Some(e.ip));
    }
}

#[test]
fn device_output_is_read_line_by_line() {
    let a = "List of devices attached\nR5ABC unauthorized usb:1-1\n";
    let b = "192.168.1.2:39411 device model:Pixel_9\r\n";
    let mut joined = devices(a);
    joined.extend(devices(b));
    assert_eq!(devices(&format!("{a}{b}")), joined);
    assert_eq!(devices(&format!("{b}{a}")).len(), 2);
}
