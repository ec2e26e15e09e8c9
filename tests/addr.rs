use rhai_net::addr::{parse_endpoint, parse_ip, parse_ipv4, parse_ipv6};
use rhai_net::{addr, addr_with_port, is_ipv4, is_ipv6, port, Endpoint, IpAddress, NetError};

fn v6(g: [u16; 8]) -> IpAddress {
    IpAddress::V6(g[0], g[1], g[2], g[3], g[4], g[5], g[6], g[7])
}

#[test]
fn test_addr() {
    assert_eq!(
        addr("127.0.0.1:8080"),
        Ok(Endpoint { ip: IpAddress::V4(127, 0, 0, 1), port: 8080 })
    );
    assert_eq!(
        addr_with_port("::1", 8080),
        Ok(Endpoint { ip: v6([0, 0, 0, 0, 0, 0, 0, 1]), port: 8080 })
    );
}

#[test]
fn loopback_v4_endpoint_reports_its_family_and_port() {
    let e = addr("127.0.0.1:8080").unwrap();
    assert!(is_ipv4(&e));
    assert!(!is_ipv6(&e));
    assert_eq!(port(&e), Ok(8080));
}

#[test]
fn v6_endpoint_reports_its_family() {
    let e = addr("[::1]:80").unwrap();
    assert!(is_ipv6(&e));
    assert!(!is_ipv4(&e));
    assert_eq!(port(&e), Ok(80));
}

#[test]
fn port_reads_back_the_number_written() {
    for (text, p) in [("10.0.0.1:0", 0u16), ("1.2.3.4:65535", 65535), ("1.2.3.4:00080", 80), ("255.255.255.255:443", 443)] {
        let e = addr(text).unwrap();
        assert_eq!(e.port, p);
        assert_eq!(port(&e), Ok(p as i64));
    }
}

#[test]
fn bracketed_v6_matches_address_and_port_given_apart() {
    assert_eq!(addr("[::1]:8080"), addr_with_port("::1", 8080));
    assert_eq!(
        addr("[2001:db8::ff00:42:8329]:443"),
        addr_with_port("2001:db8::ff00:42:8329", 443)
    );
    assert_eq!(
        addr("[2001:db8::ff00:42:8329]:443").unwrap().ip,
        v6([0x2001, 0xdb8, 0, 0, 0, 0xff00, 0x42, 0x8329])
    );
}

#[test]
fn malformed_endpoints_are_refused() {
    for text in [
        "", "127.0.0.1", "256.0.0.1:80", "01.0.0.1:1", "1.2.3:4", "1.2.3.4.5:6", "1.2.3.4:65536",
        "1.2.3.4:", "1.2.3.4:8a", "[::1]", "[::1]:", "::1:80", "[1.2.3.4]:80", "[::1]x80",
        "a.b.c.d:1", " 1.2.3.4:1",
    ] {
        assert_eq!(addr(text), Err(NetError::AddrParse), "{}", text);
    }
}

#[test]
fn bare_address_with_port_errors() {
    assert_eq!(addr_with_port("localhost", 1), Err(NetError::AddrParse));
    assert_eq!(addr_with_port("::1", 65536), Err(NetError::Range));
    assert_eq!(addr_with_port("::1", -1), Err(NetError::Range));
    assert_eq!(
        addr_with_port("192.168.1.20", 65535),
        Ok(Endpoint { ip: IpAddress::V4(192, 168, 1, 20), port: 65535 })
    );
}

#[test]
fn ipv6_textual_forms() {
    assert_eq!(parse_ipv6(b"::"), Some(v6([0; 8])));
    assert_eq!(parse_ipv6(b"1::"), Some(v6([1, 0, 0, 0, 0, 0, 0, 0])));
    assert_eq!(parse_ipv6(b"1:2:3:4:5:6:7:8"), Some(v6([1, 2, 3, 4, 5, 6, 7, 8])));
    assert_eq!(parse_ipv6(b"1:2:3:4:5:6:7::"), Some(v6([1, 2, 3, 4, 5, 6, 7, 0])));
    assert_eq!(parse_ipv6(b"::2:3:4:5:6:7:8"), Some(v6([0, 2, 3, 4, 5, 6, 7, 8])));
    assert_eq!(parse_ipv6(b"1:2:3:4::5:6:7"), Some(v6([1, 2, 3, 4, 0, 5, 6, 7])));
    assert_eq!(parse_ipv6(b"FFFF:abcd::0"), Some(v6([0xffff, 0xabcd, 0, 0, 0, 0, 0, 0])));
    for text in [
        "", ":", ":::", "1::2::3", "::1:2:3:4:5:6:7:8", "1:2:3:4:5:6:7:8::", "1:2:3:4:5:6:7",
        "1:2:3:4:5:6:7:8:9", "12345::", "g::", ":1::", "1::2:",
    ] {
        assert_eq!(parse_ipv6(text.as_bytes()), None, "{}", text);
    }
}

#[test]
fn ipv4_octets() {
    assert_eq!(parse_ipv4(b"0.0.0.0"), Some(IpAddress::V4(0, 0, 0, 0)));
    assert_eq!(parse_ipv4(b"255.1.10.100"), Some(IpAddress::V4(255, 1, 10, 100)));
    assert_eq!(parse_ipv4(b"00.1.1.1"), None);
    assert_eq!(parse_ipv4(b"1.1.1.1000"), None);
    assert_eq!(parse_ip(b"10.0.0.1"), Some(IpAddress::V4(10, 0, 0, 1)));
    assert_eq!(parse_ip(b"::ffff"), Some(v6([0, 0, 0, 0, 0, 0, 0, 0xffff])));
    assert_eq!(
        parse_endpoint(b"[::]:1"),
        Some(Endpoint { ip: v6([0; 8]), port: 1 })
    );
}

#[test]
fn ipv6_with_dotted_ipv4_tail() {
    assert_eq!(
        parse_ipv6(b"::ffff:1.2.3.4"),
        Some(v6([0, 0, 0, 0, 0, 0xffff, 0x0102, 0x0304]))
    );
    assert_eq!(parse_ipv6(b"::1.2.3.4"), Some(v6([0, 0, 0, 0, 0, 0, 0x0102, 0x0304])));
    assert_eq!(
        parse_ipv6(b"1:2:3:4:5:6:1.2.3.4"),
        Some(v6([1, 2, 3, 4, 5, 6, 0x0102, 0x0304]))
    );
    assert_eq!(parse_ipv6(b"1::255.0.0.1"), Some(v6([1, 0, 0, 0, 0, 0, 0xff00, 0x0001])));
    for text in [
        "1:2:3:4:5:6:7:1.2.3.4", "1.2.3.4::", "::1:2:3:4:5:6:1.2.3.4", "1.2.3.4:1::",
        "::1.2.3", "::1.2.3.256", "1:2:3:4:5:1.2.3.4",
    ] {
        assert_eq!(parse_ipv6(text.as_bytes()), None, "{}", text);
    }
    assert_eq!(parse_ip(b"1.2.3.4"), Some(IpAddress::V4(1, 2, 3, 4)));
}

#[test]
fn bracketed_forms_with_ipv4_tail_and_zone() {
    assert_eq!(
        addr("[::ffff:1.2.3.4]:80"),
        Ok(Endpoint { ip: v6([0, 0, 0, 0, 0, 0xffff, 0x0102, 0x0304]), port: 80 })
    );
    assert_eq!(addr("[::1.2.3.4]:80"), addr_with_port("::1.2.3.4", 80));
    assert!(addr_with_port("::1.2.3.4", 80).is_ok());
    assert_eq!(
        addr("[fe80::1%2]:80"),
        Ok(Endpoint { ip: v6([0xfe80, 0, 0, 0, 0, 0, 0, 1]), port: 80 })
    );
    assert_eq!(addr("[fe80::1%4294967295]:80").map(|e| e.port), Ok(80));
    for text in ["[fe80::1%]:80", "[fe80::1%4294967296]:80", "[::1%2%3]:80", "[::1%x]:80", "[%2]:80"] {
        assert_eq!(addr(text), Err(NetError::AddrParse), "{}", text);
    }
}

#[test]
fn port_is_the_number_after_the_last_colon() {
    for (text, p) in [("[fe80::1%2]:0080", 80i64), ("[::ffff:1.2.3.4]:65535", 65535), ("[1:2:3:4:5:6:7:8]:1", 1)] {
        assert_eq!(port(&addr(text).unwrap()), Ok(p), "{}", text);
    }
}
