use dns_lookup::ip::{parse_ip, IpAddress};

#[test]
fn parses_dotted_quads() {
    assert_eq!(parse_ip("0.0.0.0"), Some(IpAddress::V4(0)));
    assert_eq!(parse_ip("192.168.0.1"), Some(IpAddress::V4(0xc0a8_0001)));
    assert_eq!(parse_ip("8.8.8.8"), Some(IpAddress::V4(0x0808_0808)));
    assert_eq!(parse_ip("255.255.255.255"), Some(IpAddress::V4(u32::MAX)));
    assert_eq!(parse_ip("1.2.3.4"), Some(IpAddress::V4(0x0102_0304)));
}

#[test]
fn rejects_bad_dotted_quads() {
    assert_eq!(parse_ip("256.0.0.1"), None);
    assert_eq!(parse_ip("999.1.1.1"), None);
    assert_eq!(parse_ip("01.2.3.4"), None);
    assert_eq!(parse_ip("1.2.3.00"), None);
    assert_eq!(parse_ip("1.2.3"), None);
    assert_eq!(parse_ip("1.2.3.4.5"), None);
    assert_eq!(parse_ip("1..2.3"), None);
    assert_eq!(parse_ip("1.2.3.4."), None);
    assert_eq!(parse_ip(".1.2.3.4"), None);
    assert_eq!(parse_ip(" 1.2.3.4"), None);
    assert_eq!(parse_ip("1.2.3.d"), None);
    assert_eq!(parse_ip(""), None);
}

#[test]
fn parses_full_ipv6_literals() {
    assert_eq!(
        parse_ip("1:2:3:4:5:6:7:8"),
        Some(IpAddress::V6(0x0001_0002_0003_0004_0005_0006_0007_0008))
    );
    assert_eq!(
        parse_ip("ABCD:0:0:0:0:0:0:EF01"),
        Some(IpAddress::V6(0xabcd_0000_0000_0000_0000_0000_0000_ef01))
    );
    assert_eq!(
        parse_ip("1:2:3:4:5:6:77.77.88.88"),
        Some(IpAddress::V6(0x0001_0002_0003_0004_0005_0006_4d4d_5858))
    );
}

#[test]
fn parses_compressed_ipv6_literals() {
    assert_eq!(parse_ip("::"), Some(IpAddress::V6(0)));
    assert_eq!(parse_ip("::1"), Some(IpAddress::V6(1)));
    assert_eq!(
        parse_ip("1::"),
        Some(IpAddress::V6(0x0001_0000_0000_0000_0000_0000_0000_0000))
    );
    assert_eq!(
        parse_ip("fe80::1"),
        Some(IpAddress::V6(0xfe80_0000_0000_0000_0000_0000_0000_0001))
    );
    assert_eq!(
        parse_ip("2001:db8::ff00:42:8329"),
        Some(IpAddress::V6(0x2001_0db8_0000_0000_0000_ff00_0042_8329))
    );
    assert_eq!(
        parse_ip("1:2:3:4:5:6:7::"),
        Some(IpAddress::V6(0x0001_0002_0003_0004_0005_0006_0007_0000))
    );
    assert_eq!(
        parse_ip("::1:2:3:4:5:6:7"),
        Some(IpAddress::V6(0x0000_0001_0002_0003_0004_0005_0006_0007))
    );
    assert_eq!(
        parse_ip("::ffff:192.168.0.1"),
        Some(IpAddress::V6(0x0000_0000_0000_0000_0000_ffff_c0a8_0001))
    );
    assert_eq!(
        parse_ip("::77.77.88.88"),
        Some(IpAddress::V6(0x0000_0000_0000_0000_0000_0000_4d4d_5858))
    );
}

#[test]
fn rejects_bad_ipv6_literals() {
    assert_eq!(parse_ip(":"), None);
    assert_eq!(parse_ip(":::"), None);
    assert_eq!(parse_ip("1:2:3:4:5:6:7"), None);
    assert_eq!(parse_ip("1:2:3:4:5:6:7:8:9"), None);
    assert_eq!(parse_ip("1:2:3:4:5:6:7:8::"), None);
    assert_eq!(parse_ip("::1:2:3:4:5:6:7:8"), None);
    assert_eq!(parse_ip("12345::"), None);
    assert_eq!(parse_ip("1::2::3"), None);
    assert_eq!(parse_ip(":1:2:3:4:5:6:7:8"), None);
    assert_eq!(parse_ip("1:2:3:4:5:6:7:8:"), None);
    assert_eq!(parse_ip("1:"), None);
    assert_eq!(parse_ip(":1"), None);
    assert_eq!(parse_ip("::g"), None);
    assert_eq!(parse_ip("fe80::1%eth0"), None);
    assert_eq!(parse_ip("::ffff:1.2.3.4.5"), None);
    assert_eq!(parse_ip("1.2.3.4::"), None);
    assert_eq!(parse_ip("1:2:1.2.3.4:5"), None);
    assert_eq!(parse_ip("not-an-ip"), None);
}

#[test]
fn parsing_is_repeatable() {
    let first = parse_ip("2001:db8::ff00:42:8329");
    let second = parse_ip("2001:db8::ff00:42:8329");
    assert_eq!(first, second);
    assert_eq!(parse_ip("not-an-ip"), parse_ip("not-an-ip"));
}
