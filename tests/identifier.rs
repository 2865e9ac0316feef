use client_ip::error::ForwardedHeaderValueParseError;
use client_ip::identifier::{Identifier, Protocol};
use client_ip::ip::IpAddress;

fn parse(s: &str) -> Result<Identifier, ForwardedHeaderValueParseError> {
    Identifier::from_str(s)
}

#[test]
fn ipv4_literal_is_ip_address() {
    assert_eq!(parse("192.0.2.1"), Ok(Identifier::IpAddress(IpAddress::V4(192, 0, 2, 1))));
    assert_eq!(parse("0.0.0.0"), Ok(Identifier::IpAddress(IpAddress::V4(0, 0, 0, 0))));
    assert_eq!(
        parse("255.255.255.255"),
        Ok(Identifier::IpAddress(IpAddress::V4(255, 255, 255, 255)))
    );
}

#[test]
fn ipv6_literal_is_ip_address() {
    assert_eq!(
        parse("2001:db8::1"),
        Ok(Identifier::IpAddress(IpAddress::V6(0x2001, 0xdb8, 0, 0, 0, 0, 0, 1)))
    );
    assert_eq!(
        parse("::"),
        Ok(Identifier::IpAddress(IpAddress::V6(0, 0, 0, 0, 0, 0, 0, 0)))
    );
    assert_eq!(
        parse("1:2:3:4:5:6:7:8"),
        Ok(Identifier::IpAddress(IpAddress::V6(1, 2, 3, 4, 5, 6, 7, 8)))
    );
    assert_eq!(
        parse("1:2:3:4:5:6:7::"),
        Ok(Identifier::IpAddress(IpAddress::V6(1, 2, 3, 4, 5, 6, 7, 0)))
    );
    assert_eq!(
        parse("::FFFF:1.2.3.4"),
        Ok(Identifier::IpAddress(IpAddress::V6(0, 0, 0, 0, 0, 0xffff, 0x0102, 0x0304)))
    );
    assert_eq!(
        parse("1:2:3:4:5:6:10.0.0.1"),
        Ok(Identifier::IpAddress(IpAddress::V6(1, 2, 3, 4, 5, 6, 0x0a00, 0x0001)))
    );
}

#[test]
fn malformed_addresses_are_rejected() {
    for bad in [
        "01.2.3.4",
        "256.0.0.1",
        "1.2.3",
        "1.2.3.4.5",
        "1:2:3:4:5:6:7:8:9",
        "1::2::3",
        ":::",
        "12345::",
        "1.2.3.4::",
        "::1.2.3.4:5",
        "1:2:3:4:5:6:7:1.2.3.4",
    ] {
        assert_eq!(
            parse(bad),
            Err(ForwardedHeaderValueParseError::InvalidObfuscatedNode(bad.to_string())),
            "{bad}"
        );
    }
}

#[test]
fn unknown_token_is_unknown() {
    assert_eq!(parse("unknown"), Ok(Identifier::Unknown));
    assert_eq!(parse("  \"unknown\" "), Ok(Identifier::Unknown));
    assert_eq!(parse("unknown").unwrap().address(), None);
    assert_eq!(
        parse("Unknown"),
        Err(ForwardedHeaderValueParseError::InvalidObfuscatedNode("Unknown".to_string()))
    );
}

#[test]
fn underscore_token_is_obfuscated() {
    assert_eq!(parse("_hidden123"), Ok(Identifier::Obfuscated("_hidden123".to_string())));
    assert_eq!(parse("_hidden123").unwrap().address(), None);
    assert_eq!(parse("'_gazonk'"), Ok(Identifier::Obfuscated("_gazonk".to_string())));
}

#[test]
fn address_with_port_is_socket_address() {
    assert_eq!(
        parse("192.0.2.60:8080"),
        Ok(Identifier::SocketAddress(IpAddress::V4(192, 0, 2, 60), 8080))
    );
    let v6 = IpAddress::V6(0x2001, 0xdb8, 0xcafe, 0, 0, 0, 0, 0x17);
    assert_eq!(parse("[2001:db8:cafe::17]:4711"), Ok(Identifier::SocketAddress(v6, 4711)));
    assert_eq!(parse("\"[2001:db8:cafe::17]:4711\""), Ok(Identifier::SocketAddress(v6, 4711)));
    assert_eq!(parse("[2001:db8:cafe::17]:4711").unwrap().address(), Some(v6));
    assert_eq!(
        parse("[fe80::1%2]:80"),
        Ok(Identifier::SocketAddress(IpAddress::V6(0xfe80, 0, 0, 0, 0, 0, 0, 1), 80))
    );
    assert_eq!(
        parse("1.2.3.4:00080"),
        Ok(Identifier::SocketAddress(IpAddress::V4(1, 2, 3, 4), 80))
    );
}

#[test]
fn port_out_of_range_is_rejected() {
    assert_eq!(
        parse("1.2.3.4:65536"),
        Err(ForwardedHeaderValueParseError::InvalidObfuscatedNode("1.2.3.4:65536".to_string()))
    );
    assert_eq!(
        parse("1.2.3.4:65535"),
        Ok(Identifier::SocketAddress(IpAddress::V4(1, 2, 3, 4), 65535))
    );
}

#[test]
fn bracketed_address_without_port() {
    assert_eq!(
        parse("[2001:db8::1]"),
        Ok(Identifier::IpAddress(IpAddress::V6(0x2001, 0xdb8, 0, 0, 0, 0, 0, 1)))
    );
    assert_eq!(parse("[nope]"), Err(ForwardedHeaderValueParseError::InvalidAddress));
}

#[test]
fn other_tokens_are_errors() {
    assert_eq!(
        parse("bogus"),
        Err(ForwardedHeaderValueParseError::InvalidObfuscatedNode("bogus".to_string()))
    );
    assert_eq!(
        parse(""),
        Err(ForwardedHeaderValueParseError::InvalidObfuscatedNode(String::new()))
    );
}

#[test]
fn protocol_ignores_ascii_case() {
    assert_eq!(Protocol::from_str("http"), Ok(Protocol::Http));
    assert_eq!(Protocol::from_str("HTTPS"), Ok(Protocol::Https));
    assert_eq!(Protocol::from_str("hTTp"), Ok(Protocol::Http));
    assert_eq!(Protocol::from_str("ftp"), Err(ForwardedHeaderValueParseError::InvalidProtocol));
    assert_eq!(Protocol::from_str(" http"), Err(ForwardedHeaderValueParseError::InvalidProtocol));
}
