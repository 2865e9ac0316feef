use client_ip::error::ForwardedHeaderValueParseError;
use client_ip::forwarded::{values_from_header, ForwardedHeaderValue, ForwardedStanza};
use client_ip::identifier::{Identifier, Protocol};
use client_ip::ip::IpAddress;

#[test]
fn stanza_with_port_in_for_field() {
    let st = ForwardedStanza::from_str("for=\"[2001:db8:cafe::17]:4711\";proto=http;by=203.0.113.43")
        .unwrap();
    let v6 = IpAddress::V6(0x2001, 0xdb8, 0xcafe, 0, 0, 0, 0, 0x17);
    assert_eq!(st.forwarded_for, Some(Identifier::SocketAddress(v6, 4711)));
    assert_eq!(st.forwarded_for.as_ref().unwrap().address(), Some(v6));
    assert_eq!(st.forwarded_proto, Some(Protocol::Http));
    assert_eq!(
        st.forwarded_by,
        Some(Identifier::IpAddress(IpAddress::V4(203, 0, 113, 43)))
    );
    assert_eq!(st.forwarded_host, None);
}

#[test]
fn stanza_keys_ignore_case_and_unknown_keys_are_skipped() {
    let st = ForwardedStanza::from_str(" FOR=192.0.2.1 ; Secret=whatever ;; PROTO=HTTPS ").unwrap();
    assert_eq!(st.forwarded_for, Some(Identifier::IpAddress(IpAddress::V4(192, 0, 2, 1))));
    assert_eq!(st.forwarded_proto, Some(Protocol::Https));
    assert_eq!(st.forwarded_by, None);
}

#[test]
fn stanza_repeated_key_keeps_last() {
    let st = ForwardedStanza::from_str("for=1.1.1.1;for=2.2.2.2").unwrap();
    assert_eq!(st.forwarded_for, Some(Identifier::IpAddress(IpAddress::V4(2, 2, 2, 2))));
}

#[test]
fn stanza_host_is_unquoted_and_unescaped() {
    let st = ForwardedStanza::from_str("host=\"ex\\\"am\\\\ple\"").unwrap();
    assert_eq!(st.forwarded_host, Some("ex\"am\\ple".to_string()));
    let st = ForwardedStanza::from_str("host=example.com").unwrap();
    assert_eq!(st.forwarded_host, Some("example.com".to_string()));
    let st = ForwardedStanza::from_str("host=\"").unwrap();
    assert_eq!(st.forwarded_host, Some("\"".to_string()));
}

#[test]
fn stanza_errors() {
    assert!(matches!(
        ForwardedStanza::from_str("for=1.1.1.1;oops"),
        Err(ForwardedHeaderValueParseError::InvalidPart(p)) if p == "oops"
    ));
    assert!(matches!(
        ForwardedStanza::from_str("proto=ftp;for=1.1.1.1"),
        Err(ForwardedHeaderValueParseError::InvalidProtocol)
    ));
    assert!(matches!(
        ForwardedStanza::from_str("for=[zz]"),
        Err(ForwardedHeaderValueParseError::InvalidAddress)
    ));
    assert!(matches!(
        ForwardedStanza::from_str("by=bogus"),
        Err(ForwardedHeaderValueParseError::InvalidObfuscatedNode(p)) if p == "bogus"
    ));
}

#[test]
fn header_items_are_trimmed_and_non_empty() {
    assert_eq!(values_from_header(" a , ,b ,"), vec!["a".to_string(), "b".to_string()]);
    assert!(values_from_header(" , , ").is_empty());
    assert!(values_from_header("").is_empty());
}

#[test]
fn header_value_keeps_stanza_order() {
    let v = ForwardedHeaderValue::from_forwarded("for=192.0.2.43, for=198.51.100.17;by=unknown")
        .unwrap();
    let stanzas = v.values();
    assert_eq!(stanzas.len(), 2);
    assert_eq!(
        stanzas[0].forwarded_for,
        Some(Identifier::IpAddress(IpAddress::V4(192, 0, 2, 43)))
    );
    assert_eq!(
        stanzas[1].forwarded_for,
        Some(Identifier::IpAddress(IpAddress::V4(198, 51, 100, 17)))
    );
    assert_eq!(stanzas[1].forwarded_by, Some(Identifier::Unknown));
    assert_eq!(v.into_values().len(), 2);
}

#[test]
fn empty_header_value_is_an_error() {
    assert!(matches!(
        ForwardedHeaderValue::from_forwarded(" , ,"),
        Err(ForwardedHeaderValueParseError::HeaderIsEmpty)
    ));
}

#[test]
fn one_bad_stanza_fails_the_occurrence() {
    assert!(matches!(
        ForwardedHeaderValue::from_forwarded("for=192.0.2.43, for=bogus, for=x"),
        Err(ForwardedHeaderValueParseError::InvalidObfuscatedNode(p)) if p == "bogus"
    ));
}

#[test]
fn header_value_from_str_matches_from_forwarded() {
    let v = ForwardedHeaderValue::from_str("for=_a, for=192.0.2.1").unwrap();
    assert_eq!(v.values().len(), 2);
    assert_eq!(v.values()[0].forwarded_for, Some(Identifier::Obfuscated("_a".to_string())));
    assert!(matches!(
        ForwardedHeaderValue::from_str(""),
        Err(ForwardedHeaderValueParseError::HeaderIsEmpty)
    ));
}
