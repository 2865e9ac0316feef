use client_ip::ip::IpAddress;
use client_ip::resolve::{
    extract_forwarded, extract_forwarded_for, extract_real_ip, get_client_ip, RequestSnapshot,
};

fn strings(v: &[&str]) -> Vec<String> {
    v.iter().map(|s| s.to_string()).collect()
}

fn snapshot(xff: &[&str], real: &[&str], fwd: &[&str], peer: Option<IpAddress>) -> RequestSnapshot {
    RequestSnapshot {
        x_forwarded_for: strings(xff),
        x_real_ip: strings(real),
        forwarded: strings(fwd),
        peer,
    }
}

#[test]
fn forwarded_for_leftmost_wins() {
    assert_eq!(
        extract_forwarded_for(&strings(&["10.0.0.1, 10.0.0.2"])),
        Some(IpAddress::V4(10, 0, 0, 1))
    );
}

#[test]
fn forwarded_for_skips_empty_and_invalid_entries() {
    assert_eq!(
        extract_forwarded_for(&strings(&[" , bogus, 10.0.0.5"])),
        Some(IpAddress::V4(10, 0, 0, 5))
    );
    assert_eq!(extract_forwarded_for(&strings(&["bogus, , [::1]"])), None);
}

#[test]
fn forwarded_for_reads_only_the_first_occurrence() {
    assert_eq!(extract_forwarded_for(&strings(&["bogus", "10.0.0.9"])), None);
    assert_eq!(extract_forwarded_for(&strings(&[])), None);
    assert_eq!(
        extract_forwarded_for(&strings(&["2001:db8::7 , 10.0.0.1"])),
        Some(IpAddress::V6(0x2001, 0xdb8, 0, 0, 0, 0, 0, 7))
    );
}

#[test]
fn real_ip_is_trimmed_first_occurrence() {
    assert_eq!(
        extract_real_ip(&strings(&[" 203.0.113.9 ", "10.0.0.1"])),
        Some(IpAddress::V4(203, 0, 113, 9))
    );
    assert_eq!(extract_real_ip(&strings(&["nope", "10.0.0.1"])), None);
    assert_eq!(extract_real_ip(&strings(&["10.0.0.1:80"])), None);
    assert_eq!(extract_real_ip(&strings(&[])), None);
}

#[test]
fn structured_header_skips_failed_occurrences_and_unusable_stanzas() {
    assert_eq!(
        extract_forwarded(&strings(&[
            "for=192.0.2.1;proto=ftp",
            "for=unknown, by=10.0.0.1, for=_hidden",
            "for=198.51.100.17, for=192.0.2.99",
        ])),
        Some(IpAddress::V4(198, 51, 100, 17))
    );
    assert_eq!(extract_forwarded(&strings(&[" , ", "for=bogus"])), None);
}

#[test]
fn structured_header_address_ignores_port() {
    assert_eq!(
        extract_forwarded(&strings(&[
            "for=\"[2001:db8:cafe::17]:4711\";proto=http;by=203.0.113.43"
        ])),
        Some(IpAddress::V6(0x2001, 0xdb8, 0xcafe, 0, 0, 0, 0, 0x17))
    );
}

#[test]
fn real_ip_beats_structured_header() {
    let req = snapshot(
        &[],
        &["203.0.113.9"],
        &["for=198.51.100.17"],
        Some(IpAddress::V4(127, 0, 0, 1)),
    );
    assert_eq!(get_client_ip(&req), Some(IpAddress::V4(203, 0, 113, 9)));
}

#[test]
fn forwarded_for_beats_everything() {
    let req = snapshot(
        &["10.0.0.1"],
        &["203.0.113.9"],
        &["for=198.51.100.17"],
        Some(IpAddress::V4(127, 0, 0, 1)),
    );
    assert_eq!(get_client_ip(&req), Some(IpAddress::V4(10, 0, 0, 1)));
}

#[test]
fn invalid_tiers_fall_through() {
    let req = snapshot(
        &["bogus"],
        &["nope"],
        &["for=198.51.100.17"],
        Some(IpAddress::V4(127, 0, 0, 1)),
    );
    assert_eq!(get_client_ip(&req), Some(IpAddress::V4(198, 51, 100, 17)));
}

#[test]
fn transport_peer_is_the_fallback() {
    let req = snapshot(&[], &[], &[], Some(IpAddress::V4(127, 0, 0, 1)));
    assert_eq!(get_client_ip(&req), Some(IpAddress::V4(127, 0, 0, 1)));
    let req = snapshot(&[], &[], &[], None);
    assert_eq!(get_client_ip(&req), None);
}

#[test]
fn resolving_twice_gives_the_same_address() {
    let req = snapshot(
        &[" , bogus"],
        &[],
        &["for=unknown, for=\"[2001:db8::1]:80\""],
        Some(IpAddress::V4(127, 0, 0, 1)),
    );
    let first = get_client_ip(&req);
    let second = get_client_ip(&req);
    assert_eq!(first, second);
    assert_eq!(first, Some(IpAddress::V6(0x2001, 0xdb8, 0, 0, 0, 0, 0, 1)));
}
