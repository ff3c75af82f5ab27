//! Which address a request came from.
use river::config::internal::ClientIpConfig;
use river::net::{parse_ip, IpAddr, IpCidr};
use river::proxy::client_ip::{default_header, parse_entry, resolve};
use river::proxy::message::Header;

fn cidr(s: &str) -> IpCidr {
    match s.parse::<cidr::IpCidr>().unwrap() {
        cidr::IpCidr::V4(c) => IpCidr {
            first: IpAddr::V4(u32::from(c.first_address())),
            len: c.network_length(),
        },
        cidr::IpCidr::V6(c) => IpCidr {
            first: IpAddr::V6(u128::from(c.first_address())),
            len: c.network_length(),
        },
    }
}

fn ip(s: &str) -> IpAddr {
    parse_ip(s).unwrap()
}

fn config(trusted: &[&str]) -> ClientIpConfig {
    ClientIpConfig {
        trusted_proxies: trusted.iter().map(|c| cidr(c)).collect(),
        header: default_header(),
    }
}

fn forwarded(value: &str) -> Header {
    Header {
        name: "x-forwarded-for".to_string(),
        value: value.as_bytes().to_vec(),
    }
}

/// The address a request is attributed to, when it came from `peer` with
/// `forwarded` in its header.
fn pick(peer: &str, addresses: &[&str], trusted: &[&str]) -> IpAddr {
    let config = config(trusted);
    let headers = vec![forwarded(&addresses.join(", "))];
    resolve(Some(ip(peer)), &headers, Some(&config)).unwrap()
}

#[test]
fn an_untrusted_peer_is_the_client_whatever_it_claims() {
    // The attack this prevents: a client sends its own X-Forwarded-For
    // hoping to be attributed to some other address.
    assert_eq!(
        pick("203.0.113.9", &["10.1.1.1"], &["10.0.0.0/8"]),
        ip("203.0.113.9")
    );
}

#[test]
fn client_ip_a_trusted_peer_hands_over_the_forwarded_address() {
    assert_eq!(
        pick("10.0.0.1", &["203.0.113.9"], &["10.0.0.0/8"]),
        ip("203.0.113.9")
    );
}

#[test]
fn trusted_hops_are_walked_past_from_the_right() {
    // client, then two proxies of our own. The rightmost untrusted entry
    // is the client.
    assert_eq!(
        pick(
            "10.0.0.1",
            &["203.0.113.9", "10.0.0.5", "10.0.0.6"],
            &["10.0.0.0/8"]
        ),
        ip("203.0.113.9")
    );
}

#[test]
fn a_spoofed_prefix_does_not_win() {
    // The client put a fake entry at the front. The real one is the
    // rightmost untrusted address, which is what it actually connected as.
    assert_eq!(
        pick(
            "10.0.0.1",
            &["192.0.2.1", "203.0.113.9", "10.0.0.5"],
            &["10.0.0.0/8"]
        ),
        ip("203.0.113.9")
    );
}

#[test]
fn a_chain_of_only_trusted_proxies_falls_back_to_the_leftmost() {
    assert_eq!(
        pick("10.0.0.1", &["10.0.0.4", "10.0.0.5"], &["10.0.0.0/8"]),
        ip("10.0.0.4")
    );
}

#[test]
fn entries_may_carry_a_port_or_brackets() {
    assert_eq!(
        parse_entry("203.0.113.9:4321"),
        Some(ip("203.0.113.9"))
    );
    assert_eq!(
        parse_entry("[2001:db8::1]"),
        Some(ip("2001:db8::1"))
    );
    assert_eq!(
        parse_entry("[2001:db8::1]:443"),
        Some(ip("2001:db8::1"))
    );
    assert_eq!(parse_entry("not-an-address"), None);
}

#[test]
fn a_connection_without_an_address_has_no_client() {
    let config = config(&["10.0.0.0/8"]);
    assert_eq!(
        resolve(None, &[forwarded("203.0.113.9")], Some(&config)),
        None
    );
}

#[test]
fn without_a_configuration_the_peer_is_the_client() {
    assert_eq!(
        resolve(Some(ip("10.0.0.1")), &[forwarded("203.0.113.9")], None),
        Some(ip("10.0.0.1"))
    );
}

#[test]
fn a_header_that_is_not_there_or_not_text_leaves_the_peer() {
    let config = config(&["10.0.0.0/8"]);
    let peer = Some(ip("10.0.0.1"));
    assert_eq!(resolve(peer, &[], Some(&config)), peer);
    let odd = Header {
        name: "x-forwarded-for".to_string(),
        value: vec![0xff, b'1'],
    };
    assert_eq!(resolve(peer, &[odd], Some(&config)), peer);
    assert_eq!(resolve(peer, &[forwarded("unknown")], Some(&config)), peer);
}

#[test]
fn a_header_over_several_lines_is_one_list() {
    // The client sent a line of its own, and the proxy added another.
    let config = config(&["10.0.0.0/8"]);
    let headers = vec![forwarded("192.0.2.1"), forwarded("203.0.113.9, 10.0.0.5")];
    assert_eq!(
        resolve(Some(ip("10.0.0.1")), &headers, Some(&config)),
        Some(ip("203.0.113.9"))
    );
}

#[test]
fn ranges_hold_the_addresses_that_share_their_prefix() {
    assert!(cidr("10.0.0.0/8").contains(&ip("10.255.0.1")));
    assert!(!cidr("10.0.0.0/8").contains(&ip("11.0.0.0")));
    assert!(cidr("0.0.0.0/0").contains(&ip("203.0.113.9")));
    assert!(cidr("2001:db8::/32").contains(&ip("2001:db8:1::1")));
    assert!(!cidr("2001:db8::/32").contains(&ip("2001:db9::1")));
    // The families do not mix
    assert!(!cidr("::/0").contains(&ip("10.0.0.1")));
}
