use netwatch::addr::{IpAddr, Ipv4Addr};
use netwatch::dns::acl::{Acl, CidrError};

fn acl(entries: &[&str]) -> Acl {
    Acl::parse(&entries.iter().map(|s| s.to_string()).collect::<Vec<_>>()).unwrap()
}

fn ip(s: &str) -> IpAddr {
    IpAddr::from_text(s).unwrap()
}

fn v4(s: &str) -> Ipv4Addr {
    match ip(s) {
        IpAddr::V4(a) => a,
        IpAddr::V6(_) => panic!("not an IPv4 address: {s}"),
    }
}

#[test]
fn default_stance_allows_lan_and_refuses_the_internet() {
    let a = acl(&["loopback", "private"]);

    // Every shape of home network.
    assert!(a.allows(ip("192.168.1.42")));
    assert!(a.allows(ip("10.0.0.7")));
    assert!(a.allows(ip("172.16.5.1")));
    assert!(a.allows(ip("172.31.255.254")));
    assert!(a.allows(ip("127.0.0.1")));
    assert!(a.allows(ip("::1")));
    assert!(a.allows(ip("169.254.10.1")), "DHCP-failed device still gets DNS");
    assert!(a.allows(ip("100.64.0.1")), "CGNAT range");
    assert!(a.allows(ip("fd12:3456::1")), "IPv6 unique local");
    assert!(a.allows(ip("fe80::1")), "IPv6 link-local");

    // The whole point: strangers get nothing.
    assert!(!a.allows(ip("8.8.8.8")));
    assert!(!a.allows(ip("1.1.1.1")));
    assert!(!a.allows(ip("203.0.113.9")));
    assert!(!a.allows(ip("2606:4700::1111")));
    // 172.32 is outside 172.16/12, a classic off-by-one.
    assert!(!a.allows(ip("172.32.0.1")));
    // 100.128 is outside 100.64/10.
    assert!(!a.allows(ip("100.128.0.1")));
}

#[test]
fn explicit_cidrs_are_honoured_per_family() {
    let a = acl(&["192.168.50.0/24", "2001:db8::/32"]);
    assert!(a.allows(ip("192.168.50.1")));
    assert!(a.allows(ip("192.168.50.255")));
    assert!(!a.allows(ip("192.168.51.1")));
    assert!(a.allows(ip("2001:db8::dead")));
    assert!(!a.allows(ip("2001:db9::1")));
    // A v4 address must not be matched by a v6 rule or vice versa.
    assert!(!a.allows(ip("10.0.0.1")));
}

#[test]
fn any_opens_it_up_and_says_so() {
    let a = acl(&["any"]);
    assert!(a.allows(ip("8.8.8.8")));
    assert!(a.is_open_to_world());
    assert!(!acl(&["private"]).is_open_to_world());
}

#[test]
fn empty_rules_fall_back_to_private_rather_than_denying_everything() {
    let a = Acl::parse(&[]).unwrap();
    assert!(a.allows(ip("192.168.1.5")));
    assert!(a.allows(ip("127.0.0.1")));
    assert!(!a.allows(ip("8.8.8.8")));
    assert!(Acl::local_only().allows(ip("10.1.2.3")));
}

#[test]
fn loopback_alone_excludes_the_lan() {
    let a = acl(&["loopback"]);
    assert!(a.allows(ip("127.0.0.1")));
    assert!(!a.allows(ip("192.168.1.5")));
}

#[test]
fn v4_mapped_v6_is_judged_on_its_v4_value() {
    let a = acl(&["private"]);
    assert!(a.allows(ip("::ffff:192.168.1.5")));
    assert!(!a.allows(ip("::ffff:8.8.8.8")));
}

#[test]
fn prefix_zero_matches_everything_in_its_family() {
    let a = acl(&["0.0.0.0/0"]);
    assert!(a.allows(ip("8.8.8.8")));
    assert!(a.is_open_to_world(), "0.0.0.0/0 is the same promise as `any`");
    let b = acl(&["::/0"]);
    assert!(b.allows(ip("2606:4700::1111")));
    assert!(!b.allows(ip("8.8.8.8")));
}

#[test]
fn a_public_addressed_lan_is_trusted_under_the_private_stance() {
    // Some ISPs hand out public addresses straight to LAN devices. Without
    // this, the default would break DNS for the entire house.
    let mut a = acl(&["loopback", "private"]);
    assert!(!a.allows(ip("203.0.113.50")), "not trusted before detection");

    assert!(a.trust_subnet(v4("203.0.113.0"), 24));
    assert!(a.allows(ip("203.0.113.50")), "our own LAN is now served");
    // Widening to our LAN must not open up the rest of the internet.
    assert!(!a.allows(ip("8.8.8.8")));
    assert!(!a.allows(ip("203.0.114.1")), "neighbouring subnet stays out");
}

#[test]
fn trust_subnet_will_not_widen_an_explicit_narrow_choice() {
    // "loopback" alone is a deliberate statement; do not second-guess it.
    let mut a = acl(&["loopback"]);
    assert!(!a.trust_subnet(v4("192.0.2.0"), 24));
    assert!(!a.allows(ip("192.0.2.2")));

    // An explicit CIDR list is equally deliberate.
    let mut b = acl(&["10.1.0.0/16"]);
    assert!(!b.trust_subnet(v4("192.0.2.0"), 24));
    assert!(!b.allows(ip("192.0.2.2")));
    assert!(b.allows(ip("10.1.2.3")));
}

#[test]
fn trust_subnet_is_a_no_op_when_already_covered() {
    let mut a = acl(&["private"]);
    // 192.168/16 is already private, so nothing needs adding.
    assert!(!a.trust_subnet(v4("192.168.1.0"), 24));
    assert!(a.allows(ip("192.168.1.10")));
}

#[test]
fn empty_rules_opt_into_lan_trust() {
    let mut a = Acl::parse(&[]).unwrap();
    assert!(a.trust_subnet(v4("203.0.113.0"), 24));
    assert!(a.allows(ip("203.0.113.7")));
    assert!(a.allows(ip("192.168.1.5")), "and the local ranges are still served");
}

#[test]
fn bad_entries_are_rejected_with_a_useful_message() {
    for bad in ["nonsense", "192.168.1.0", "192.168.1.0/33", "not/an/ip", "/24"] {
        let err = Acl::parse(&[bad.to_string()]).unwrap_err();
        let msg = err.message();
        assert!(
            msg.contains("allow_from"),
            "error for {bad:?} should name the setting, got: {msg}"
        );
        assert!(msg.contains(bad), "and the entry, got: {msg}");
    }
}

#[test]
fn each_cause_is_told_apart() {
    let cause = |s: &str| Acl::parse(&[s.to_string()]).unwrap_err().cause;
    assert!(matches!(cause("192.168.1.0"), CidrError::NoPrefix));
    assert!(matches!(cause("192.168.1.0/x"), CidrError::BadPrefix));
    assert!(matches!(cause("nope/24"), CidrError::BadAddress));
    assert!(matches!(cause("192.168.1.0/33"), CidrError::PrefixTooLong));
    assert!(matches!(cause("fd00::/129"), CidrError::PrefixTooLong));
}

#[test]
fn keywords_have_synonyms_and_any_case() {
    assert!(acl(&[" LAN "]).allows(ip("192.168.1.5")));
    assert!(acl(&["LocalHost"]).allows(ip("127.0.0.1")));
    assert!(acl(&["ALL"]).allows(ip("8.8.8.8")));
}
