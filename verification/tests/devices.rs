use netwatch::addr::{IpAddr, Ipv4Addr, SocketAddr};
use netwatch::db::WriteOp;
use netwatch::devices::{
    name_in_reply, parse_dhcp, ptr_name_to_ip, reverse_message, reverse_reply, reverse_request,
    reverse_server, sanitize_hostname, Attempts, DeviceStore, WriteGate, MAX_ATTEMPTS,
};
use netwatch::dns::message::{
    Message, Name, Record, CLASS_IN, OP_QUERY, TYPE_A, TYPE_PTR, TYPE_SRV,
};
use netwatch::oui::OuiDb;

fn dhcp_packet(mac: [u8; 6], hostname: Option<&str>) -> Vec<u8> {
    let mut p = vec![0u8; 240];
    p[0] = 1; // BOOTREQUEST
    p[1] = 1; // ethernet
    p[2] = 6; // hlen
    p[28..34].copy_from_slice(&mac);
    p[236..240].copy_from_slice(&[0x63, 0x82, 0x53, 0x63]);
    // Option 53: DHCP message type = DISCOVER
    p.extend_from_slice(&[53, 1, 1]);
    if let Some(h) = hostname {
        p.push(12);
        p.push(h.len() as u8);
        p.extend_from_slice(h.as_bytes());
    }
    p.push(255);
    p
}

#[test]
fn parses_dhcp_hostname_and_mac() {
    let pkt = dhcp_packet([0xb8, 0x27, 0xeb, 0x11, 0x22, 0x33], Some("kitchen-pi"));
    let (mac, host) = parse_dhcp(&pkt).expect("should parse");
    assert_eq!(mac, "b8:27:eb:11:22:33");
    assert_eq!(host.as_deref(), Some("kitchen-pi"));
}

#[test]
fn parses_dhcp_without_hostname() {
    let pkt = dhcp_packet([0x5c, 0xcf, 0x7f, 0xaa, 0xbb, 0xcc], None);
    let (mac, host) = parse_dhcp(&pkt).expect("should parse");
    assert_eq!(mac, "5c:cf:7f:aa:bb:cc");
    assert!(host.is_none());
}

#[test]
fn ignores_dhcp_replies_and_runts() {
    let mut pkt = dhcp_packet([1, 2, 3, 4, 5, 6], Some("x"));
    pkt[0] = 2; // BOOTREPLY
    assert!(parse_dhcp(&pkt).is_none());
    assert!(parse_dhcp(&[0u8; 10]).is_none());
}

#[test]
fn survives_truncated_option_length() {
    // An option claiming more bytes than the packet holds must not panic.
    let mut pkt = dhcp_packet([1, 2, 3, 4, 5, 6], None);
    pkt.pop(); // drop the 255 terminator
    pkt.extend_from_slice(&[12, 200]); // hostname option, length 200, no data
    let (mac, host) = parse_dhcp(&pkt).expect("should still yield the MAC");
    assert_eq!(mac, "01:02:03:04:05:06");
    assert!(host.is_none());
}

#[test]
fn converts_ptr_names_to_ips() {
    assert_eq!(
        ptr_name_to_ip("42.1.168.192.in-addr.arpa."),
        Some(Ipv4Addr::new(192, 168, 1, 42))
    );
    assert_eq!(ptr_name_to_ip("example.com."), None);
    assert_eq!(ptr_name_to_ip("1.2.3.in-addr.arpa."), None);
}

#[test]
fn rejects_hostile_hostnames() {
    assert!(sanitize_hostname("kitchen-ipad").is_some());
    assert!(sanitize_hostname("").is_none());
    assert!(sanitize_hostname("has space").is_none());
    assert!(sanitize_hostname("<script>alert(1)</script>").is_none());
    assert!(sanitize_hostname("bell\u{7}name").is_none());
    assert!(sanitize_hostname("192.168.1.5").is_none());
    assert!(sanitize_hostname(&"x".repeat(200)).is_none());
}

fn store() -> DeviceStore {
    DeviceStore::new(OuiDb::new())
}

#[test]
fn resolves_pending_name_once_arp_arrives() {
    let mut store = store();
    let ip = Ipv4Addr::new(192, 168, 1, 50);
    // Name learned before the MAC is known.
    assert!(store.observe_name_for_ip(ip, "living-room-tv", 1).is_none());
    assert!(store.observe(ip, "b8:27:eb:99:88:77", 2).is_some());

    let dev = store.get("b8:27:eb:99:88:77").expect("device recorded");
    assert_eq!(dev.hostname.as_deref(), Some("living-room-tv"));
    assert_eq!(dev.vendor.as_deref(), Some("Raspberry Pi Foundation"));
}

#[test]
fn flags_randomized_macs_instead_of_guessing_vendor() {
    let mut store = store();
    store.observe(Ipv4Addr::new(192, 168, 1, 60), "a2:11:22:33:44:55", 1);
    let dev = store.get("a2:11:22:33:44:55").unwrap();
    assert!(dev.randomized);
    assert_eq!(dev.vendor.as_deref(), Some("(randomized MAC)"));
}

#[test]
fn what_is_stored_of_a_device_is_what_is_known() {
    let mut store = store();
    let ip = Ipv4Addr::new(192, 168, 1, 7);
    store.observe_named("B8-27-EB-11-22-33", "Kitchen-Pi", 5);
    match store.observe(ip, "b827eb112233", 9) {
        Some(WriteOp::Device { mac, ip, hostname, vendor, randomized, ts }) => {
            assert_eq!(mac, "b8:27:eb:11:22:33");
            assert_eq!(ip.as_deref(), Some("192.168.1.7"));
            assert_eq!(hostname.as_deref(), Some("kitchen-pi"));
            assert_eq!(vendor.as_deref(), Some("Raspberry Pi Foundation"));
            assert!(!randomized);
            assert_eq!(ts, 9);
        }
        other => panic!("expected a device, got {other:?}"),
    }
    assert!(store.touch_ip(IpAddr::V4(ip), 10).is_some());
    assert!(store.touch_ip(IpAddr::from_text("::1").unwrap(), 10).is_none());
    assert!(store.touch_ip(IpAddr::from_text("10.0.0.1").unwrap(), 10).is_none());
    assert!(store.observe(ip, "not a mac", 11).is_none());
}

#[test]
fn a_learned_name_does_not_replace_one() {
    let mut store = store();
    let ip = Ipv4Addr::new(192, 168, 1, 8);
    store.observe(ip, "b8:27:eb:11:22:44", 1);
    assert_eq!(store.ips_needing_names(), vec![ip]);
    store.observe_named("b8:27:eb:11:22:44", "printer", 2);
    store.observe_name_for_ip(ip, "generic-host", 3);
    assert_eq!(store.get("b8:27:eb:11:22:44").unwrap().hostname.as_deref(), Some("printer"));
    assert!(store.ips_needing_names().is_empty());
}

fn name(text: &str) -> Name {
    Name {
        labels: text
            .split('.')
            .filter(|l| !l.is_empty())
            .map(|l| l.as_bytes().to_vec())
            .collect(),
    }
}

fn wire(text: &str) -> Vec<u8> {
    let mut out = Vec::new();
    for l in name(text).labels {
        out.push(l.len() as u8);
        out.extend_from_slice(&l);
    }
    out.push(0);
    out
}

fn record(owner: &str, rtype: u16, rdata: Vec<u8>) -> Record {
    Record { name: name(owner), rtype, class: CLASS_IN, ttl: 120, rdata }
}

#[test]
fn names_are_learned_from_answers() {
    let mut store = store();
    let tv = Ipv4Addr::new(192, 168, 1, 20);
    let pi = Ipv4Addr::new(192, 168, 1, 21);
    store.observe(tv, "b8:27:eb:00:00:20", 1);
    store.observe(pi, "b8:27:eb:00:00:21", 1);
    let mut m = Message::new(1, true, OP_QUERY);
    m.answers.push(record("TV.local", TYPE_A, vec![192, 168, 1, 20]));
    m.answers.push(record("www.example.com", TYPE_A, vec![192, 168, 1, 21]));
    m.answers.push(record("21.1.168.192.in-addr.arpa", TYPE_PTR, wire("pi.local")));
    let ops = store.learn_from_dns(&m, 2);
    assert_eq!(ops.len(), 2);
    assert_eq!(store.get("b8:27:eb:00:00:20").unwrap().hostname.as_deref(), Some("tv"));
    assert_eq!(store.get("b8:27:eb:00:00:21").unwrap().hostname.as_deref(), Some("pi"));
}

#[test]
fn an_mdns_sender_names_itself() {
    let mut store = store();
    let src = Ipv4Addr::new(192, 168, 1, 30);
    store.observe(src, "b8:27:eb:00:00:30", 1);
    let mut m = Message::new(0, true, OP_QUERY);
    m.answers.push(record("other.local", TYPE_A, vec![192, 168, 1, 31]));
    m.answers.push(record("desk.local", TYPE_A, vec![192, 168, 1, 30]));
    let pkt = m.to_vec().expect("encodes");
    assert_eq!(store.hear_mdns(IpAddr::V4(src), &pkt, 2).len(), 1);
    assert_eq!(store.get("b8:27:eb:00:00:30").unwrap().hostname.as_deref(), Some("desk"));
    assert!(store.hear_mdns(IpAddr::V4(src), &[1, 2, 3], 3).is_empty());
}

#[test]
fn a_service_names_its_sender_where_nothing_else_does() {
    let mut store = store();
    let src = Ipv4Addr::new(192, 168, 1, 32);
    store.observe(src, "b8:27:eb:00:00:32", 1);
    let mut m = Message::new(0, true, OP_QUERY);
    let mut srv = vec![0, 0, 0, 0, 0, 80];
    srv.extend_from_slice(&wire("scanner.local"));
    m.answers.push(record("Scanner._http._tcp.local", TYPE_SRV, srv));
    store.learn_from_mdns(src, &m, 2);
    assert_eq!(store.get("b8:27:eb:00:00:32").unwrap().hostname.as_deref(), Some("scanner"));
}

#[test]
fn dhcp_names_a_device() {
    let mut store = store();
    let pkt = dhcp_packet([0xb8, 0x27, 0xeb, 0, 0, 0x40], Some("Bedroom"));
    assert!(store.hear_dhcp(&pkt, 1).is_some());
    assert_eq!(store.get("b8:27:eb:00:00:40").unwrap().hostname.as_deref(), Some("bedroom"));
    let silent = dhcp_packet([0xb8, 0x27, 0xeb, 0, 0, 0x41], None);
    assert!(store.hear_dhcp(&silent, 1).is_none());
    assert!(store.get("b8:27:eb:00:00:41").is_none());
}

#[test]
fn a_reverse_question_is_about_its_address() {
    let ip = Ipv4Addr::new(192, 168, 1, 42);
    let m = reverse_message(77, ip);
    assert_eq!(m.metadata.id, 77);
    assert!(m.metadata.recursion_desired);
    let asked = m.queries[0].name.to_ascii();
    assert_eq!(asked, "42.1.168.192.in-addr.arpa.");
    assert_eq!(ptr_name_to_ip(&asked), Some(ip));
    let sent = reverse_request(ip).expect("encodes");
    let read = Message::from_vec(&sent).expect("decodes");
    assert_eq!(read.queries[0].name.to_ascii(), asked);
    assert_eq!(read.queries[0].qtype, TYPE_PTR);
}

#[test]
fn a_reverse_answer_gives_the_short_name() {
    let mut m = Message::new(1, true, OP_QUERY);
    assert!(name_in_reply(&m).is_none());
    m.answers.push(record("42.1.168.192.in-addr.arpa", TYPE_PTR, wire("kitchen.lan")));
    assert_eq!(name_in_reply(&m).as_deref(), Some("kitchen"));
    assert_eq!(reverse_reply(&m.to_vec().unwrap()).as_deref(), Some("kitchen"));
    assert!(reverse_reply(&[0]).is_none());
}

#[test]
fn the_gateway_is_asked_for_names_first() {
    let up = SocketAddr { ip: IpAddr::from_text("1.1.1.1").unwrap(), port: 53 };
    let gw = Ipv4Addr::new(192, 168, 1, 1);
    assert_eq!(reverse_server(None, up), up);
    assert_eq!(reverse_server(Some(gw), up).to_text(), "192.168.1.1:53");
}

#[test]
fn asking_in_vain_comes_to_an_end() {
    let mut a = Attempts::new();
    let ip = Ipv4Addr::new(192, 168, 1, 9);
    for _ in 0..MAX_ATTEMPTS {
        assert!(a.next(ip));
    }
    assert!(!a.next(ip));
    assert!(a.next(Ipv4Addr::new(192, 168, 1, 10)));
    a.forget(ip);
    assert!(a.next(ip));
}

fn row(host: Option<&str>, ts: i64) -> WriteOp {
    WriteOp::Device {
        mac: "aa".to_string(),
        ip: Some("192.168.1.2".to_string()),
        hostname: host.map(|h| h.to_string()),
        vendor: None,
        randomized: false,
        ts,
    }
}

#[test]
fn an_unchanged_device_is_held_back() {
    let mut g = WriteGate::new();
    assert!(!g.knows("aa"));
    assert!(g.lets_pass(&row(None, 100)));
    assert!(g.knows("aa"));
    assert!(!g.lets_pass(&row(None, 159)));
    assert!(g.lets_pass(&row(Some("tv"), 120)), "a change passes at once");
    assert!(g.lets_pass(&row(Some("tv"), 180)), "and so does a heartbeat");
    let mut h = WriteGate::new();
    h.hydrate("aa", Some("192.168.1.2".to_string()), None, None, false, 100);
    assert!(!h.lets_pass(&row(None, 110)));
}
