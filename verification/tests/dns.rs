use hickory_proto::op as hop;
use hickory_proto::rr as hrr;
use netwatch::addr::{IpAddr, SocketAddr};
use netwatch::blocklist::Blocklist;
use netwatch::config::Config;
use netwatch::db::{QueryStatus, WriteOp};
use netwatch::devices::DeviceStore;
use netwatch::dns::acl::Acl;
use netwatch::dns::forward::{bind_error, Action, BindRetry, Event, Forward};
use netwatch::dns::message::{
    Edns, Message, Name, Question, Record, CLASS_IN, FORM_ERR, NO_ERROR, NX_DOMAIN, OP_QUERY,
    REFUSED, SERV_FAIL, TYPE_A, TYPE_AAAA, TYPE_CNAME, TYPE_MX, TYPE_TXT,
};
use netwatch::dns::reply::{
    answers_request, base_response, clamp_upstream_payload, error_response, fit_udp, frame,
    frame_len, id_matches, reply_buffer, status_for, summarize_answers,
};
use netwatch::dns::{Handled, Resolver, Step};
use netwatch::netinfo::Subnet;
use netwatch::oui::OuiDb;

fn name(text: &str) -> Name {
    Name {
        labels: text
            .split('.')
            .filter(|l| !l.is_empty())
            .map(|l| l.as_bytes().to_vec())
            .collect(),
    }
}

fn wire_name(text: &str) -> Vec<u8> {
    let mut out = Vec::new();
    for l in name(text).labels {
        out.push(l.len() as u8);
        out.extend_from_slice(&l);
    }
    out.push(0);
    out
}

fn question(text: &str, qtype: u16) -> Question {
    Question { name: name(text), qtype, qclass: CLASS_IN }
}

fn request_msg(text: &str, qtype: u16, id: u16) -> Message {
    let mut m = Message::new(id, false, OP_QUERY);
    m.metadata.recursion_desired = true;
    m.queries.push(question(text, qtype));
    m
}

fn query_bytes(text: &str, qtype: u16) -> Vec<u8> {
    request_msg(text, qtype, 0x1234).to_vec().unwrap()
}

fn record(owner: &str, rtype: u16, ttl: u32, rdata: Vec<u8>) -> Record {
    Record { name: name(owner), rtype, class: CLASS_IN, ttl, rdata }
}

fn edns(max_payload: u16) -> Edns {
    Edns { max_payload, version: 0, dnssec_ok: false, z: 0, options: Vec::new() }
}

fn ip(s: &str) -> IpAddr {
    IpAddr::from_text(s).unwrap()
}

fn upstream(s: &str) -> SocketAddr {
    SocketAddr { ip: ip(s), port: 53 }
}

/// A reply with `n` address records, or one that is marked as truncated.
fn reply_for(req: &Message, n: usize, truncated: bool) -> Message {
    let mut r = Message::new(req.metadata.id, true, OP_QUERY);
    r.queries = netwatch::dns::message::clone_questions(&req.queries);
    r.metadata.truncation = truncated;
    if !truncated {
        for i in 0..n {
            r.answers.push(record(
                &format!("host{i}.example.com."),
                TYPE_A,
                300,
                vec![10, 0, (i / 256) as u8, (i % 256) as u8],
            ));
        }
    }
    r
}

// A clock that moves only by waiting drives these.

fn drive(max_wait: u64, mut attempt: impl FnMut(u32) -> Result<u32, bool>) -> (Result<u32, String>, u32) {
    let mut now: u64 = 0;
    let mut retry = BindRetry::new(now, max_wait);
    let mut calls = 0;
    loop {
        calls += 1;
        match attempt(calls) {
            Ok(v) => return (Ok(v), calls),
            Err(in_use) => match retry.failed(in_use, now) {
                Some(delay) => now += delay,
                None => return (Err(bind_error("binding UDP 0.0.0.0:53")), calls),
            },
        }
    }
}

#[test]
fn bind_retry_succeeds_immediately_without_retrying() {
    let (r, calls) = drive(5_000, |_| Ok(42));
    assert_eq!(r.unwrap(), 42);
    assert_eq!(calls, 1, "no retry needed, no retry taken");
}

#[test]
fn bind_retry_recovers_from_a_transient_conflict() {
    let (r, calls) = drive(30_000, |n| if n < 3 { Err(true) } else { Ok(42) });
    assert_eq!(r.unwrap(), 42);
    assert_eq!(calls, 3, "two failures, then the successful attempt");
}

#[test]
fn bind_retry_gives_up_after_the_window_and_reports_why() {
    let (r, calls) = drive(900, |_| Err(true));
    let msg = r.expect_err("a permanent conflict must eventually surface");
    assert!(msg.contains("binding UDP 0.0.0.0:53"), "names what failed: {msg}");
    assert!(msg.contains("CAP_NET_BIND_SERVICE"), "keeps the actionable hint: {msg}");
    assert!(calls >= 2, "must have retried at least once");
}

#[test]
fn bind_retry_does_not_retry_permission_denied() {
    let (r, calls) = drive(30_000, |_| Err(false));
    assert!(r.is_err());
    assert_eq!(calls, 1, "must not retry a non-AddrInUse error");
}

#[test]
fn waits_grow_up_to_five_seconds() {
    let mut retry = BindRetry::new(0, 1_000_000);
    let waits: Vec<u64> = (0..7).map(|_| retry.failed(true, 1).unwrap()).collect();
    assert_eq!(waits, [250, 500, 1000, 2000, 4000, 5000, 5000]);
    assert_eq!(retry.failed(true, 1_000_000), None);
}

fn resolver(cfg: &Config) -> Resolver {
    Resolver::new(cfg, None)
}

#[test]
fn sinkhole_returns_null_address_for_a() {
    let request = Message::from_vec(&query_bytes("ads.example.com.", TYPE_A)).unwrap();
    let resp = resolver(&Config::default()).sinkhole(&request, TYPE_A);
    assert_eq!(resp.metadata.response_code, NO_ERROR);
    assert_eq!(resp.answers.len(), 1);
    assert_eq!(resp.answers[0].v4().expect("an A record").to_text(), "0.0.0.0");
    assert_eq!(resp.answers[0].ttl, 60);
    // The response must echo the request's transaction ID.
    assert_eq!(resp.metadata.id, 0x1234);
}

#[test]
fn sinkholes_of_other_types_and_modes() {
    let mut cfg = Config::default();
    let request = request_msg("ads.example.com.", TYPE_AAAA, 5);
    let resp = resolver(&cfg).sinkhole(&request, TYPE_AAAA);
    assert_eq!(IpAddr::V6(resp.answers[0].v6().unwrap()).to_text(), "::");
    assert!(resolver(&cfg).sinkhole(&request, TYPE_MX).answers.is_empty());
    cfg.blocking.mode = "nxdomain".to_string();
    let resp = resolver(&cfg).sinkhole(&request, TYPE_AAAA);
    assert_eq!(resp.metadata.response_code, NX_DOMAIN);
    assert!(resp.answers.is_empty());
}

#[test]
fn refuses_non_query_opcodes() {
    let msg = Message::new(7, false, 5);
    let resp = error_response(&msg, REFUSED, 1232);
    assert_eq!(resp.metadata.response_code, REFUSED);
    assert_eq!(resp.metadata.id, 7);
}

fn start(req: &Message, upstreams: &[&str]) -> (Forward, Action) {
    let v: Vec<SocketAddr> = upstreams.iter().map(|u| upstream(u)).collect();
    let (f, a) = Forward::start(req.clone(), &v);
    (f.unwrap(), a)
}

#[test]
fn upstream_tc_answer_is_retried_over_tcp() {
    let req = request_msg("big.example.com.", TYPE_A, 0x4242);
    let (mut f, a) = start(&req, &["127.0.0.1"]);
    assert!(matches!(a, Action::Udp(u) if u == upstream("127.0.0.1")));
    let stub = reply_for(&req, 0, true).to_vec().unwrap();
    let a = f.step(Event::Reply(stub));
    assert!(matches!(a, Action::Tcp(u) if u == upstream("127.0.0.1")), "TC must not be relayed");
    let full = reply_for(&req, 40, false).to_vec().unwrap();
    match f.step(Event::Reply(full)) {
        Action::Done(raw) => {
            let got = Message::from_vec(&raw).unwrap();
            assert!(!got.metadata.truncation, "TC must be resolved, not relayed");
            assert_eq!(got.answers.len(), 40, "full answer came back over TCP");
        }
        other => panic!("expected the answer, got {other:?}"),
    }
}

#[test]
fn a_reply_to_a_different_question_is_rejected() {
    // Matching only the transaction ID is not enough.
    let req = request_msg("victim.example.com.", TYPE_A, 0x1111);
    let mut evil = Message::new(0x1111, true, OP_QUERY);
    evil.queries.push(question("attacker.example.net.", TYPE_A));
    evil.answers.push(record("attacker.example.net.", TYPE_A, 300, vec![6, 6, 6, 6]));
    let (mut f, _) = start(&req, &["127.0.0.1"]);
    match f.step(Event::Reply(evil.to_vec().unwrap())) {
        Action::GiveUp(err) => assert!(err.contains("different question"), "unexpected: {err}"),
        other => panic!("a mismatched question must not be accepted, got {other:?}"),
    }
}

#[test]
fn a_client_without_edns_still_gets_a_large_answer_via_tcp() {
    let req = request_msg("nedns.example.com.", TYPE_A, 0x2222);
    assert!(req.edns.is_none(), "fixture must have no OPT");
    let (mut f, _) = start(&req, &["127.0.0.1"]);
    f.step(Event::Reply(reply_for(&req, 0, true).to_vec().unwrap()));
    match f.step(Event::Reply(reply_for(&req, 30, false).to_vec().unwrap())) {
        Action::Done(raw) => assert_eq!(Message::from_vec(&raw).unwrap().answers.len(), 30),
        other => panic!("expected the answer, got {other:?}"),
    }
}

#[test]
fn upstreams_are_asked_in_order_and_reasons_are_given() {
    let req = request_msg("example.com.", TYPE_A, 1);
    let (mut f, _) = start(&req, &["1.1.1.1", "9.9.9.9"]);
    let a = f.step(Event::TimedOut);
    assert!(matches!(a, Action::Udp(u) if u == upstream("9.9.9.9")));
    assert!(
        matches!(f.step(Event::TimedOut), Action::GiveUp(e) if e == "upstream 9.9.9.9:53 timed out")
    );
    let (mut f, _) = start(&req, &["1.1.1.1"]);
    match f.step(Event::Reply(vec![1])) {
        Action::GiveUp(e) => assert_eq!(
            e,
            "undecodable reply from 1.1.1.1:53: unexpected end of input reached"
        ),
        other => panic!("expected the end of the search, got {other:?}"),
    }
    let (mut f, _) = start(&req, &["1.1.1.1"]);
    match f.reply(vec![], Err("no reason".to_string())) {
        Action::GiveUp(e) => assert_eq!(e, "undecodable reply from 1.1.1.1:53: no reason"),
        other => panic!("expected the end of the search, got {other:?}"),
    }
    let (mut f, _) = start(&req, &["1.1.1.1"]);
    let a = f.step(Event::Failed("sending to upstream".to_string()));
    assert!(matches!(a, Action::GiveUp(e) if e == "sending to upstream"));
    let (none, a) = Forward::start(req, &Vec::new());
    assert!(none.is_none());
    assert!(matches!(a, Action::GiveUp(e) if e == "no upstreams configured"));
}

#[test]
fn an_oversized_client_edns_is_clamped_before_going_upstream() {
    // A client claiming 64 KiB must not dictate how much we buffer.
    let mut req = request_msg("example.com.", TYPE_A, 7);
    req.edns = Some(edns(65535));
    let original = req.to_vec().unwrap();
    let clamped = clamp_upstream_payload(&original, &req, 1232);
    let sent = Message::from_vec(&clamped).unwrap();
    assert_eq!(sent.max_payload(), 1232);
    assert_eq!(sent.metadata.id, 7);
}

#[test]
fn a_request_already_within_the_limit_is_forwarded_byte_for_byte() {
    let mut req = request_msg("example.com.", TYPE_A, 9);
    req.edns = Some(edns(512));
    let original = req.to_vec().unwrap();
    assert_eq!(
        clamp_upstream_payload(&original, &req, 1232),
        original,
        "no re-encode when no clamping is needed"
    );
}

#[test]
fn default_config_refuses_to_serve_the_internet() {
    // This is the open-resolver guard: by default only the LAN is served.
    let mut r = resolver(&Config::default());
    assert!(r.allows(ip("192.168.1.20")));
    assert!(r.allows(ip("127.0.0.1")));
    assert!(!r.has_denied());
    assert!(!r.allows(ip("8.8.8.8")));
    assert!(!r.allows(ip("203.0.113.7")));

    // Denials are counted so the dashboard can surface them.
    assert_eq!(r.stats.denied, 2);
    assert!(r.has_denied());
    assert!(!r.is_open_to_world());
}

#[test]
fn allow_from_any_is_respected_when_set_deliberately() {
    let mut cfg = Config::default();
    cfg.dns.allow_from = vec!["any".to_string()];
    let mut r = resolver(&cfg);
    assert!(r.allows(ip("8.8.8.8")));
    assert_eq!(r.stats.denied, 0);
    assert!(r.is_open_to_world(), "startup must be able to warn about this");
}

#[test]
fn a_malformed_allow_from_is_rejected_at_config_load() {
    let mut cfg = Config::default();
    cfg.dns.allow_from = vec!["not-a-subnet".to_string()];
    assert!(
        Acl::parse(&cfg.dns.allow_from).is_err(),
        "a typo in allow_from must not silently change who is served"
    );
    // A server that is set up all the same serves the local network only.
    let mut r = resolver(&cfg);
    assert!(r.allows(ip("192.168.1.20")));
    assert!(!r.allows(ip("8.8.8.8")));
}

#[test]
fn a_lan_with_public_addresses_is_served() {
    let lan = Subnet::parse_cidr("203.0.113.0/24").unwrap();
    let mut r = Resolver::new(&Config::default(), Some(lan));
    assert!(r.allows(ip("203.0.113.9")));
    assert!(!r.allows(ip("203.0.114.9")));
}

#[test]
fn small_answers_pass_through_unchanged() {
    let request = query_bytes("example.com.", TYPE_A);
    let mut resp = Message::new(0x1234, true, OP_QUERY);
    resp.queries = Message::from_vec(&request).unwrap().queries;
    resp.answers.push(record("example.com.", TYPE_A, 300, vec![1, 2, 3, 4]));
    let bytes = resp.to_vec().unwrap();
    let out = fit_udp(&request, bytes.clone(), 4096).expect("should fit");
    assert_eq!(out, bytes, "a small answer must not be rewritten");
}

#[test]
fn oversized_answers_come_back_truncated() {
    let request = query_bytes("example.com.", TYPE_A);
    let mut resp = Message::new(0x1234, true, OP_QUERY);
    resp.queries = Message::from_vec(&request).unwrap().queries;
    // No EDNS on the request, so the limit is 512 bytes. 100 A records is
    // comfortably past that.
    for i in 0..100u8 {
        resp.answers.push(record(&format!("host{i}.example.com."), TYPE_A, 300, vec![10, 0, 0, i]));
    }
    let bytes = resp.to_vec().unwrap();
    assert!(bytes.len() > 512, "test fixture should exceed the UDP limit");

    let out = fit_udp(&request, bytes, 4096).expect("should produce a stub");
    let parsed = Message::from_vec(&out).unwrap();
    assert!(parsed.metadata.truncation, "TC bit must be set");
    assert!(parsed.answers.is_empty(), "truncated stub carries no answers");
    assert_eq!(parsed.metadata.id, 0x1234, "transaction ID must survive");
    assert!(out.len() <= 512);
    assert!(fit_udp(&[0, 1], vec![1, 2], 4096).is_none());
}

#[test]
fn edns_opt_is_echoed_back() {
    let mut req = request_msg("ads.example.com.", TYPE_A, 0x4242);
    req.edns = Some(edns(4096));
    let resp = base_response(&req, 4096);
    assert!(resp.edns.is_some(), "OPT must be echoed");
    assert_eq!(resp.max_payload(), 4096);
}

#[test]
fn messages_are_read_as_the_crate_reads_them() {
    let mut m = hop::Message::new(77, hop::MessageType::Query, hop::OpCode::Query);
    m.metadata.recursion_desired = true;
    m.metadata.checking_disabled = true;
    let mut q = hop::Query::new();
    q.set_name(hrr::Name::from_ascii("WWW.Example.com.").unwrap());
    q.set_query_type(hrr::RecordType::AAAA);
    m.add_query(q);
    let mut e = hop::Edns::new();
    e.set_max_payload(4096);
    e.set_dnssec_ok(true);
    m.set_edns(e);
    m.answers.push(hrr::Record::from_rdata(
        hrr::Name::from_ascii("www.example.com.").unwrap(),
        300,
        hrr::RData::CNAME(hrr::rdata::CNAME(hrr::Name::from_ascii("cdn.example.net.").unwrap())),
    ));
    let bytes = m.to_vec().unwrap();
    let got = Message::from_vec(&bytes).expect("decodes");
    assert_eq!(got.metadata.id, 77);
    assert!(got.metadata.recursion_desired && got.metadata.checking_disabled);
    assert!(!got.metadata.response);
    assert_eq!(got.queries[0].name.to_ascii(), "WWW.Example.com.");
    assert_eq!(got.queries[0].qtype, TYPE_AAAA);
    let e = got.edns.as_ref().expect("OPT");
    assert_eq!((e.max_payload, e.dnssec_ok), (4096, true));
    assert_eq!(got.answers[0].rtype, TYPE_CNAME);
    assert_eq!(got.answers[0].ttl, 300);
    assert_eq!(got.answers[0].target().unwrap().to_ascii(), "cdn.example.net.");
    assert!(Message::from_vec(&bytes[..5]).is_none());
}

#[test]
fn messages_are_written_as_the_crate_reads_them() {
    let mut m = request_msg("example.com.", TYPE_A, 0xbeef);
    m.metadata.response = true;
    m.metadata.response_code = NX_DOMAIN;
    m.metadata.authoritative = true;
    m.edns = Some(edns(1400));
    m.answers.push(record("a.example.com.", TYPE_A, 60, vec![1, 2, 3, 4]));
    m.authorities.push(record("example.com.", TYPE_MX, 70, {
        let mut d = vec![0, 10];
        d.extend_from_slice(&wire_name("mail.example.com."));
        d
    }));
    let plain = m.to_plain().unwrap();
    let bytes = m.to_vec().unwrap();
    assert!(bytes.len() < plain.len(), "names are compressed");
    assert_eq!(&bytes[..2], &[0xbe, 0xef]);
    let got = hop::Message::from_vec(&bytes).unwrap();
    assert_eq!(got.metadata.id, 0xbeef);
    assert_eq!(got.metadata.response_code, hop::ResponseCode::NXDomain);
    assert!(got.metadata.authoritative);
    assert_eq!(got.edns.as_ref().unwrap().max_payload(), 1400);
    assert_eq!(got.answers[0].ttl, 60);
    assert_eq!(got.answers[0].name.to_ascii(), "a.example.com.");
    match &got.authorities[0].data {
        hrr::RData::MX(mx) => assert_eq!(mx.exchange.to_ascii(), "mail.example.com."),
        other => panic!("expected MX, got {other:?}"),
    }
}

#[test]
fn names_are_spelled_as_the_crate_spells_them() {
    let labels: Vec<Vec<Vec<u8>>> = vec![
        vec![],
        vec![b"example".to_vec(), b"com".to_vec()],
        vec![b"_dns-sd".to_vec(), b"UDP".to_vec()],
        vec![b"*".to_vec(), b"a*b".to_vec()],
        vec![b"-x-".to_vec(), b"with.dot".to_vec()],
        vec![b"sp ace".to_vec(), vec![0, 7, 127, 200, 255]],
        vec![b"back\\slash\"quote".to_vec(), b"semi;colon@at".to_vec()],
    ];
    for l in labels {
        let n = hrr::Name::from_labels(l.iter().map(|x| x.as_slice())).unwrap();
        assert_eq!(Name { labels: l }.to_ascii(), n.to_ascii());
    }
    for b in 0..=255u8 {
        for l in [vec![b, b'x'], vec![b'x', b]] {
            let n = hrr::Name::from_labels(vec![l.as_slice()]).unwrap();
            assert_eq!(Name { labels: vec![l] }.to_ascii(), n.to_ascii(), "byte {b}");
        }
    }
}

#[test]
fn answers_are_summed_up() {
    let mut m = Message::new(1, true, OP_QUERY);
    assert!(summarize_answers(&m).is_none());
    m.answers.push(record("a.", TYPE_CNAME, 1, wire_name("b.example.")));
    m.answers.push(record("b.", TYPE_A, 1, vec![1, 2, 3, 4]));
    m.answers.push(record("b.", TYPE_AAAA, 1, {
        let mut d = vec![0u8; 16];
        d[0] = 0x20;
        d[15] = 1;
        d
    }));
    m.answers.push(record("b.", TYPE_TXT, 1, vec![1, b'x']));
    assert_eq!(summarize_answers(&m).unwrap(), "b.example., 1.2.3.4, 2000::1, TXT");
    m.answers.push(record("b.", 33, 1, vec![0; 8]));
    m.answers.push(record("b.", 33, 1, vec![0; 8]));
    assert_eq!(summarize_answers(&m).unwrap(), "b.example., 1.2.3.4, 2000::1, TXT, +2");
    let mut m = Message::new(1, true, OP_QUERY);
    m.answers.push(record("b.", 33, 1, vec![0; 8]));
    assert_eq!(summarize_answers(&m).unwrap(), "SRV");
}

#[test]
fn case_does_not_make_another_question() {
    let req = request_msg("Example.COM.", TYPE_A, 3);
    let mut resp = request_msg("example.com.", TYPE_A, 3);
    assert!(answers_request(&req, &resp));
    resp.queries[0].qtype = TYPE_AAAA;
    assert!(!answers_request(&req, &resp));
    let mut resp = request_msg("example.com.", TYPE_A, 4);
    assert!(!answers_request(&req, &resp));
    resp.metadata.id = 3;
    resp.queries.clear();
    assert!(!answers_request(&req, &resp));
}

#[test]
fn frames_tell_their_length() {
    let f = frame(&[7u8; 300]).unwrap();
    assert_eq!(&f[..3], &[1, 44, 7]);
    assert_eq!(frame_len([f[0], f[1]]), Some(300));
    assert_eq!(frame_len([0, 0]), None);
    assert!(frame(&vec![0u8; 65_536]).is_none());
    assert!(id_matches(&[1, 2, 3], &[1, 2]));
    assert!(!id_matches(&[1, 2, 3], &[1, 3]));
    assert!(!id_matches(&[1, 2, 3], &[1]));
    assert_eq!((reply_buffer(100), reply_buffer(1232)), (512, 1232));
}

#[test]
fn statuses_follow_the_response_code() {
    assert_eq!(status_for(NO_ERROR), QueryStatus::Forwarded);
    assert_eq!(status_for(NX_DOMAIN), QueryStatus::NxDomain);
    assert_eq!(status_for(REFUSED), QueryStatus::Refused);
    assert_eq!(status_for(SERV_FAIL), QueryStatus::ServFail);
    assert_eq!(status_for(9), QueryStatus::ServFail);
}

struct World {
    resolver: Resolver,
    blocklist: Blocklist,
    devices: DeviceStore,
}

impl World {
    fn new(cfg: &Config) -> Self {
        let mut blocklist = Blocklist::default();
        blocklist.ingest("ads.example.com\n", "list", false);
        World { resolver: resolver(cfg), blocklist, devices: DeviceStore::new(OuiDb::new()) }
    }

    fn handle(&mut self, request: &[u8], now: u64) -> Handled {
        self.resolver.receive(
            request,
            ip("192.168.1.5"),
            &self.blocklist,
            &self.devices,
            now,
            1000,
        )
    }
}

fn replied(h: Handled) -> (Message, Vec<WriteOp>) {
    match h {
        Handled::Reply(bytes, ops) => (Message::from_vec(&bytes.unwrap()).unwrap(), ops),
        Handled::Nothing => panic!("no reply"),
        Handled::Forward(_) => panic!("forwarded"),
    }
}

fn logged(ops: &[WriteOp]) -> (QueryStatus, Option<&str>, Option<&str>) {
    match ops.last() {
        Some(WriteOp::Query(e)) => (e.status, e.blocklist.as_deref(), e.answer.as_deref()),
        other => panic!("expected a query, got {other:?}"),
    }
}

#[test]
fn blocked_names_are_sinkholed_and_logged() {
    let mut w = World::new(&Config::default());
    let (m, ops) = replied(w.handle(&query_bytes("ADS.example.com.", TYPE_A), 0));
    assert_eq!(m.metadata.id, 0x1234);
    assert!(m.metadata.response && m.metadata.recursion_available);
    assert_eq!(m.answers[0].rdata, [0, 0, 0, 0]);
    assert_eq!(logged(&ops), (QueryStatus::Blocked, Some("list"), None));
    assert_eq!((w.resolver.stats.total, w.resolver.stats.blocked), (1, 1));
}

#[test]
fn the_canary_is_answered_in_either_mode() {
    let mut w = World::new(&Config::default());
    let (m, ops) = replied(w.handle(&query_bytes("use-application-dns.net.", TYPE_A), 0));
    assert_eq!(m.metadata.response_code, NX_DOMAIN);
    assert!(m.answers.is_empty());
    assert_eq!(logged(&ops), (QueryStatus::Blocked, Some("firefox-doh-canary"), None));
    let mut cfg = Config::default();
    cfg.blocking.disable_firefox_doh = false;
    let mut w = World::new(&cfg);
    assert!(matches!(
        w.handle(&query_bytes("use-application-dns.net.", TYPE_A), 0),
        Handled::Forward(_)
    ));
}

#[test]
fn what_is_not_a_query_is_refused() {
    let mut w = World::new(&Config::default());
    let mut m = request_msg("example.com.", TYPE_A, 5);
    m.metadata.op_code = 4;
    let (r, ops) = replied(w.handle(&m.to_vec().unwrap(), 0));
    assert_eq!(r.metadata.response_code, REFUSED);
    assert!(ops.is_empty());
    let mut m = request_msg("example.com.", TYPE_A, 5);
    m.queries.clear();
    let (r, _) = replied(w.handle(&m.to_vec().unwrap(), 0));
    assert_eq!(r.metadata.response_code, FORM_ERR);
    assert!(matches!(w.handle(&[1, 2, 3], 0), Handled::Nothing));
    assert_eq!(w.resolver.stats.total, 3);
}

#[test]
fn strangers_get_no_reply() {
    let mut w = World::new(&Config::default());
    let h = w.resolver.receive(
        &query_bytes("ads.example.com.", TYPE_A),
        ip("8.8.8.8"),
        &w.blocklist,
        &w.devices,
        0,
        1000,
    );
    assert!(matches!(h, Handled::Nothing));
    assert_eq!((w.resolver.stats.total, w.resolver.stats.denied), (0, 1));
}

#[test]
fn an_answer_is_kept_for_the_next_client() {
    let mut w = World::new(&Config::default());
    let p = match w.handle(&query_bytes("www.example.com.", TYPE_A), 0) {
        Handled::Forward(p) => p,
        _ => panic!("expected a forward"),
    };
    assert_eq!(p.name, "www.example.com");
    let mut answer = reply_for(&p.request, 0, false);
    answer.answers.push(record("www.example.com.", TYPE_A, 300, vec![1, 2, 3, 4]));
    let raw = answer.to_vec().unwrap();
    let ops = w.resolver.finish(&p, &raw, 12, &mut w.devices, 0, 1000);
    assert_eq!(logged(&ops), (QueryStatus::Forwarded, None, Some("1.2.3.4")));
    assert_eq!(w.resolver.cache_len(), 1);

    let next = request_msg("www.example.com.", TYPE_A, 0x7777).to_vec().unwrap();
    let (m, ops) = replied(w.handle(&next, 100_000));
    assert_eq!(m.metadata.id, 0x7777, "never the identifier of an earlier client");
    assert_eq!(m.answers[0].ttl, 200);
    assert_eq!(logged(&ops), (QueryStatus::Cached, None, Some("1.2.3.4")));
    w.resolver.sweep(300_000);
    assert_eq!(w.resolver.cache_len(), 0);
}

#[test]
fn a_failure_upstream_is_told_to_the_client() {
    let mut w = World::new(&Config::default());
    let p = match w.handle(&query_bytes("www.example.com.", TYPE_A), 0) {
        Handled::Forward(p) => p,
        _ => panic!("expected a forward"),
    };
    let (bytes, ops) = w.resolver.fail(&p, &w.devices, 1000);
    let m = Message::from_vec(&bytes.unwrap()).unwrap();
    assert_eq!((m.metadata.id, m.metadata.response_code), (0x1234, SERV_FAIL));
    assert_eq!(logged(&ops), (QueryStatus::ServFail, None, None));
    assert_eq!(w.resolver.stats.upstream_errors, 1);
    w.resolver.flush_cache();
    assert_eq!(w.resolver.stats().upstream_errors, 1);
    assert_eq!(w.resolver.udp_payload_limit(), 1232);
    assert_eq!(w.resolver.upstreams().len(), 2);
}

#[test]
fn a_query_shows_that_its_device_is_awake() {
    let mut w = World::new(&Config::default());
    if let IpAddr::V4(a) = ip("192.168.1.5") {
        w.devices.observe(a, "b8:27:eb:11:22:33", 1);
    }
    let (_, ops) = replied(w.handle(&query_bytes("ads.example.com.", TYPE_A), 0));
    assert!(matches!(&ops[0], WriteOp::Device { ts: 1000, .. }));
    assert_eq!(ops.len(), 2);
}

#[test]
fn a_decision_needs_no_bytes() {
    let mut w = World::new(&Config::default());
    let step = w.resolver.decide(
        &[],
        request_msg(".", TYPE_A, 9),
        ip("192.168.1.5"),
        &w.blocklist,
        &w.devices,
        0,
        1,
    );
    match step {
        Step::Forward(p) => assert_eq!(p.name, "", "the root is looked up, not blocked"),
        Step::Reply(..) => panic!("expected a forward"),
    }
}
