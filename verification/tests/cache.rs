use netwatch::dns::cache::{response_edns, Cache, Key};
use netwatch::dns::message::{
    Edns, Message, Name, Question, Record, CLASS_IN, NO_ERROR, NX_DOMAIN, OP_QUERY, SERV_FAIL,
    TYPE_A, TYPE_AAAA, TYPE_OPT,
};

const TYPE_SOA: u16 = 6;
const CLASS_CH: u16 = 3;

fn name(text: &str) -> Name {
    Name {
        labels: text
            .split('.')
            .filter(|l| !l.is_empty())
            .map(|l| l.as_bytes().to_vec())
            .collect(),
    }
}

fn a_record(owner: &str, ttl: u32, last: u8) -> Record {
    Record { name: name(owner), rtype: TYPE_A, class: CLASS_IN, ttl, rdata: vec![10, 0, 0, last] }
}

fn soa_record(ttl: u32) -> Record {
    let mut rdata = Vec::new();
    for n in ["ns.example.com.", "admin.example.com."] {
        for l in name(n).labels {
            rdata.push(l.len() as u8);
            rdata.extend_from_slice(&l);
        }
        rdata.push(0);
    }
    for x in [1u32, 7200, 3600, 1_209_600, ttl] {
        rdata.extend_from_slice(&x.to_be_bytes());
    }
    Record { name: name("example.com."), rtype: TYPE_SOA, class: CLASS_IN, ttl, rdata }
}

fn key(name: &str) -> Key {
    Key {
        name: name.into(),
        qtype: TYPE_A,
        qclass: CLASS_IN,
        dnssec_ok: false,
        checking_disabled: false,
    }
}

fn response(code: u16) -> Message {
    let mut m = Message::new(0, true, OP_QUERY);
    m.metadata.response_code = code;
    m
}

fn edns(max_payload: u16, dnssec_ok: bool) -> Edns {
    Edns { max_payload, version: 0, dnssec_ok, z: 0, options: Vec::new() }
}

#[test]
fn each_record_keeps_its_own_ttl() {
    let mut c = Cache::new(10, 30, 86_400);
    let mut msg = response(NO_ERROR);
    msg.answers.push(a_record("a.example.com.", 60, 1));
    msg.answers.push(a_record("b.example.com.", 3600, 2));

    assert!(c.insert(key("example.com"), &msg, 0));
    let hit = c.get(&key("example.com"), 0).expect("should hit");
    assert_eq!(hit.answers[0].ttl, 60);
    assert_eq!(hit.answers[1].ttl, 3600, "long TTL must not be flattened");
}

#[test]
fn a_ttl_shorter_than_min_is_not_cached_rather_than_extended() {
    let mut c = Cache::new(10, 30, 86_400);
    let mut msg = response(NO_ERROR);
    msg.answers.push(a_record("short.example.com.", 5, 1));

    assert!(
        !c.insert(key("short.example.com"), &msg, 0),
        "a sub-threshold TTL must be declined, never rounded up"
    );
    assert!(c.get(&key("short.example.com"), 0).is_none());
}

#[test]
fn max_ttl_can_shorten_an_entry_but_records_keep_their_ttl() {
    let mut c = Cache::new(10, 0, 60);
    let mut msg = response(NO_ERROR);
    msg.answers.push(a_record("long.example.com.", 100_000, 1));
    assert!(c.insert(key("long.example.com"), &msg, 0));
    let hit = c.get(&key("long.example.com"), 0).unwrap();
    assert_eq!(hit.answers[0].ttl, 100_000);
    assert!(c.get(&key("long.example.com"), 59_999).is_some());
    assert!(c.get(&key("long.example.com"), 60_000).is_none());
}

#[test]
fn dnssec_and_cd_answers_are_kept_apart() {
    let mut c = Cache::new(10, 0, 86_400);
    let mut plain = response(NO_ERROR);
    plain.answers.push(a_record("example.com.", 300, 1));

    let mut with_do = key("example.com");
    with_do.dnssec_ok = true;
    let mut with_cd = key("example.com");
    with_cd.checking_disabled = true;

    assert!(c.insert(key("example.com"), &plain, 0));
    assert!(c.get(&with_do, 0).is_none(), "a DO=0 answer must not satisfy a DO=1 query");
    assert!(c.get(&with_cd, 0).is_none(), "a CD=0 answer must not satisfy a CD=1 query");
    assert!(c.get(&key("example.com"), 0).is_some());
}

#[test]
fn query_class_is_part_of_the_key() {
    let mut c = Cache::new(10, 0, 86_400);
    let mut msg = response(NO_ERROR);
    msg.answers.push(a_record("example.com.", 300, 1));
    assert!(c.insert(key("example.com"), &msg, 0));

    let mut chaos = key("example.com");
    chaos.qclass = CLASS_CH;
    assert!(c.get(&chaos, 0).is_none(), "IN answer must not satisfy CH");
}

#[test]
fn the_clients_opt_record_is_never_stored() {
    let mut c = Cache::new(10, 0, 86_400);
    let mut msg = response(NO_ERROR);
    msg.answers.push(a_record("example.com.", 300, 1));
    msg.edns = Some(edns(4096, false));
    msg.additionals.push(Record {
        name: name(""),
        rtype: TYPE_OPT,
        class: CLASS_IN,
        ttl: 0,
        rdata: Vec::new(),
    });
    msg.additionals.push(a_record("ns.example.com.", 300, 2));

    assert!(c.insert(key("example.com"), &msg, 0));
    let hit = c.get(&key("example.com"), 0).unwrap();
    assert!(
        hit.additionals.iter().all(|r| r.rtype != TYPE_OPT),
        "OPT is per-transaction and must not be reused across clients"
    );
    assert_eq!(hit.additionals.len(), 1);
}

#[test]
fn nxdomain_is_cached_off_the_soa_ttl() {
    let mut c = Cache::new(10, 0, 86_400);
    let mut msg = response(NX_DOMAIN);
    msg.authorities.push(soa_record(900));
    assert!(c.insert(key("nope.example.com"), &msg, 0), "negative caching");

    let hit = c.get(&key("nope.example.com"), 0).unwrap();
    assert_eq!(hit.response_code, NX_DOMAIN);
    assert_eq!(hit.authorities[0].ttl, 900);
}

#[test]
fn nodata_is_cached_off_the_soa_ttl() {
    // NOERROR with no answers but an SOA: a valid negative answer.
    let mut c = Cache::new(10, 0, 86_400);
    let mut msg = response(NO_ERROR);
    msg.authorities.push(soa_record(600));
    assert!(c.insert(key("nodata.example.com"), &msg, 0));
    assert_eq!(c.get(&key("nodata.example.com"), 0).unwrap().authorities[0].ttl, 600);
}

#[test]
fn servfail_and_empty_answers_are_not_cached() {
    let mut c = Cache::new(10, 0, 86_400);
    let mut fail = response(SERV_FAIL);
    fail.answers.push(a_record("example.com.", 300, 1));
    assert!(!c.insert(key("example.com"), &fail, 0));

    // NOERROR with nothing at all to derive a lifetime from.
    assert!(!c.insert(key("bare.example.com"), &response(NO_ERROR), 0));
}

#[test]
fn zero_ttl_is_never_cached() {
    let mut c = Cache::new(10, 0, 86_400);
    let mut msg = response(NO_ERROR);
    msg.answers.push(a_record("once.example.com.", 0, 1));
    assert!(!c.insert(key("once.example.com"), &msg, 0));
}

#[test]
fn key_from_request_captures_the_do_and_cd_bits() {
    let mut req = Message::new(1, false, OP_QUERY);
    req.metadata.checking_disabled = true;
    req.queries.push(Question { name: name("example.com."), qtype: TYPE_AAAA, qclass: CLASS_IN });
    req.edns = Some(edns(512, true));

    let k = Key::from_request(&req, "example.com").unwrap();
    assert_eq!(k.qtype, TYPE_AAAA);
    assert_eq!(k.qclass, CLASS_IN);
    assert!(k.dnssec_ok);
    assert!(k.checking_disabled);
    assert!(Key::from_request(&Message::new(1, false, OP_QUERY), "x").is_none());
}

#[test]
fn response_edns_never_invents_an_opt_for_a_client_without_one() {
    let bare = Message::new(1, false, OP_QUERY);
    assert!(response_edns(&bare, 1232).is_none());

    let mut with_edns = Message::new(1, false, OP_QUERY);
    with_edns.edns = Some(edns(65535, true));

    let out = response_edns(&with_edns, 1232).expect("client sent OPT");
    assert_eq!(out.max_payload, 1232, "clamped to what we can reassemble");
    assert!(out.dnssec_ok, "DO must be preserved");
}

#[test]
fn ttls_count_down_and_entries_expire() {
    let mut c = Cache::new(10, 0, 86_400);
    let mut msg = response(NO_ERROR);
    msg.answers.push(a_record("a.example.com.", 60, 1));
    msg.answers.push(a_record("a.example.com.", 300, 2));
    assert!(c.insert(key("a.example.com"), &msg, 1000));
    let hit = c.get(&key("a.example.com"), 21_500).unwrap();
    assert_eq!((hit.answers[0].ttl, hit.answers[1].ttl), (40, 280));
    assert!(c.get(&key("a.example.com"), 61_000).is_none());
    assert_eq!((c.hits, c.misses), (1, 1));
    assert_eq!(c.len(), 0);
}

#[test]
fn a_full_cache_makes_room() {
    let mut c = Cache::new(3, 0, 86_400);
    for (i, n) in ["a", "b", "c", "d"].iter().enumerate() {
        let mut msg = response(NO_ERROR);
        msg.answers.push(a_record("x.example.com.", 100 + i as u32, 1));
        assert!(c.insert(key(n), &msg, 0));
    }
    assert!(c.len() <= 3);
    assert!(c.get(&key("a"), 0).is_none(), "what expires first goes first");
    assert!(c.get(&key("d"), 0).is_some());
    c.sweep(101_500);
    assert!(c.get(&key("b"), 101_500).is_none());
    c.clear();
    assert_eq!(c.len(), 0);
}
