//! What holds of the server as a whole, told by what goes in and what comes out.

use crate::addr::IpAddr;
use crate::blocklist::BlocklistView;
use crate::db::{OpView, QueryStatus};
use crate::devices::StoreView;
use crate::dns::acl;
use crate::dns::cache;
use crate::dns::cache::KeyView;
use crate::dns::message;
use crate::dns::message::{MessageView, RecordView};
use crate::dns::reply;
use crate::dns::{HandledView, PendingView, ResolverView, StepView};
use crate::text;
use vstd::prelude::*;

verus! {

/// A request that the server looks at: a standard query with a question.
pub open spec fn is_lookup(m: MessageView) -> bool {
    !m.metadata.response && m.metadata.op_code == 0 && m.queries.len() > 0
}

/// Whether the request is about the name by which Firefox tells whether DNS is filtered.
pub open spec fn is_canary(s: ResolverView, m: MessageView) -> bool {
    s.canary && super::asked_name(m.queries[0].name) == "use-application-dns.net"@
}

/// Whether a list blocks the name that is asked for.
pub open spec fn is_blocked(m: MessageView, blocklist: BlocklistView) -> bool {
    super::asked_name(m.queries[0].name).len() > 0 && blocklist.verdict(
        super::asked_name(m.queries[0].name),
    ) is Some
}

/// A message without records.
pub open spec fn has_no_records(m: MessageView) -> bool {
    m.answers.len() == 0 && m.authorities.len() == 0 && m.additionals.len() == 0
}

/// Two records are the same but for their TTL.
pub open spec fn same_data(a: RecordView, b: RecordView) -> bool {
    a.name == b.name && a.rtype == b.rtype && a.class == b.class && a.rdata == b.rdata
}

/// What the answer for a blocked name says: that the name does not exist, or, for a
/// question for an address, exactly one record, in the name that was asked for and of the
/// type that was asked for, with the null address, for a minute. For other questions there
/// is no record.
pub open spec fn says_blocked(r: MessageView, m: MessageView, qtype: u16, nxdomain: bool) -> bool {
    if nxdomain {
        r.metadata.response_code == 3 && has_no_records(r)
    } else {
        &&& r.metadata.response_code == 0
        &&& r.authorities.len() == 0
        &&& r.additionals.len() == 0
        &&& r.answers.len() == (if qtype == 1 || qtype == 28 {
            1nat
        } else {
            0
        })
        &&& qtype == 1 || qtype == 28 ==> {
            let a = r.answers[0];
            &&& a.name == m.queries[0].name
            &&& a.rtype == qtype
            &&& a.class == 1
            &&& a.ttl == 60
            &&& a.rdata.len() == (if qtype == 1 {
                4nat
            } else {
                16
            })
            &&& forall|i: int| 0 <= i < a.rdata.len() ==> #[trigger] a.rdata[i] == 0
        }
    }
}

/// Every answer is addressed to its request: it carries the identifier, the questions and
/// the RD and CD bits of the request, is marked as an answer to a standard query, complete,
/// from a server that recurses, and vouches for nothing. It has an OPT record if and only
/// if the request has, with the same DO bit, and promises no larger datagrams than both
/// sides take.
pub open spec fn is_addressed_to(r: MessageView, m: MessageView, payload: u16) -> bool {
    &&& r.metadata.id == m.metadata.id
    &&& r.metadata.response
    &&& r.metadata.op_code == 0
    &&& !r.metadata.truncation
    &&& r.metadata.recursion_desired == m.metadata.recursion_desired
    &&& r.metadata.recursion_available
    &&& !r.metadata.authentic_data
    &&& r.metadata.checking_disabled == m.metadata.checking_disabled
    &&& r.queries == m.queries
    &&& r.edns is Some <==> m.edns is Some
    &&& r.edns matches Some(e) ==> {
        let asked = m.edns->0.max_payload;
        &&& e.dnssec_ok == m.edns->0.dnssec_ok
        &&& e.version == 0
        &&& e.z == 0
        &&& e.options.len() == 0
        &&& e.max_payload >= 512
        &&& e.max_payload <= 512 || e.max_payload <= asked && e.max_payload <= payload
        &&& e.max_payload == asked || e.max_payload == payload || e.max_payload == 512
        &&& asked >= 512 && payload >= 512 ==> e.max_payload == asked || e.max_payload == payload
    }
}

/// The answer that `sinkhole` makes is addressed to its request and says that the name is
/// blocked.
pub proof fn a_sinkhole_answers_in_the_name_that_was_asked_for(
    m: MessageView,
    qtype: u16,
    nxdomain: bool,
    payload: u16,
)
    requires
        m.queries.len() > 0,
    ensures
        is_addressed_to(reply::sinkholed(m, qtype, nxdomain, payload), m, payload),
        !reply::sinkholed(m, qtype, nxdomain, payload).metadata.authoritative,
        says_blocked(reply::sinkholed(m, qtype, nxdomain, payload), m, qtype, nxdomain),
{
}

/// A blocked name is answered here, in the name that was asked for, whatever was kept of it
/// before, and the canary is said not to exist.
pub proof fn a_blocked_name_is_answered_here(
    s: ResolverView,
    bytes: Seq<u8>,
    m: MessageView,
    client: IpAddr,
    blocklist: BlocklistView,
    devices: StoreView,
    now: u64,
    ts: i64,
)
    requires
        is_lookup(m),
        is_canary(s, m) || is_blocked(m, blocklist),
    ensures
        s.ruling(bytes, m, client, blocklist, devices, now, ts).1 matches StepView::Reply(r, ops)
            && is_addressed_to(r, m, s.payload) && !r.metadata.authoritative && says_blocked(
            r,
            m,
            m.queries[0].qtype,
            s.nxdomain || is_canary(s, m),
        ) && ops.len() > 0 && (ops.last() matches OpView::Query(q) && q.status
            == QueryStatus::Blocked && q.answer is None && q.elapsed_ms is None && q.blocklist == (
        if is_canary(s, m) {
            Some("firefox-doh-canary"@)
        } else {
            blocklist.verdict(super::asked_name(m.queries[0].name))
        })),
{
}

/// Whatever is done with a lookup, what is stored of it tells the client by its address,
/// the name that was asked for and the type of the question. One that has to go upstream
/// keeps all of that for later. Before it the sighting of the client is stored, if it is a
/// device that is known.
pub proof fn every_lookup_is_logged(
    s: ResolverView,
    bytes: Seq<u8>,
    m: MessageView,
    client: IpAddr,
    blocklist: BlocklistView,
    devices: StoreView,
    now: u64,
    ts: i64,
)
    requires
        is_lookup(m),
    ensures
        ({
            let name = super::asked_name(m.queries[0].name);
            let label = message::type_label(m.queries[0].qtype);
            match s.ruling(bytes, m, client, blocklist, devices, now, ts).1 {
                StepView::Reply(r, ops) => {
                    &&& 1 <= ops.len() <= 2
                    &&& ops.last() matches OpView::Query(q) && {
                        &&& q.ts == ts
                        &&& q.client_ip == client.text()
                        &&& q.domain == name
                        &&& q.qtype == label
                        &&& q.elapsed_ms is None
                        &&& q.status == QueryStatus::Blocked <==> q.blocklist is Some
                        &&& q.status == QueryStatus::Blocked || q.status == QueryStatus::Cached
                        &&& q.status == QueryStatus::Cached ==> q.answer == reply::summary(
                            r.answers,
                        )
                    }
                    &&& ops.len() == 2 <==> devices.touched(client, ts) is Some
                    &&& ops.len() == 2 ==> Some(ops[0]) == devices.touched(client, ts)
                },
                StepView::Forward(p) => {
                    &&& p.request == m
                    &&& p.client == client
                    &&& p.name == name
                    &&& p.qtype == m.queries[0].qtype
                    &&& p.key matches Some(k) && k.name == name && k.qtype == m.queries[0].qtype
                        && k.qclass == m.queries[0].qclass && k.checking_disabled
                        == m.metadata.checking_disabled && k.dnssec_ok == (m.edns is Some
                        && m.edns->0.dnssec_ok)
                },
            }
        }),
{
}

/// When an upstream answered, the last thing that is stored tells the client by its
/// address, the name, the type, how it ended, how long it took and what the answer was.
/// What the answer teaches about devices is stored before.
pub proof fn an_answered_lookup_is_logged(
    before: StoreView,
    p: PendingView,
    m: Option<MessageView>,
    elapsed_ms: u64,
    ts: i64,
)
    ensures
        ({
            let ops = super::answered_ops(before, p, m, elapsed_ms, ts);
            &&& ops.len() > 0
            &&& ops.last() matches OpView::Query(q) && {
                &&& q.ts == ts
                &&& q.client_ip == p.client.text()
                &&& q.domain == p.name
                &&& q.qtype == message::type_label(p.qtype)
                &&& q.blocklist is None
                &&& q.elapsed_ms == Some(
                    if elapsed_ms > 0xffff_ffff {
                        0xffff_ffffu32
                    } else {
                        elapsed_ms as u32
                    },
                )
                &&& match m {
                    None => q.status == QueryStatus::Forwarded && q.answer is None,
                    Some(m) => {
                        let code = m.metadata.response_code;
                        &&& q.status == QueryStatus::Forwarded <==> code == 0
                        &&& q.status == QueryStatus::NxDomain <==> code == 3
                        &&& q.status == QueryStatus::Refused <==> code == 5
                        &&& q.status == QueryStatus::ServFail <==> code != 0 && code != 3 && code
                            != 5
                        &&& q.answer == reply::summary(m.answers)
                    },
                }
            }
            &&& m matches Some(m) ==> {
                let taught = before.taught_ops(m.answers, ts);
                &&& taught.is_prefix_of(ops)
                &&& match before.taught(m.answers).touched(p.client, ts) {
                    Some(seen) => ops.len() == taught.len() + 2 && ops[taught.len() as int] == seen,
                    None => ops.len() == taught.len() + 1,
                }
            }
            &&& m is None ==> match before.touched(p.client, ts) {
                Some(seen) => ops.len() == 2 && ops[0] == seen,
                None => ops.len() == 1,
            }
        }),
{
    match m {
        Some(m) => {
            let taught = before.taught_ops(m.answers, ts);
            let ops = super::answered_ops(before, p, Some(m), elapsed_ms, ts);
            assert(ops.take(taught.len() as int) =~= taught);
            assert(taught.is_prefix_of(ops));
        },
        None => {},
    }
}

/// When no upstream answered, the client is told that the server failed, in an answer that
/// is addressed to its request, and the failure is logged with the client, the name and the
/// type.
pub proof fn a_failed_lookup_is_told_and_logged(
    devices: StoreView,
    p: PendingView,
    payload: u16,
    ts: i64,
)
    ensures
        ({
            let r = super::failure_reply(p.request, payload);
            let ops = super::failed_ops(devices, p, ts);
            &&& is_addressed_to(r, p.request, payload)
            &&& r.metadata.response_code == 2
            &&& !r.metadata.authoritative
            &&& has_no_records(r)
            &&& match devices.touched(p.client, ts) {
                Some(seen) => ops.len() == 2 && ops[0] == seen,
                None => ops.len() == 1,
            }
            &&& ops.last() matches OpView::Query(q) && {
                &&& q.ts == ts
                &&& q.client_ip == p.client.text()
                &&& q.domain == p.name
                &&& q.qtype == message::type_label(p.qtype)
                &&& q.status == QueryStatus::ServFail
                &&& q.elapsed_ms is None
                &&& q.answer is None
                &&& q.blocklist is None
            }
        }),
{
}

/// What is no standard query is refused, and a query without a question is said to be
/// malformed. Neither is logged, and nothing else changes.
pub proof fn what_is_no_lookup_is_turned_down(
    s: ResolverView,
    bytes: Seq<u8>,
    m: MessageView,
    client: IpAddr,
    blocklist: BlocklistView,
    devices: StoreView,
    now: u64,
    ts: i64,
)
    requires
        !is_lookup(m),
    ensures
        s.ruling(bytes, m, client, blocklist, devices, now, ts).0 == s,
        s.ruling(bytes, m, client, blocklist, devices, now, ts).1 matches StepView::Reply(r, ops)
            && ops.len() == 0 && is_addressed_to(r, m, s.payload) && has_no_records(r)
            && r.metadata.response_code == (if m.metadata.response || m.metadata.op_code != 0 {
            5u16
        } else {
            1u16
        }),
{
}

/// An answer that is served from the cache is the answer that was kept: its status, its
/// authority, and every record of it with its own data, each TTL counted down by the
/// seconds gone by. It is addressed to the request that is answered now, and logged as
/// cached.
pub proof fn a_cached_answer_is_the_answer_that_was_kept(
    before: ResolverView,
    s: ResolverView,
    taken: MessageView,
    at: u64,
    bytes: Seq<u8>,
    m: MessageView,
    client: IpAddr,
    blocklist: BlocklistView,
    devices: StoreView,
    now: u64,
    ts: i64,
)
    requires
        is_lookup(m),
        !is_canary(s, m),
        !is_blocked(m, blocklist),
        before.caching,
        cache::cacheable(taken, before.limits.min_ttl),
        before.took(
            s,
            cache::key_of(m, super::asked_name(m.queries[0].name)),
            Some(taken),
            at,
        ),
        at <= now < cache::entry_of(taken, before.limits.max_ttl, at).expires,
    ensures
        s.ruling(bytes, m, client, blocklist, devices, now, ts).1 matches StepView::Reply(r, ops)
            && {
            let gone = (now - at) / 1000;
            &&& is_addressed_to(r, m, s.payload)
            &&& r.metadata.response_code == taken.metadata.response_code
            &&& r.metadata.authoritative == taken.metadata.authoritative
            &&& r.answers.len() == taken.answers.len()
            &&& r.authorities.len() == taken.authorities.len()
            &&& forall|i: int|
                0 <= i < taken.answers.len() ==> same_data(
                    #[trigger] r.answers[i],
                    taken.answers[i],
                ) && r.answers[i].ttl == taken.answers[i].ttl - gone && r.answers[i].ttl > 0
            &&& forall|i: int|
                0 <= i < taken.authorities.len() ==> same_data(
                    #[trigger] r.authorities[i],
                    taken.authorities[i],
                ) && r.authorities[i].ttl == taken.authorities[i].ttl - gone
                    && r.authorities[i].ttl > 0
            &&& forall|i: int|
                0 <= i < r.additionals.len() ==> (#[trigger] r.additionals[i]).rtype != 41
            &&& (forall|i: int|
                0 <= i < taken.additionals.len() ==> (#[trigger] taken.additionals[i]).rtype != 41)
                ==> r.additionals.len() == taken.additionals.len() && forall|i: int|
                0 <= i < taken.additionals.len() ==> same_data(
                    #[trigger] r.additionals[i],
                    taken.additionals[i],
                ) && r.additionals[i].ttl <= taken.additionals[i].ttl
            &&& ops.len() > 0 && (ops.last() matches OpView::Query(q) && q.status
                == QueryStatus::Cached && q.answer == reply::summary(r.answers))
        },
{
    let name = super::asked_name(m.queries[0].name);
    let key = cache::key_of(m, name)->0;
    let e = cache::entry_of(taken, before.limits.max_ttl, at);
    assert(s.cache.contains_key(key) && s.cache[key] == e);
    cache::lemma_entry_is_sound(taken, before.limits.max_ttl, at);
    let hit = cache::answer_of(e, now);
    assert forall|i: int| 0 <= i < taken.answers.len() implies same_data(
        #[trigger] hit.answers[i],
        taken.answers[i],
    ) && hit.answers[i].ttl == taken.answers[i].ttl - (now - at) / 1000 && hit.answers[i].ttl
        > 0 by {
        cache::a_live_record_is_counted_down_exactly(e, now, i);
    }
    assert forall|i: int| 0 <= i < taken.authorities.len() implies same_data(
        #[trigger] hit.authorities[i],
        taken.authorities[i],
    ) && hit.authorities[i].ttl == taken.authorities[i].ttl - (now - at) / 1000
        && hit.authorities[i].ttl > 0 by {
        cache::a_live_record_is_counted_down_exactly(e, now, i);
    }
    assert forall|i: int| 0 <= i < hit.additionals.len() implies (
    #[trigger] hit.additionals[i]).rtype != 41 by {
        assert(e.additionals[i].rtype != 41);
    }
    if forall|i: int|
        0 <= i < taken.additionals.len() ==> (#[trigger] taken.additionals[i]).rtype != 41 {
        cache::lemma_without_opt_keeps(taken.additionals);
        assert(e.additionals == taken.additionals);
    }
}

/// Only an answer that is still good is served from the cache, and only for the same
/// question in the same terms.
pub proof fn a_lookup_is_served_from_the_cache_or_sent_on(
    s: ResolverView,
    bytes: Seq<u8>,
    m: MessageView,
    client: IpAddr,
    blocklist: BlocklistView,
    devices: StoreView,
    now: u64,
    ts: i64,
)
    requires
        is_lookup(m),
        !is_canary(s, m),
        !is_blocked(m, blocklist),
    ensures
        s.ruling(bytes, m, client, blocklist, devices, now, ts).1 is Reply <==> s.caching && exists|
            k: KeyView,
        |
            #[trigger] s.cache.contains_key(k) && s.cache[k].expires > now && k.name
                == super::asked_name(m.queries[0].name) && k.qtype == m.queries[0].qtype && k.qclass
                == m.queries[0].qclass && k.checking_disabled == m.metadata.checking_disabled
                && k.dnssec_ok == (m.edns is Some && m.edns->0.dnssec_ok),
{
    let key = cache::key_of(m, super::asked_name(m.queries[0].name))->0;
    assert forall|k: KeyView|
        k.name == super::asked_name(m.queries[0].name) && k.qtype == m.queries[0].qtype && k.qclass
            == m.queries[0].qclass && k.checking_disabled == m.metadata.checking_disabled
            && k.dnssec_ok == (m.edns is Some && m.edns->0.dnssec_ok) implies #[trigger] s.cache.contains_key(
        k,
    ) == s.cache.contains_key(key) && k == key by {
        assert(k =~= key);
    }
}

/// What goes upstream agrees with what the client asked in everything but how large a
/// datagram may come back: it is what the client sent, or a message with the same fixed
/// part, the same questions and records, and the same OPT record but for the size.
pub open spec fn is_sent_for(wire: Seq<u8>, bytes: Seq<u8>, m: MessageView, payload: u16) -> bool {
    if m.edns is Some && m.edns->0.max_payload > payload {
        exists|sent: MessageView|
            {
                &&& match #[trigger] message::encoded(sent) {
                    Some(v) => wire == v,
                    None => wire == bytes,
                }
                &&& sent.metadata == m.metadata
                &&& sent.queries == m.queries
                &&& sent.answers == m.answers
                &&& sent.authorities == m.authorities
                &&& sent.additionals == m.additionals
                &&& sent.edns matches Some(e) && {
                    &&& e.max_payload == (if payload < 512 {
                        512
                    } else {
                        payload
                    })
                    &&& e.version == m.edns->0.version
                    &&& e.dnssec_ok == m.edns->0.dnssec_ok
                    &&& e.z == m.edns->0.z
                    &&& e.options == m.edns->0.options
                }
            }
    } else {
        wire == bytes
    }
}

/// Limiting the size of a request changes nothing else about it.
pub proof fn only_the_size_of_a_request_is_limited(bytes: Seq<u8>, m: MessageView, limit: u16)
    ensures
        is_sent_for(reply::clamped(bytes, m, limit), bytes, m, limit),
{
    if m.edns is Some && m.edns->0.max_payload > limit {
        let size = if limit < 512 {
            512u16
        } else {
            limit
        };
        let sent = MessageView {
            edns: Some(message::EdnsView { max_payload: size, ..m.edns->0 }),
            ..m
        };
        assert(sent.edns->0 =~= reply::limited(m.edns->0, limit));
        assert(message::encoded(sent) == message::encoded(
            MessageView { edns: Some(reply::limited(m.edns->0, limit)), ..m },
        ));
    }
}

/// A lookup that is sent on goes out as the client asked it.
pub proof fn a_lookup_goes_upstream_as_it_was_asked(
    s: ResolverView,
    bytes: Seq<u8>,
    m: MessageView,
    client: IpAddr,
    blocklist: BlocklistView,
    devices: StoreView,
    now: u64,
    ts: i64,
)
    requires
        is_lookup(m),
    ensures
        s.ruling(bytes, m, client, blocklist, devices, now, ts).1 matches StepView::Forward(p)
            ==> is_sent_for(p.wire, bytes, m, s.payload),
{
    only_the_size_of_a_request_is_limited(bytes, m, s.payload);
}

/// What the server was set up with stays as it is.
pub open spec fn same_setup(a: ResolverView, b: ResolverView) -> bool {
    &&& a.upstreams == b.upstreams
    &&& a.timeout_ms == b.timeout_ms
    &&& a.payload == b.payload
    &&& a.caching == b.caching
    &&& a.nxdomain == b.nxdomain
    &&& a.canary == b.canary
    &&& a.rules == b.rules
    &&& a.limits == b.limits
}

/// One more than `a`, where counters start over.
pub open spec fn one_more(a: u64, b: u64) -> bool {
    if a == 0xffff_ffff_ffff_ffff {
        b == 0
    } else {
        b == a + 1
    }
}

/// Every request of a client that is served is counted once, and again as blocked if it is
/// answered as blocked, or as a hit if it is answered from the cache. Nothing that was set
/// up changes, and the cache only ever loses what has expired.
pub proof fn requests_are_counted_by_what_became_of_them(
    s: ResolverView,
    bytes: Seq<u8>,
    m: MessageView,
    client: IpAddr,
    blocklist: BlocklistView,
    devices: StoreView,
    now: u64,
    ts: i64,
)
    requires
        message::decoded(bytes) == Some(m),
        acl::admitted(s.rules, client),
    ensures
        ({
            let (t, done) = s.received(bytes, client, blocklist, devices, now, ts);
            let blocked = is_lookup(m) && (is_canary(s, m) || is_blocked(m, blocklist));
            let hit = is_lookup(m) && !blocked && done is Reply;
            &&& same_setup(s, t)
            &&& t.warned == s.warned
            &&& one_more(s.stats.total, t.stats.total)
            &&& t.stats.denied == s.stats.denied
            &&& t.stats.upstream_errors == s.stats.upstream_errors
            &&& if blocked {
                one_more(s.stats.blocked, t.stats.blocked)
            } else {
                t.stats.blocked == s.stats.blocked
            }
            &&& if hit {
                one_more(s.stats.cache_hits, t.stats.cache_hits)
            } else {
                t.stats.cache_hits == s.stats.cache_hits
            }
            &&& if hit {
                one_more(s.hits, t.hits)
            } else {
                t.hits == s.hits
            }
            &&& if t.cache != s.cache {
                one_more(s.misses, t.misses)
            } else {
                t.misses == s.misses
            }
            &&& forall|k: KeyView|
                s.cache.contains_key(k) && s.cache[k].expires > now ==> #[trigger] t.cache.contains_key(
                    k,
                ) && t.cache[k] == s.cache[k]
            &&& forall|k: KeyView|
                #[trigger] t.cache.contains_key(k) ==> s.cache.contains_key(k) && t.cache[k]
                    == s.cache[k]
        }),
{
}

/// Whatever comes from a client that is not served gets no reply, is not stored, and is
/// only counted as denied. What cannot be read gets no reply either.
pub proof fn strangers_get_nothing(
    s: ResolverView,
    bytes: Seq<u8>,
    client: IpAddr,
    blocklist: BlocklistView,
    devices: StoreView,
    now: u64,
    ts: i64,
)
    ensures
        ({
            let (t, done) = s.received(bytes, client, blocklist, devices, now, ts);
            &&& !acl::admitted(s.rules, client) ==> {
                &&& done is Nothing
                &&& same_setup(s, t)
                &&& t.warned
                &&& t.cache == s.cache
                &&& one_more(s.stats.denied, t.stats.denied)
                &&& t.stats.total == s.stats.total
                &&& t.stats.blocked == s.stats.blocked
                &&& t.stats.cache_hits == s.stats.cache_hits
                &&& t.stats.upstream_errors == s.stats.upstream_errors
            }
            &&& acl::admitted(s.rules, client) ==> (done is Nothing <==> message::decoded(
                bytes,
            ) is None)
        }),
{
}

/// A reply that is sent is the encoding of an answer that is addressed to the request.
pub proof fn what_is_sent_is_addressed_to_the_request(
    s: ResolverView,
    bytes: Seq<u8>,
    m: MessageView,
    client: IpAddr,
    blocklist: BlocklistView,
    devices: StoreView,
    now: u64,
    ts: i64,
)
    requires
        message::decoded(bytes) == Some(m),
    ensures
        s.received(bytes, client, blocklist, devices, now, ts).1 matches HandledView::Reply(b, ops)
            ==> exists|r: MessageView|
            b == #[trigger] message::encoded(r) && is_addressed_to(r, m, s.payload) && (is_lookup(m)
                && !is_canary(s, m) && is_blocked(m, blocklist) ==> says_blocked(
                r,
                m,
                m.queries[0].qtype,
                s.nxdomain,
            )),
{
    let c = s.counted();
    match c.ruling(bytes, m, client, blocklist, devices, now, ts).1 {
        StepView::Reply(r, ops) => {
            assert(is_addressed_to(r, m, s.payload));
        },
        StepView::Forward(p) => {},
    }
}

/// An upstream that fails is counted once, and nothing else changes.
pub proof fn a_failure_is_counted(s: ResolverView)
    ensures
        ({
            let t = s.failed();
            &&& same_setup(s, t)
            &&& t.warned == s.warned
            &&& t.cache == s.cache
            &&& t.hits == s.hits
            &&& t.misses == s.misses
            &&& one_more(s.stats.upstream_errors, t.stats.upstream_errors)
            &&& t.stats.total == s.stats.total
            &&& t.stats.blocked == s.stats.blocked
            &&& t.stats.cache_hits == s.stats.cache_hits
            &&& t.stats.denied == s.stats.denied
        }),
{
}

/// Taking an answer changes nothing but the cache, and the cache only where answers are
/// kept and this one is worth keeping.
pub proof fn taking_an_answer_changes_the_cache_alone(
    s: ResolverView,
    t: ResolverView,
    key: Option<KeyView>,
    m: Option<MessageView>,
    now: u64,
)
    requires
        s.took(t, key, m, now),
    ensures
        same_setup(s, t),
        t.warned == s.warned,
        t.hits == s.hits,
        t.misses == s.misses,
        t.stats == s.stats,
        !s.caching || key is None || m is None ==> t.cache == s.cache,
        m is Some && m->0.metadata.response_code != 0 && m->0.metadata.response_code != 3 ==> t.cache
            == s.cache,
        s.caching && key is Some && m is Some && cache::cacheable(m->0, s.limits.min_ttl) ==> {
            &&& t.cache.contains_key(key->0)
            &&& t.cache[key->0] == cache::entry_of(m->0, s.limits.max_ttl, now)
        },
{
}

/// The rules are those of the settings, in order, or none if one of them cannot be read.
pub proof fn rules_are_read_in_order(entries: Seq<String>, i: int)
    requires
        0 <= i < entries.len(),
    ensures
        (forall|j: int| 0 <= j < entries.len() ==> acl::rule_of(#[trigger] entries[j]@) is Ok) ==> {
            &&& super::rules_of(entries).len() == entries.len()
            &&& acl::rule_of(entries[i]@) == Ok::<acl::Rule, acl::CidrError>(
                super::rules_of(entries)[i],
            )
        },
        acl::rule_of(entries[i]@) is Err ==> super::rules_of(entries).len() == 0,
{
}

/// Where the LAN is served, so is the network that was found, even if it is no private one:
/// its addresses are admitted besides what was, and nothing else. Where somebody wrote the
/// rules by hand, they stand.
pub proof fn the_network_that_was_found_is_served(
    rules: Seq<acl::Rule>,
    lan: crate::netinfo::Subnet,
    ip: IpAddr,
)
    ensures
        super::rules_on(rules, None) == rules,
        !acl::private_stance(rules) ==> super::rules_on(rules, Some(lan)) == rules,
        acl::private_stance(rules) && acl::admitted(rules, IpAddr::V4(lan.network))
            ==> super::rules_on(rules, Some(lan)) == rules,
        acl::private_stance(rules) && !acl::admitted(rules, IpAddr::V4(lan.network)) ==> (
        acl::admitted(super::rules_on(rules, Some(lan)), ip) <==> acl::admitted(rules, ip) || (
        ip matches IpAddr::V4(a) && a.lies_in(lan.network, lan.prefix_len))),
        acl::private_stance(rules) <==> rules.len() == 0 || exists|i: int|
            0 <= i < rules.len() && #[trigger] rules[i] == acl::Rule::Private,
{
    acl::widening_adds_exactly_the_new_rule(
        rules,
        acl::Rule::V4 { network: lan.network, prefix: lan.prefix_len },
        ip,
    );
    if rules.contains(acl::Rule::Private) {
        let i = rules.index_of(acl::Rule::Private);
        assert(rules[i] == acl::Rule::Private);
    }
}

/// The name that is looked up, logged and kept is in lower case and has no dot at its end,
/// so that the same name in another spelling is the same name.
pub proof fn names_are_compared_without_case(a: Seq<Seq<u8>>, b: Seq<Seq<u8>>)
    ensures
        forall|i: int|
            0 <= i < super::asked_name(a).len() ==> !('A' <= #[trigger] super::asked_name(a)[i]
                <= 'Z'),
        super::asked_name(a).len() > 0 ==> super::asked_name(a).last() != '.',
        text::lower(message::name_text(a)) == text::lower(message::name_text(b))
            ==> super::asked_name(a) == super::asked_name(b),
        super::asked_name(a).is_prefix_of(text::lower(message::name_text(a))),
        forall|i: int|
            super::asked_name(a).len() <= i < message::name_text(a).len()
                ==> #[trigger] message::name_text(a)[i] == '.',
{
    lemma_lower_trimmed(message::name_text(a));
    lemma_lower_trimmed(message::name_text(b));
    let t = text::trim_end(message::name_text(a), text::Class::Is('.'));
    assert forall|i: int| 0 <= i < super::asked_name(a).len() implies !('A'
        <= #[trigger] super::asked_name(a)[i] <= 'Z') by {
        assert(super::asked_name(a)[i] == text::lower_char(t[i]));
    }
    if t.len() > 0 {
        assert(super::asked_name(a).last() == text::lower_char(t.last()));
    }
    let n = super::asked_name(a).len() as int;
    assert(text::lower(message::name_text(a)).take(n) =~= super::asked_name(a));
}

/// Trimming dots and lowering letters do not get in each other's way.
proof fn lemma_lower_trimmed(s: Seq<char>)
    ensures
        text::lower(text::trim_end(s, text::Class::Is('.'))) == text::trim_end(
            text::lower(s),
            text::Class::Is('.'),
        ),
        text::trim_end(s, text::Class::Is('.')).len() <= s.len(),
        text::trim_end(s, text::Class::Is('.')) == s.take(
            text::trim_end(s, text::Class::Is('.')).len() as int,
        ),
        text::trim_end(s, text::Class::Is('.')).len() > 0 ==> text::trim_end(
            s,
            text::Class::Is('.'),
        ).last() != '.',
        forall|i: int|
            text::trim_end(s, text::Class::Is('.')).len() <= i < s.len() ==> #[trigger] s[i] == '.',
    decreases s.len(),
{
    let l = text::lower(s);
    if s.len() > 0 && s.last() == '.' {
        lemma_lower_trimmed(s.drop_last());
        assert(l.drop_last() =~= text::lower(s.drop_last()));
        assert(l.last() == '.');
        let n = text::trim_end(s, text::Class::Is('.')).len() as int;
        assert(s.drop_last().take(n) =~= s.take(n));
        assert forall|i: int| n <= i < s.len() implies #[trigger] s[i] == '.' by {
            if i < s.len() - 1 {
                assert(s.drop_last()[i] == s[i]);
            }
        }
    } else if s.len() > 0 {
        assert(l.last() == text::lower_char(s.last()));
        assert(s.take(s.len() as int) =~= s);
    } else {
        assert(l =~= s);
        assert(s.take(0) =~= s);
    }
}

} // verus!
