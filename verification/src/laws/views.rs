//! What a value stands for is what it holds, part by part.

use crate::alerts::Alert;
use crate::blocklist::{ListText, RefreshOutcome, SourceHealth, SourceStat};
use crate::db;
use crate::db::{Bind, BindView, OpView, QueryEvent, Statement, WriteOp};
use crate::devices::Device;
use crate::dns::message::{Edns, Message, Question, Record};
use crate::dns::Pending;
use crate::netinfo::{ArpEntry, IfaceCounters};
use vstd::prelude::*;

verus! {

/// A text that may be missing.
pub open spec fn same_text(a: Option<Seq<char>>, b: Option<String>) -> bool {
    match b {
        Some(t) => a == Some(t@),
        None => a is None,
    }
}

/// A query that is logged.
pub proof fn a_query_stands_for_its_parts(e: QueryEvent)
    ensures
        e@.ts == e.ts,
        e@.client_ip == e.client_ip@,
        e@.domain == e.domain@,
        e@.qtype == e.qtype@,
        e@.status == e.status,
        e@.elapsed_ms == e.elapsed_ms,
        same_text(e@.answer, e.answer),
        same_text(e@.blocklist, e.blocklist),
{
}

/// Something that is stored.
pub proof fn what_is_stored_stands_for_its_parts(op: WriteOp)
    ensures
        match (op, op@) {
            (WriteOp::Query(e), OpView::Query(v)) => v == e@,
            (
                WriteOp::Iface(s),
                OpView::Iface { ts, iface, rx_bytes, tx_bytes, rx_bps, tx_bps },
            ) => {
                &&& ts == s.ts
                &&& iface == s.iface@
                &&& rx_bytes == s.rx_bytes
                &&& tx_bytes == s.tx_bytes
                &&& rx_bps == s.rx_bps
                &&& tx_bps == s.tx_bps
            },
            (
                WriteOp::Latency { ts, target, nanos },
                OpView::Latency { ts: t, target: x, nanos: n },
            ) => t == ts && x == target@ && n == nanos,
            (
                WriteOp::Device { mac, ip, hostname, vendor, randomized, ts },
                OpView::Device { mac: m, ip: i, hostname: h, vendor: v, randomized: r, ts: t },
            ) => {
                &&& m == mac@
                &&& same_text(i, ip)
                &&& same_text(h, hostname)
                &&& same_text(v, vendor)
                &&& r == randomized
                &&& t == ts
            },
            (
                WriteOp::Alert { ts, kind, severity, subject, detail, notified },
                OpView::Alert { ts: t, kind: k, severity: s, subject: u, detail: d, notified: n },
            ) => {
                &&& t == ts
                &&& k == kind@
                &&& s == severity@
                &&& u == subject@
                &&& d == detail@
                &&& n == notified
            },
            _ => false,
        },
{
}

/// A statement, with its values in order.
pub proof fn a_statement_stands_for_its_parts(s: Statement, i: int)
    ensures
        s@.sql == s.sql@,
        s@.binds.len() == s.binds@.len(),
        0 <= i < s.binds@.len() ==> match (s.binds@[i], s@.binds[i]) {
            (Bind::Null, BindView::Null) => true,
            (Bind::Int(n), BindView::Int(m)) => m == n,
            (Bind::Text(t), BindView::Text(u)) => u == t@,
            (Bind::Nanos(n), BindView::Nanos(m)) => m == n,
            _ => false,
        },
{
}

/// A message, with its parts in order.
pub proof fn a_message_stands_for_its_parts(m: Message, i: int)
    ensures
        m@.metadata == m.metadata,
        m@.queries.len() == m.queries@.len(),
        m@.answers.len() == m.answers@.len(),
        m@.authorities.len() == m.authorities@.len(),
        m@.additionals.len() == m.additionals@.len(),
        0 <= i < m.queries@.len() ==> m@.queries[i] == m.queries@[i]@,
        0 <= i < m.answers@.len() ==> m@.answers[i] == m.answers@[i]@,
        0 <= i < m.authorities@.len() ==> m@.authorities[i] == m.authorities@[i]@,
        0 <= i < m.additionals@.len() ==> m@.additionals[i] == m.additionals@[i]@,
        m.edns is Some <==> m@.edns is Some,
        m.edns matches Some(e) ==> m@.edns == Some(e@),
{
}

/// The parts of a message.
pub proof fn parts_of_a_message_stand_for_their_fields(q: Question, r: Record, e: Edns, i: int)
    ensures
        q@.qtype == q.qtype,
        q@.qclass == q.qclass,
        q@.name.len() == q.name.labels@.len(),
        0 <= i < q.name.labels@.len() ==> q@.name[i] == q.name.labels@[i]@,
        r@.rtype == r.rtype,
        r@.class == r.class,
        r@.ttl == r.ttl,
        r@.rdata == r.rdata@,
        r@.name.len() == r.name.labels@.len(),
        0 <= i < r.name.labels@.len() ==> r@.name[i] == r.name.labels@[i]@,
        e@.max_payload == e.max_payload,
        e@.version == e.version,
        e@.dnssec_ok == e.dnssec_ok,
        e@.z == e.z,
        e@.options == e.options@,
{
}

/// A request that waits for an upstream.
pub proof fn a_pending_request_stands_for_its_parts(p: Pending)
    ensures
        p@.request == p.request@,
        p@.name == p.name@,
        p@.qtype == p.qtype,
        p.key is Some <==> p@.key is Some,
        p.key matches Some(k) ==> p@.key == Some(k@),
        p@.client == p.client,
        p@.wire == p.wire@,
{
}

/// A device and a neighbour.
pub proof fn a_device_stands_for_its_parts(d: Device, e: ArpEntry)
    ensures
        d@.mac == d.mac@,
        d@.ip == d.ip,
        same_text(d@.hostname, d.hostname),
        same_text(d@.vendor, d.vendor),
        d@.randomized == d.randomized,
        e@.ip == e.ip,
        e@.mac == e.mac@,
        e@.iface == e.iface@,
{
}

/// The counters of an interface.
pub proof fn counters_stand_for_their_parts(c: IfaceCounters)
    ensures
        c@.iface == c.iface@,
        c@.rx_bytes == c.rx_bytes,
        c@.tx_bytes == c.tx_bytes,
        c@.rx_packets == c.rx_packets,
        c@.tx_packets == c.tx_packets,
        c@.rx_errors == c.rx_errors,
        c@.tx_errors == c.tx_errors,
        c@.rx_dropped == c.rx_dropped,
        c@.tx_dropped == c.tx_dropped,
{
}

/// An alert.
pub proof fn an_alert_stands_for_its_parts(a: Alert)
    ensures
        a@.kind == a.kind@,
        a@.severity == a.severity,
        a@.subject == a.subject@,
        a@.title == a.title@,
        a@.detail == a.detail@,
{
}

/// A list, a source, how it is doing, and how a refresh ended.
pub proof fn a_list_stands_for_its_parts(
    l: ListText,
    s: SourceStat,
    h: SourceHealth,
    o: RefreshOutcome,
    i: int,
)
    ensures
        l@.name == l.name@,
        l@.contents == l.contents@,
        l@.allow == l.allow,
        s@.name == s.name@,
        s@.entries == s.entries,
        h@.url == h.url@,
        h@.last_attempt == h.last_attempt,
        h@.last_success == h.last_success,
        h@.bytes == h.bytes,
        h@.state == h.state@,
        same_text(h@.error, h.error),
        o@.attempted == o.attempted,
        o@.succeeded == o.succeeded,
        o@.failures.len() == o.failures@.len(),
        0 <= i < o.failures@.len() ==> o@.failures[i].0 == o.failures@[i].0@ && o@.failures[i].1
            == o.failures@[i].1@,
{
}

/// A text that may be missing stands for itself.
pub proof fn a_missing_text_stands_for_nothing(s: Option<String>)
    ensures
        same_text(db::opt(s), s),
{
}

} // verus!
