//! What holds of what is stored and of how it is asked for.

use crate::db;
use crate::db::{
    BindView, DeviceEntry, DropCounts, OpView, QueryFilter, QueryStatus, QueryView, StatementView,
};
use vstd::prelude::*;

verus! {

/// A text that may be missing is stored as it is, or as nothing.
pub open spec fn is_text(b: BindView, s: Option<Seq<char>>) -> bool {
    match s {
        Some(t) => b == BindView::Text(t),
        None => b == BindView::Null,
    }
}

/// A flag is stored as one or zero.
pub open spec fn is_flag(b: BindView, f: bool) -> bool {
    b == BindView::Int(
        if f {
            1i64
        } else {
            0i64
        },
    )
}

/// The word for how a query ended.
pub open spec fn word_for(s: QueryStatus) -> Seq<char> {
    match s {
        QueryStatus::Forwarded => "forwarded"@,
        QueryStatus::Cached => "cached"@,
        QueryStatus::Blocked => "blocked"@,
        QueryStatus::NxDomain => "nxdomain"@,
        QueryStatus::ServFail => "servfail"@,
        QueryStatus::Refused => "refused"@,
    }
}

/// A query is stored in one statement, each of its parts in its own column.
pub proof fn a_query_is_stored_column_by_column(q: QueryView)
    ensures
        ({
            let all = db::stored_by(OpView::Query(q));
            let b = all[0].binds;
            &&& all.len() == 1
            &&& all[0].sql == db::INSERT_QUERY@
            &&& b.len() == 8
            &&& b[0] == BindView::Int(q.ts)
            &&& b[1] == BindView::Text(q.client_ip)
            &&& b[2] == BindView::Text(q.domain)
            &&& b[3] == BindView::Text(q.qtype)
            &&& b[4] == BindView::Text(word_for(q.status))
            &&& b[5] == (match q.elapsed_ms {
                Some(ms) => BindView::Int(ms as i64),
                None => BindView::Null,
            })
            &&& is_text(b[6], q.answer)
            &&& is_text(b[7], q.blocklist)
        }),
{
}

/// So is a sample of throughput.
pub proof fn a_sample_is_stored_column_by_column(
    ts: i64,
    iface: Seq<char>,
    rx_bytes: i64,
    tx_bytes: i64,
    rx_bps: i64,
    tx_bps: i64,
)
    ensures
        ({
            let all = db::stored_by(
                (OpView::Iface { ts, iface, rx_bytes, tx_bytes, rx_bps, tx_bps }),
            );
            let b = all[0].binds;
            &&& all.len() == 1
            &&& all[0].sql == db::INSERT_IFACE@
            &&& b.len() == 6
            &&& b[0] == BindView::Int(ts)
            &&& b[1] == BindView::Text(iface)
            &&& b[2] == BindView::Int(rx_bytes)
            &&& b[3] == BindView::Int(tx_bytes)
            &&& b[4] == BindView::Int(rx_bps)
            &&& b[5] == BindView::Int(tx_bps)
        }),
{
}

/// So is a round trip.
pub proof fn a_round_trip_is_stored_column_by_column(ts: i64, target: Seq<char>, nanos: u64)
    ensures
        ({
            let all = db::stored_by((OpView::Latency { ts, target, nanos }));
            let b = all[0].binds;
            &&& all.len() == 1
            &&& all[0].sql == db::INSERT_LATENCY@
            &&& b.len() == 3
            &&& b[0] == BindView::Int(ts)
            &&& b[1] == BindView::Text(target)
            &&& b[2] == BindView::Nanos(nanos)
        }),
{
}

/// So is an alert.
pub proof fn an_alert_is_stored_column_by_column(
    ts: i64,
    kind: Seq<char>,
    severity: Seq<char>,
    subject: Seq<char>,
    detail: Seq<char>,
    notified: bool,
)
    ensures
        ({
            let all = db::stored_by(
                (OpView::Alert { ts, kind, severity, subject, detail, notified }),
            );
            let b = all[0].binds;
            &&& all.len() == 1
            &&& all[0].sql == db::INSERT_ALERT@
            &&& b.len() == 6
            &&& b[0] == BindView::Int(ts)
            &&& b[1] == BindView::Text(kind)
            &&& b[2] == BindView::Text(severity)
            &&& b[3] == BindView::Text(subject)
            &&& b[4] == BindView::Text(detail)
            &&& is_flag(b[5], notified)
        }),
{
}

/// A device is stored column by column as well, after its address was taken from whoever
/// had it, if it has one.
pub proof fn a_device_is_stored_column_by_column(
    mac: Seq<char>,
    ip: Option<Seq<char>>,
    hostname: Option<Seq<char>>,
    vendor: Option<Seq<char>>,
    randomized: bool,
    ts: i64,
)
    ensures
        ({
            let all = db::stored_by((OpView::Device { mac, ip, hostname, vendor, randomized, ts }));
            let b = all.last().binds;
            &&& all.last().sql == db::UPSERT_DEVICE@
            &&& b.len() == 6
            &&& b[0] == BindView::Text(mac)
            &&& is_text(b[1], ip)
            &&& is_text(b[2], hostname)
            &&& is_text(b[3], vendor)
            &&& is_flag(b[4], randomized)
            &&& b[5] == BindView::Int(ts)
            &&& ip is None ==> all.len() == 1
            &&& ip matches Some(a) ==> {
                &&& all.len() == 2
                &&& all[0].sql == db::RELEASE_IP@
                &&& all[0].binds.len() == 2
                &&& all[0].binds[0] == BindView::Text(a)
                &&& all[0].binds[1] == BindView::Text(mac)
            }
        }),
{
}

/// What is stored together is stored in order.
pub proof fn operations_are_stored_in_order(a: Seq<OpView>, b: Seq<OpView>, op: OpView)
    ensures
        db::flushed(seq![]).len() == 0,
        db::flushed(seq![op]) == db::stored_by(op),
        db::flushed(a + b) == db::flushed(a) + db::flushed(b),
    decreases b.len(),
{
    let one = seq![op];
    assert(one.drop_last() =~= seq![]);
    reveal_with_fuel(db::flushed, 2);
    assert(db::flushed(one) =~= db::stored_by(op));
    if b.len() == 0 {
        assert(a + b =~= a);
        assert(db::flushed(a) + db::flushed(b) =~= db::flushed(a));
    } else {
        assert((a + b).drop_last() =~= a + b.drop_last());
        operations_are_stored_in_order(a, b.drop_last(), op);
        assert(db::flushed(a + b) =~= db::flushed(a) + db::flushed(b));
    }
}

/// A sighting that is stored updates its device: what it tells replaces what was known,
/// what it does not tell stays, and the time of the first sighting never changes. A device
/// that was not known is stored as it was seen.
pub proof fn a_stored_sighting_updates_its_device(
    t: Map<Seq<char>, DeviceEntry>,
    mac: Seq<char>,
    ip: Option<Seq<char>>,
    hostname: Option<Seq<char>>,
    vendor: Option<Seq<char>>,
    randomized: bool,
    ts: i64,
)
    ensures
        ({
            let op = OpView::Device { mac, ip, hostname, vendor, randomized, ts };
            let after = db::executed_all(t, db::flushed(seq![op]));
            let d = after[mac];
            &&& after.contains_key(mac)
            &&& d.last_seen == ts
            &&& d.randomized == randomized
            &&& hostname is Some ==> d.hostname == hostname
            &&& vendor is Some ==> d.vendor == vendor
            &&& ip is Some ==> d.ip == ip
            &&& t.contains_key(mac) ==> {
                &&& d.first_seen == t[mac].first_seen
                &&& hostname is None ==> d.hostname == t[mac].hostname
                &&& vendor is None ==> d.vendor == t[mac].vendor
                &&& ip is None ==> d.ip == t[mac].ip
            }
            &&& !t.contains_key(mac) ==> {
                &&& d.first_seen == ts
                &&& d.hostname == hostname
                &&& d.vendor == vendor
                &&& d.ip == ip
            }
        }),
{
    let op = OpView::Device { mac, ip, hostname, vendor, randomized, ts };
    operations_are_stored_in_order(seq![], seq![], op);
    let all = db::stored_by(op);
    lemma_statements_differ();
    reveal_with_fuel(db::executed_all, 3);
    match ip {
        Some(a) => {
            assert(all.drop_last() =~= seq![all[0]]);
            assert(all.drop_last().drop_last() =~= seq![]);
        },
        None => {
            assert(all.drop_last() =~= seq![]);
        },
    }
}

proof fn lemma_statements_differ()
    ensures
        db::RELEASE_IP@ != db::UPSERT_DEVICE@,
{
    reveal_strlit("UPDATE devices SET ip = NULL WHERE ip = ?1 AND mac != ?2");
    reveal_strlit(
        "INSERT INTO devices (mac, ip, hostname, vendor, randomized, first_seen, last_seen) VALUES (?1, ?2, ?3, ?4, ?5, ?6, ?6) ON CONFLICT(mac) DO UPDATE SET ip = COALESCE(excluded.ip, devices.ip), hostname = COALESCE(excluded.hostname, devices.hostname), vendor = COALESCE(excluded.vendor, devices.vendor), randomized = excluded.randomized, last_seen = excluded.last_seen",
    );
    assert(db::RELEASE_IP@[0] == 'U');
    assert(db::UPSERT_DEVICE@[0] == 'I');
}

/// What could not be stored is counted by its kind, and nothing else changes.
pub proof fn what_is_lost_is_counted_by_its_kind(c: DropCounts, op: OpView)
    requires
        c.queries < u64::MAX,
        c.devices < u64::MAX,
        c.monitoring < u64::MAX,
        c.alerts < u64::MAX,
    ensures
        ({
            let d = c.with(op);
            &&& d.queries == c.queries + (if op is Query {
                1int
            } else {
                0
            })
            &&& d.devices == c.devices + (if op is Device {
                1int
            } else {
                0
            })
            &&& d.monitoring == c.monitoring + (if op is Iface || op is Latency {
                1int
            } else {
                0
            })
            &&& d.alerts == c.alerts + (if op is Alert {
                1int
            } else {
                0
            })
            &&& c.with(op).of(op) == c.of(op) + 1
        }),
{
}

/// The rows of the log that a filter asks for: each text that is looked for is bound in its
/// turn, the part of a name between wildcards, and last come how many rows, between 1 and
/// 1000, and from where.
pub proof fn a_filter_binds_what_it_looks_for(f: QueryFilter)
    ensures
        ({
            let s = db::recent(f);
            let n = s.binds.len() as int;
            let searches = if f.search is Some {
                1int
            } else {
                0
            };
            let clients = if f.client is Some {
                1int
            } else {
                0
            };
            let statuses = if f.status is Some {
                1int
            } else {
                0
            };
            &&& n == searches + clients + statuses + 2
            &&& f.search matches Some(t) ==> s.binds[0] == BindView::Text("%"@ + t@ + "%"@)
            &&& f.client matches Some(t) ==> s.binds[searches] == BindView::Text(t@)
            &&& f.status matches Some(t) ==> s.binds[searches + clients] == BindView::Text(t@)
            &&& s.binds[n - 2] == BindView::Int(
                if f.limit < 1 {
                    1i64
                } else if f.limit > 1000 {
                    1000i64
                } else {
                    f.limit as i64
                },
            )
            &&& s.binds[n - 1] == BindView::Int(f.offset as i64)
            &&& db::RECENT_QUERIES@.is_prefix_of(s.sql)
        }),
{
    reveal_strlit("");
    let s = db::recent(f);
    let all = StatementView { sql: db::RECENT_QUERIES@, binds: seq![] };
    let s1 = db::condition(all, " AND q.domain LIKE ?"@, "%"@, f.search, "%"@);
    let s2 = db::condition(s1, " AND q.client_ip = ?"@, ""@, f.client, ""@);
    let s3 = db::condition(s2, " AND q.status = ?"@, ""@, f.status, ""@);
    if let Some(t) = f.client {
        assert(""@ + t@ + ""@ =~= t@);
    }
    if let Some(t) = f.status {
        assert(""@ + t@ + ""@ =~= t@);
    }
    let k = db::RECENT_QUERIES@.len() as int;
    assert(s1.sql.take(k) =~= all.sql);
    assert(s2.sql.take(k) =~= all.sql);
    assert(s3.sql.take(k) =~= all.sql);
    assert(s.sql.take(k) =~= all.sql);
}

/// A text is looked for by the condition on its own column, and by no other.
pub proof fn a_filter_restricts_what_it_names(f: QueryFilter)
    ensures
        ({
            let a = if f.search is Some {
                " AND q.domain LIKE ?"@
            } else {
                seq![]
            };
            let b = if f.client is Some {
                " AND q.client_ip = ?"@
            } else {
                seq![]
            };
            let c = if f.status is Some {
                " AND q.status = ?"@
            } else {
                seq![]
            };
            db::recent(f).sql == db::RECENT_QUERIES@ + a + b + c
                + " ORDER BY q.ts DESC, q.id DESC LIMIT ? OFFSET ?"@
        }),
{
    let a = if f.search is Some {
        " AND q.domain LIKE ?"@
    } else {
        seq![]
    };
    let b = if f.client is Some {
        " AND q.client_ip = ?"@
    } else {
        seq![]
    };
    let c = if f.status is Some {
        " AND q.status = ?"@
    } else {
        seq![]
    };
    assert(db::recent(f).sql =~= db::RECENT_QUERIES@ + a + b + c
        + " ORDER BY q.ts DESC, q.id DESC LIMIT ? OFFSET ?"@);
}

/// A statement with numbers binds them in order.
pub proof fn a_statement_binds_its_numbers_in_order(sql: Seq<char>, n: i64, m: i64)
    ensures
        db::with_int(sql, n).sql == sql,
        db::with_int(sql, n).binds == seq![BindView::Int(n)],
        db::with_ints(sql, n, m).sql == sql,
        db::with_ints(sql, n, m).binds == seq![BindView::Int(n), BindView::Int(m)],
{
}

/// A number is kept between two limits by the nearer one.
pub proof fn a_number_is_kept_between_its_limits(n: int, low: int, high: int)
    requires
        low <= high,
    ensures
        low <= db::clamped(n, low, high) <= high,
        low <= n <= high ==> db::clamped(n, low, high) == n,
        n < low ==> db::clamped(n, low, high) == low,
        n > high ==> db::clamped(n, low, high) == high,
{
}

} // verus!
