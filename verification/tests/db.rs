use netwatch::db::{
    flush, iface_series, latest_latency, now, nxdomain_offenders, prune, query_types,
    recent_alerts, recent_queries, since_hours, since_minutes, summary, timeseries, timestamp, top_clients,
    top_domains, Batch, Bind, DropCounts, IfaceSample, QueryEvent, QueryFilter, QueryStatus, Statement,
    WriteOp, SCHEMA,
};
use rusqlite::types::Value;
use rusqlite::{params_from_iter, Connection};

fn open() -> Connection {
    let conn = Connection::open_in_memory().unwrap();
    conn.execute_batch(SCHEMA).unwrap();
    conn
}

fn values(s: &Statement) -> Vec<Value> {
    s.binds
        .iter()
        .map(|b| match b {
            Bind::Null => Value::Null,
            Bind::Int(n) => Value::Integer(*n),
            Bind::Text(t) => Value::Text(t.clone()),
            Bind::Nanos(n) => Value::Real(*n as f64 / 1_000_000.0),
        })
        .collect()
}

fn store(conn: &Connection, ops: &[WriteOp]) {
    for s in flush(ops) {
        conn.execute(&s.sql, params_from_iter(values(&s))).unwrap();
    }
}

fn rows(conn: &Connection, s: &Statement, width: usize) -> Vec<Vec<Value>> {
    let mut q = conn.prepare(&s.sql).unwrap();
    let out: Vec<Vec<Value>> = q
        .query_map(params_from_iter(values(s)), |r| {
            (0..width).map(|i| r.get::<usize, Value>(i)).collect::<Result<Vec<_>, _>>()
        })
        .unwrap()
        .map(|r| r.unwrap())
        .collect();
    out
}

fn device(mac: &str, ip: &str, host: &str) -> WriteOp {
    WriteOp::Device {
        mac: mac.to_string(),
        ip: Some(ip.to_string()),
        hostname: Some(host.to_string()),
        vendor: Some("Test".to_string()),
        randomized: false,
        ts: 1_000_000,
    }
}

fn event(ip: &str, domain: &str, status: QueryStatus, elapsed_ms: Option<u32>) -> WriteOp {
    WriteOp::Query(QueryEvent {
        ts: now(),
        client_ip: ip.to_string(),
        domain: domain.to_string(),
        qtype: "A".to_string(),
        status,
        elapsed_ms,
        answer: None,
        blocklist: None,
    })
}

fn query(ip: &str, domain: &str) -> WriteOp {
    event(ip, domain, QueryStatus::Forwarded, Some(5))
}

#[test]
fn an_ip_is_only_ever_held_by_one_device() {
    let conn = open();

    // A phone rotates its MAC and reappears on the same address.
    store(&conn, &[device("aa:bb:cc:00:00:01", "192.168.1.50", "phone-old")]);
    store(&conn, &[device("a2:bb:cc:00:00:02", "192.168.1.50", "phone-new")]);

    let holders: i64 = conn
        .query_row("SELECT COUNT(*) FROM devices WHERE ip = '192.168.1.50'", [], |r| r.get(0))
        .unwrap();
    assert_eq!(holders, 1, "only the current device may hold the IP");

    // The old row survives with its history, just without the address.
    let total: i64 = conn.query_row("SELECT COUNT(*) FROM devices", [], |r| r.get(0)).unwrap();
    assert_eq!(total, 2, "the previous device is retained, not deleted");
}

#[test]
fn query_rows_are_not_duplicated_by_the_device_join() {
    let conn = open();
    store(&conn, &[device("aa:bb:cc:00:00:01", "192.168.1.50", "phone-old")]);
    store(&conn, &[device("a2:bb:cc:00:00:02", "192.168.1.50", "phone-new")]);
    store(&conn, &[query("192.168.1.50", "example.com")]);

    let filter = QueryFilter { limit: 100, ..Default::default() };
    let found = rows(&conn, &recent_queries(&filter), 9);
    assert_eq!(found.len(), 1, "one query must yield exactly one log row");
    assert_eq!(found[0][2], Value::Text("phone-new".to_string()));

    let since = since_hours(now(), 24).unwrap();
    let clients = rows(&conn, &top_clients(since, 10), 3);
    assert_eq!(clients.len(), 1);
    assert_eq!(clients[0][2], Value::Integer(1), "counts must not be inflated by the join");
}

#[test]
fn later_sightings_do_not_erase_a_known_hostname() {
    let conn = open();
    store(&conn, &[device("aa:bb:cc:00:00:01", "192.168.1.60", "kitchen-pi")]);

    // A bare ARP sighting carries no name or vendor.
    store(
        &conn,
        &[WriteOp::Device {
            mac: "aa:bb:cc:00:00:01".to_string(),
            ip: Some("192.168.1.60".to_string()),
            hostname: None,
            vendor: None,
            randomized: false,
            ts: 2_000_000,
        }],
    );

    let (host, seen): (Option<String>, i64) = conn
        .query_row(
            "SELECT hostname, last_seen FROM devices WHERE mac = 'aa:bb:cc:00:00:01'",
            [],
            |r| Ok((r.get(0)?, r.get(1)?)),
        )
        .unwrap();
    assert_eq!(host.as_deref(), Some("kitchen-pi"));
    assert_eq!(seen, 2_000_000, "last_seen still advances");
}

#[test]
fn summary_counts_blocked_and_cached_separately() {
    let conn = open();
    let mut ops = vec![query("192.168.1.10", "example.com")];
    for status in [QueryStatus::Blocked, QueryStatus::Blocked, QueryStatus::Cached] {
        ops.push(event("192.168.1.11", "ads.example.com", status, None));
    }
    store(&conn, &ops);

    let s = summary(now());
    let day = rows(&conn, &s[0], 6);
    assert_eq!(day[0][0], Value::Integer(4));
    assert_eq!(day[0][1], Value::Integer(2));
    assert_eq!(day[0][2], Value::Integer(1));
    assert_eq!(day[0][3], Value::Integer(2));
    assert_eq!(rows(&conn, &s[1], 1)[0][0], Value::Integer(4));
}

#[test]
fn every_statement_runs() {
    let conn = open();
    let t = now();
    store(
        &conn,
        &[
            query("192.168.1.10", "example.com"),
            event("192.168.1.10", "nope.example.com", QueryStatus::NxDomain, None),
            WriteOp::Iface(IfaceSample {
                ts: t,
                iface: "eth0".to_string(),
                rx_bytes: 1,
                tx_bytes: 2,
                rx_bps: 3,
                tx_bps: 4,
            }),
            WriteOp::Latency { ts: t, target: "gateway".to_string(), nanos: 1_500_000 },
            WriteOp::Alert {
                ts: t,
                kind: "new_device".to_string(),
                severity: "info".to_string(),
                subject: "aa".to_string(),
                detail: "d".to_string(),
                notified: true,
            },
        ],
    );
    let since = since_minutes(t, 60).unwrap();
    assert_eq!(rows(&conn, &top_domains(since, 10, false), 3).len(), 2);
    assert_eq!(rows(&conn, &top_domains(since, 10, true), 3).len(), 0);
    assert_eq!(rows(&conn, &query_types(since), 3).len(), 1);
    assert_eq!(rows(&conn, &timeseries(since, 3600), 3).len(), 1);
    assert_eq!(rows(&conn, &netwatch::db::devices(t), 9).len(), 0);
    assert_eq!(rows(&conn, &iface_series(since), 4)[0][2], Value::Integer(3));
    assert_eq!(rows(&conn, &latest_latency(), 3)[0][1], Value::Real(1.5));
    let storms = rows(&conn, &nxdomain_offenders(since, 1), 2);
    assert_eq!(storms[0][1], Value::Integer(1));
    for s in prune(t + 20 * 86_400, 14) {
        assert_eq!(conn.execute(&s.sql, params_from_iter(values(&s))).unwrap(), match s.sql.as_str() {
            "DELETE FROM queries WHERE ts < ?1" => 2,
            "DELETE FROM alerts WHERE ts < ?1" => 0,
            _ => 1,
        });
    }
}

#[test]
fn alerts_are_listed_and_outlive_queries() {
    let conn = open();
    let alert = |ts: i64, subject: &str| WriteOp::Alert {
        ts,
        kind: "new_device".to_string(),
        severity: "info".to_string(),
        subject: subject.to_string(),
        detail: "d".to_string(),
        notified: false,
    };
    store(&conn, &[alert(1_000_000, "old"), alert(2_000_000, "new")]);
    let listed = rows(&conn, &recent_alerts(10), 6);
    assert_eq!(listed.len(), 2);
    assert_eq!(listed[0][3], Value::Text("new".to_string()));
    assert_eq!(rows(&conn, &recent_alerts(0), 6).len(), 1);
    let dropped = |now: i64| -> usize {
        let s = &prune(now, 14)[3];
        conn.execute(&s.sql, params_from_iter(values(s))).unwrap()
    };
    assert_eq!(dropped(1_000_000 + 90 * 86_400), 0);
    assert_eq!(dropped(1_000_001 + 90 * 86_400), 1);
    assert_eq!(rows(&conn, &recent_alerts(10), 6).len(), 1);
}

#[test]
fn filters_bind_what_users_type() {
    let conn = open();
    store(
        &conn,
        &[query("192.168.1.10", "ads.example.com"), query("192.168.1.11", "example.org")],
    );
    let f = QueryFilter {
        limit: 10,
        offset: 0,
        search: Some("ads".to_string()),
        client: None,
        status: None,
    };
    assert_eq!(rows(&conn, &recent_queries(&f), 9).len(), 1);
    let f = QueryFilter {
        limit: 10,
        offset: 0,
        search: Some("' OR 1=1 --".to_string()),
        client: Some("192.168.1.11".to_string()),
        status: Some("forwarded".to_string()),
    };
    let s = recent_queries(&f);
    assert!(!s.sql.contains("OR 1=1"));
    assert_eq!(rows(&conn, &s, 9).len(), 0);
}

#[test]
fn lost_events_are_counted_by_kind() {
    let mut d = DropCounts::default();
    assert!(d.note(&query("a", "b")));
    assert!(!d.note(&query("a", "b")));
    assert!(d.note(&device("m", "i", "h")));
    assert_eq!((d.queries, d.devices, d.monitoring, d.alerts), (2, 1, 0, 0));
}

#[test]
fn a_burst_becomes_one_batch() {
    let mut b = Batch::new(0);
    b.begin(query("a", "1"), 1000, 750);
    assert_eq!(b.wait(1000), Some(750));
    assert_eq!(b.wait(1700), Some(50));
    b.push(query("a", "2"));
    assert_eq!(b.wait(1750), None);
    assert_eq!(b.take().len(), 2);
    assert!(!b.prune_due(3_600_000));
    assert!(b.prune_due(3_600_001));
    assert!(!b.prune_due(3_600_002));
}

#[test]
fn statuses_have_their_words() {
    let words: Vec<&str> = [
        QueryStatus::Forwarded,
        QueryStatus::Cached,
        QueryStatus::Blocked,
        QueryStatus::NxDomain,
        QueryStatus::ServFail,
        QueryStatus::Refused,
    ]
    .iter()
    .map(|s| s.as_str())
    .collect();
    assert_eq!(words, ["forwarded", "cached", "blocked", "nxdomain", "servfail", "refused"]);
}

#[test]
fn the_clock_is_past_the_epoch() {
    assert!(now() > 1_600_000_000);
    assert_eq!(since_hours(100_000, 1), Some(96_400));
    assert_eq!(since_minutes(100_000, 2), Some(99_880));
    assert_eq!(since_hours(0, i64::MAX), None);
}

#[test]
fn a_reading_of_the_clock_becomes_a_time() {
    assert_eq!(timestamp(Some(1_700_000_000)), 1_700_000_000);
    assert_eq!(timestamp(Some(0)), 0);
    assert_eq!(timestamp(None), 0);
    assert_eq!(timestamp(Some(u64::MAX)), i64::MAX);
}
