//! What is stored, and the statements that store and read it.
//!
//! Statements are text with placeholders and the values for these; what users type
//! never becomes part of a statement's text.

use vstd::prelude::*;

verus! {

/// What happened to a DNS query.
#[derive(Clone, Copy, Debug, PartialEq, Eq, Structural)]
pub enum QueryStatus {
    Forwarded,
    Cached,
    Blocked,
    NxDomain,
    ServFail,
    Refused,
}

impl QueryStatus {
    /// The word that is stored.
    pub open spec fn text(self) -> Seq<char> {
        match self {
            QueryStatus::Forwarded => "forwarded"@,
            QueryStatus::Cached => "cached"@,
            QueryStatus::Blocked => "blocked"@,
            QueryStatus::NxDomain => "nxdomain"@,
            QueryStatus::ServFail => "servfail"@,
            QueryStatus::Refused => "refused"@,
        }
    }

    /// The word that is stored.
    pub fn as_str(self) -> (r: &'static str)
        ensures
            r@ == self.text(),
    {
        match self {
            QueryStatus::Forwarded => "forwarded",
            QueryStatus::Cached => "cached",
            QueryStatus::Blocked => "blocked",
            QueryStatus::NxDomain => "nxdomain",
            QueryStatus::ServFail => "servfail",
            QueryStatus::Refused => "refused",
        }
    }
}

/// The model of a text that may be missing.
pub open spec fn opt(s: Option<String>) -> Option<Seq<char>> {
    match s {
        Some(t) => Some(t@),
        None => None,
    }
}

/// One DNS query, as it is logged.
#[derive(Debug)]
pub struct QueryEvent {
    pub ts: i64,
    pub client_ip: String,
    pub domain: String,
    pub qtype: String,
    pub status: QueryStatus,
    /// Milliseconds spent talking to an upstream, if any.
    pub elapsed_ms: Option<u32>,
    /// The answer in short.
    pub answer: Option<String>,
    pub blocklist: Option<String>,
}

/// The model of a logged query.
#[verifier::ext_equal]
pub struct QueryView {
    pub ts: i64,
    pub client_ip: Seq<char>,
    pub domain: Seq<char>,
    pub qtype: Seq<char>,
    pub status: QueryStatus,
    pub elapsed_ms: Option<u32>,
    pub answer: Option<Seq<char>>,
    pub blocklist: Option<Seq<char>>,
}

impl View for QueryEvent {
    type V = QueryView;

    open spec fn view(&self) -> QueryView {
        QueryView {
            ts: self.ts,
            client_ip: self.client_ip@,
            domain: self.domain@,
            qtype: self.qtype@,
            status: self.status,
            elapsed_ms: self.elapsed_ms,
            answer: opt(self.answer),
            blocklist: opt(self.blocklist),
        }
    }
}

/// The throughput of an interface over one interval.
#[derive(Debug)]
pub struct IfaceSample {
    pub ts: i64,
    pub iface: String,
    pub rx_bytes: i64,
    pub tx_bytes: i64,
    pub rx_bps: i64,
    pub tx_bps: i64,
}

/// Something to store.
#[derive(Debug)]
pub enum WriteOp {
    Query(QueryEvent),
    Iface(IfaceSample),
    /// The time that a round trip took.
    Latency { ts: i64, target: String, nanos: u64 },
    /// A device was seen. What is missing leaves what is stored as it is.
    Device {
        mac: String,
        ip: Option<String>,
        hostname: Option<String>,
        vendor: Option<String>,
        randomized: bool,
        ts: i64,
    },
    /// An alert was raised.
    Alert {
        ts: i64,
        kind: String,
        severity: String,
        subject: String,
        detail: String,
        notified: bool,
    },
}

/// The model of something to store.
#[allow(inconsistent_fields)]
#[verifier::ext_equal]
pub enum OpView {
    Query(QueryView),
    Iface {
        ts: i64,
        iface: Seq<char>,
        rx_bytes: i64,
        tx_bytes: i64,
        rx_bps: i64,
        tx_bps: i64,
    },
    Latency { ts: i64, target: Seq<char>, nanos: u64 },
    Device {
        mac: Seq<char>,
        ip: Option<Seq<char>>,
        hostname: Option<Seq<char>>,
        vendor: Option<Seq<char>>,
        randomized: bool,
        ts: i64,
    },
    Alert {
        ts: i64,
        kind: Seq<char>,
        severity: Seq<char>,
        subject: Seq<char>,
        detail: Seq<char>,
        notified: bool,
    },
}

impl View for WriteOp {
    type V = OpView;

    open spec fn view(&self) -> OpView {
        match self {
            WriteOp::Query(e) => OpView::Query(e@),
            WriteOp::Iface(s) => OpView::Iface {
                ts: s.ts,
                iface: s.iface@,
                rx_bytes: s.rx_bytes,
                tx_bytes: s.tx_bytes,
                rx_bps: s.rx_bps,
                tx_bps: s.tx_bps,
            },
            WriteOp::Latency { ts, target, nanos } => OpView::Latency {
                ts: *ts,
                target: target@,
                nanos: *nanos,
            },
            WriteOp::Device { mac, ip, hostname, vendor, randomized, ts } => OpView::Device {
                mac: mac@,
                ip: opt(*ip),
                hostname: opt(*hostname),
                vendor: opt(*vendor),
                randomized: *randomized,
                ts: *ts,
            },
            WriteOp::Alert { ts, kind, severity, subject, detail, notified } => OpView::Alert {
                ts: *ts,
                kind: kind@,
                severity: severity@,
                subject: subject@,
                detail: detail@,
                notified: *notified,
            },
        }
    }
}

/// The models of some operations.
pub open spec fn ops_view(ops: Seq<WriteOp>) -> Seq<OpView> {
    ops.map_values(|o: WriteOp| o@)
}

/// A value for a placeholder.
#[derive(Debug)]
pub enum Bind {
    Null,
    Int(i64),
    Text(String),
    /// A time in nanoseconds, stored as a real number of milliseconds.
    Nanos(u64),
}

/// The model of a value for a placeholder.
#[verifier::ext_equal]
pub enum BindView {
    Null,
    Int(i64),
    Text(Seq<char>),
    Nanos(u64),
}

impl View for Bind {
    type V = BindView;

    open spec fn view(&self) -> BindView {
        match self {
            Bind::Null => BindView::Null,
            Bind::Int(n) => BindView::Int(*n),
            Bind::Text(s) => BindView::Text(s@),
            Bind::Nanos(n) => BindView::Nanos(*n),
        }
    }
}

/// The models of some values.
pub open spec fn binds_view(v: Seq<Bind>) -> Seq<BindView> {
    v.map_values(|b: Bind| b@)
}

/// A statement and the values for its placeholders.
#[derive(Debug)]
pub struct Statement {
    pub sql: String,
    pub binds: Vec<Bind>,
}

/// The model of a statement.
#[verifier::ext_equal]
pub struct StatementView {
    pub sql: Seq<char>,
    pub binds: Seq<BindView>,
}

impl View for Statement {
    type V = StatementView;

    open spec fn view(&self) -> StatementView {
        StatementView { sql: self.sql@, binds: binds_view(self.binds@) }
    }
}

/// The models of some statements.
pub open spec fn statements_view(v: Seq<Statement>) -> Seq<StatementView> {
    v.map_values(|s: Statement| s@)
}

/// The tables. Space that pruning frees can be given back only if that is settled
/// before the first table is made.
pub const SCHEMA: &'static str = "
PRAGMA auto_vacuum = INCREMENTAL;
PRAGMA journal_mode = WAL;
PRAGMA synchronous = NORMAL;

CREATE TABLE IF NOT EXISTS queries (
    id        INTEGER PRIMARY KEY AUTOINCREMENT,
    ts        INTEGER NOT NULL,
    client_ip TEXT    NOT NULL,
    domain    TEXT    NOT NULL,
    qtype     TEXT    NOT NULL,
    status    TEXT    NOT NULL,
    elapsed_ms INTEGER,
    answer    TEXT,
    blocklist TEXT
);
CREATE INDEX IF NOT EXISTS idx_queries_ts     ON queries(ts DESC);
CREATE INDEX IF NOT EXISTS idx_queries_domain ON queries(domain, ts DESC);
CREATE INDEX IF NOT EXISTS idx_queries_client ON queries(client_ip, ts DESC);
CREATE INDEX IF NOT EXISTS idx_queries_status ON queries(status, ts DESC);

CREATE TABLE IF NOT EXISTS devices (
    mac        TEXT PRIMARY KEY,
    ip         TEXT,
    hostname   TEXT,
    vendor     TEXT,
    randomized INTEGER NOT NULL DEFAULT 0,
    first_seen INTEGER NOT NULL,
    last_seen  INTEGER NOT NULL
);
CREATE INDEX IF NOT EXISTS idx_devices_ip ON devices(ip);

CREATE TABLE IF NOT EXISTS iface_samples (
    ts       INTEGER NOT NULL,
    iface    TEXT    NOT NULL,
    rx_bytes INTEGER NOT NULL,
    tx_bytes INTEGER NOT NULL,
    rx_bps   INTEGER NOT NULL,
    tx_bps   INTEGER NOT NULL
);
CREATE INDEX IF NOT EXISTS idx_iface_ts ON iface_samples(ts DESC);

CREATE TABLE IF NOT EXISTS latency (
    ts     INTEGER NOT NULL,
    target TEXT    NOT NULL,
    ms     REAL    NOT NULL
);
CREATE INDEX IF NOT EXISTS idx_latency_ts ON latency(ts DESC);

CREATE TABLE IF NOT EXISTS alerts (
    ts       INTEGER NOT NULL,
    kind     TEXT    NOT NULL,
    severity TEXT    NOT NULL,
    subject  TEXT    NOT NULL,
    detail   TEXT    NOT NULL,
    notified INTEGER NOT NULL
);
CREATE INDEX IF NOT EXISTS idx_alerts_ts ON alerts(ts DESC);
";

/// Logs a query.
pub const INSERT_QUERY: &'static str = "INSERT INTO queries (ts, client_ip, domain, qtype, status, elapsed_ms, answer, blocklist) VALUES (?1, ?2, ?3, ?4, ?5, ?6, ?7, ?8)";

/// Stores a sample of throughput.
pub const INSERT_IFACE: &'static str = "INSERT INTO iface_samples (ts, iface, rx_bytes, tx_bytes, rx_bps, tx_bps) VALUES (?1, ?2, ?3, ?4, ?5, ?6)";

/// Stores a round trip.
pub const INSERT_LATENCY: &'static str = "INSERT INTO latency (ts, target, ms) VALUES (?1, ?2, ?3)";

/// Stores an alert.
pub const INSERT_ALERT: &'static str = "INSERT INTO alerts (ts, kind, severity, subject, detail, notified) VALUES (?1, ?2, ?3, ?4, ?5, ?6)";

/// Takes an address from every device but one: an address belongs to one device at
/// a time, or every join of the log with the devices would duplicate its rows.
pub const RELEASE_IP: &'static str = "UPDATE devices SET ip = NULL WHERE ip = ?1 AND mac != ?2";

/// Stores a device. What is known of it and missing in the sighting stays.
pub const UPSERT_DEVICE: &'static str = "INSERT INTO devices (mac, ip, hostname, vendor, randomized, first_seen, last_seen) VALUES (?1, ?2, ?3, ?4, ?5, ?6, ?6) ON CONFLICT(mac) DO UPDATE SET ip = COALESCE(excluded.ip, devices.ip), hostname = COALESCE(excluded.hostname, devices.hostname), vendor = COALESCE(excluded.vendor, devices.vendor), randomized = excluded.randomized, last_seen = excluded.last_seen";

/// A text that may be missing, as a value.
pub open spec fn text_or_null(s: Option<Seq<char>>) -> BindView {
    match s {
        Some(t) => BindView::Text(t),
        None => BindView::Null,
    }
}

/// A flag as a value.
pub open spec fn flag(b: bool) -> BindView {
    BindView::Int(
        if b {
            1
        } else {
            0
        },
    )
}

/// The statement that stores a device.
pub open spec fn upsert(
    mac: Seq<char>,
    ip: Option<Seq<char>>,
    hostname: Option<Seq<char>>,
    vendor: Option<Seq<char>>,
    randomized: bool,
    ts: i64,
) -> StatementView {
    StatementView {
        sql: UPSERT_DEVICE@,
        binds: seq![
            BindView::Text(mac),
            text_or_null(ip),
            text_or_null(hostname),
            text_or_null(vendor),
            flag(randomized),
            BindView::Int(ts),
        ],
    }
}

/// The statement that takes an address from every device but one.
pub open spec fn release(ip: Seq<char>, mac: Seq<char>) -> StatementView {
    StatementView { sql: RELEASE_IP@, binds: seq![BindView::Text(ip), BindView::Text(mac)] }
}

/// The statements that store something. A device takes its address from whichever
/// device had it before.
pub open spec fn stored_by(op: OpView) -> Seq<StatementView> {
    match op {
        OpView::Query(e) => seq![
            StatementView {
                sql: INSERT_QUERY@,
                binds: seq![
                    BindView::Int(e.ts),
                    BindView::Text(e.client_ip),
                    BindView::Text(e.domain),
                    BindView::Text(e.qtype),
                    BindView::Text(e.status.text()),
                    match e.elapsed_ms {
                        Some(ms) => BindView::Int(ms as i64),
                        None => BindView::Null,
                    },
                    text_or_null(e.answer),
                    text_or_null(e.blocklist),
                ],
            },
        ],
        OpView::Iface { ts, iface, rx_bytes, tx_bytes, rx_bps, tx_bps } => seq![
            StatementView {
                sql: INSERT_IFACE@,
                binds: seq![
                    BindView::Int(ts),
                    BindView::Text(iface),
                    BindView::Int(rx_bytes),
                    BindView::Int(tx_bytes),
                    BindView::Int(rx_bps),
                    BindView::Int(tx_bps),
                ],
            },
        ],
        OpView::Latency { ts, target, nanos } => seq![
            StatementView {
                sql: INSERT_LATENCY@,
                binds: seq![BindView::Int(ts), BindView::Text(target), BindView::Nanos(nanos)],
            },
        ],
        OpView::Device { mac, ip, hostname, vendor, randomized, ts } => {
            let store = upsert(mac, ip, hostname, vendor, randomized, ts);
            match ip {
                Some(a) => seq![release(a, mac), store],
                None => seq![store],
            }
        },
        OpView::Alert { ts, kind, severity, subject, detail, notified } => seq![
            StatementView {
                sql: INSERT_ALERT@,
                binds: seq![
                    BindView::Int(ts),
                    BindView::Text(kind),
                    BindView::Text(severity),
                    BindView::Text(subject),
                    BindView::Text(detail),
                    flag(notified),
                ],
            },
        ],
    }
}

/// The statements that store some operations, in order.
pub open spec fn flushed(ops: Seq<OpView>) -> Seq<StatementView>
    decreases ops.len(),
{
    if ops.len() == 0 {
        seq![]
    } else {
        flushed(ops.drop_last()) + stored_by(ops.last())
    }
}

fn text_bind(s: &Option<String>) -> (r: Bind)
    ensures
        r@ == text_or_null(opt(*s)),
{
    match s {
        Some(t) => Bind::Text(t.clone()),
        None => Bind::Null,
    }
}

fn flag_bind(b: bool) -> (r: Bind)
    ensures
        r@ == flag(b),
{
    if b {
        Bind::Int(1)
    } else {
        Bind::Int(0)
    }
}

fn insert_query(e: &QueryEvent) -> (r: Statement)
    ensures
        r@ == stored_by(OpView::Query(e@))[0],
{
    let mut binds: Vec<Bind> = Vec::new();
    binds.push(Bind::Int(e.ts));
    binds.push(Bind::Text(e.client_ip.clone()));
    binds.push(Bind::Text(e.domain.clone()));
    binds.push(Bind::Text(e.qtype.clone()));
    binds.push(Bind::Text(e.status.as_str().to_string()));
    binds.push(
        match e.elapsed_ms {
            Some(ms) => Bind::Int(ms as i64),
            None => Bind::Null,
        },
    );
    binds.push(text_bind(&e.answer));
    binds.push(text_bind(&e.blocklist));
    let r = Statement { sql: INSERT_QUERY.to_string(), binds };
    assert(r@.binds =~= stored_by(OpView::Query(e@))[0].binds);
    r
}

fn insert_iface(s: &IfaceSample) -> (r: Statement)
    ensures
        r@ == stored_by(WriteOp::Iface(*s)@)[0],
{
    let mut binds: Vec<Bind> = Vec::new();
    binds.push(Bind::Int(s.ts));
    binds.push(Bind::Text(s.iface.clone()));
    binds.push(Bind::Int(s.rx_bytes));
    binds.push(Bind::Int(s.tx_bytes));
    binds.push(Bind::Int(s.rx_bps));
    binds.push(Bind::Int(s.tx_bps));
    let r = Statement { sql: INSERT_IFACE.to_string(), binds };
    assert(r@.binds =~= stored_by(WriteOp::Iface(*s)@)[0].binds);
    r
}

fn insert_latency(ts: i64, target: &String, nanos: u64) -> (r: Statement)
    ensures
        r@ == stored_by(OpView::Latency { ts, target: target@, nanos })[0],
{
    let mut binds: Vec<Bind> = Vec::new();
    binds.push(Bind::Int(ts));
    binds.push(Bind::Text(target.clone()));
    binds.push(Bind::Nanos(nanos));
    let r = Statement { sql: INSERT_LATENCY.to_string(), binds };
    assert(r@.binds =~= seq![
        BindView::Int(ts),
        BindView::Text(target@),
        BindView::Nanos(nanos),
    ]);
    r
}

fn release_ip(ip: &String, mac: &String) -> (r: Statement)
    ensures
        r@ == release(ip@, mac@),
{
    let mut binds: Vec<Bind> = Vec::new();
    binds.push(Bind::Text(ip.clone()));
    binds.push(Bind::Text(mac.clone()));
    let r = Statement { sql: RELEASE_IP.to_string(), binds };
    assert(r@.binds =~= release(ip@, mac@).binds);
    r
}

fn upsert_device(
    mac: &String,
    ip: &Option<String>,
    hostname: &Option<String>,
    vendor: &Option<String>,
    randomized: bool,
    ts: i64,
) -> (r: Statement)
    ensures
        r@ == upsert(mac@, opt(*ip), opt(*hostname), opt(*vendor), randomized, ts),
{
    let mut binds: Vec<Bind> = Vec::new();
    binds.push(Bind::Text(mac.clone()));
    binds.push(text_bind(ip));
    binds.push(text_bind(hostname));
    binds.push(text_bind(vendor));
    binds.push(flag_bind(randomized));
    binds.push(Bind::Int(ts));
    let r = Statement { sql: UPSERT_DEVICE.to_string(), binds };
    assert(r@.binds =~= upsert(
        mac@,
        opt(*ip),
        opt(*hostname),
        opt(*vendor),
        randomized,
        ts,
    ).binds);
    r
}

fn insert_alert(
    ts: i64,
    kind: &String,
    severity: &String,
    subject: &String,
    detail: &String,
    notified: bool,
) -> (r: Statement)
    ensures
        r@ == stored_by(
            OpView::Alert {
                ts,
                kind: kind@,
                severity: severity@,
                subject: subject@,
                detail: detail@,
                notified,
            },
        )[0],
{
    let mut binds: Vec<Bind> = Vec::new();
    binds.push(Bind::Int(ts));
    binds.push(Bind::Text(kind.clone()));
    binds.push(Bind::Text(severity.clone()));
    binds.push(Bind::Text(subject.clone()));
    binds.push(Bind::Text(detail.clone()));
    binds.push(flag_bind(notified));
    let r = Statement { sql: INSERT_ALERT.to_string(), binds };
    assert(r@.binds =~= seq![
        BindView::Int(ts),
        BindView::Text(kind@),
        BindView::Text(severity@),
        BindView::Text(subject@),
        BindView::Text(detail@),
        flag(notified),
    ]);
    r
}

/// The statements of the one transaction that stores a batch.
pub fn flush(ops: &[WriteOp]) -> (r: Vec<Statement>)
    ensures
        statements_view(r@) == flushed(ops_view(ops@)),
{
    let ghost v = ops_view(ops@);
    let mut out: Vec<Statement> = Vec::new();
    let mut i: usize = 0;
    assert(v.take(0) =~= seq![]);
    assert(statements_view(out@) =~= seq![]);
    while i < ops.len()
        invariant
            i <= ops@.len(),
            v == ops_view(ops@),
            statements_view(out@) == flushed(v.take(i as int)),
        decreases ops@.len() - i,
    {
        let ghost before = out@;
        match &ops[i] {
            WriteOp::Query(e) => out.push(insert_query(e)),
            WriteOp::Iface(s) => out.push(insert_iface(s)),
            WriteOp::Latency { ts, target, nanos } => out.push(
                insert_latency(*ts, target, *nanos),
            ),
            WriteOp::Device { mac, ip, hostname, vendor, randomized, ts } => {
                if let Some(a) = ip {
                    out.push(release_ip(a, mac));
                }
                out.push(upsert_device(mac, ip, hostname, vendor, *randomized, *ts));
            },
            WriteOp::Alert { ts, kind, severity, subject, detail, notified } => out.push(
                insert_alert(*ts, kind, severity, subject, detail, *notified),
            ),
        }
        proof {
            assert(v.take(i + 1).drop_last() =~= v.take(i as int));
            assert(v.take(i + 1).last() == ops@[i as int]@);
            assert(statements_view(out@) =~= statements_view(before) + stored_by(
                ops@[i as int]@,
            ));
        }
        i += 1;
    }
    assert(v.take(i as int) =~= v);
    out
}

/// The model of a row of the table of devices.
#[verifier::ext_equal]
pub struct DeviceEntry {
    pub ip: Option<Seq<char>>,
    pub hostname: Option<Seq<char>>,
    pub vendor: Option<Seq<char>>,
    pub randomized: bool,
    pub first_seen: i64,
    pub last_seen: i64,
}

/// The first of two values that is there.
pub open spec fn coalesce(a: Option<Seq<char>>, b: Option<Seq<char>>) -> Option<Seq<char>> {
    if a is Some {
        a
    } else {
        b
    }
}

/// A value as a text that may be missing.
pub open spec fn bound_text(b: BindView) -> Option<Seq<char>> {
    match b {
        BindView::Text(t) => Some(t),
        _ => None,
    }
}

/// A value as a number.
pub open spec fn bound_int(b: BindView) -> i64 {
    match b {
        BindView::Int(n) => n,
        _ => 0,
    }
}

/// What a statement does to the table of devices, whose rows are found by the
/// hardware address.
pub open spec fn executed(
    t: Map<Seq<char>, DeviceEntry>,
    s: StatementView,
) -> Map<Seq<char>, DeviceEntry> {
    if s.sql == RELEASE_IP@ {
        t.map_entries(
            |mac: Seq<char>, d: DeviceEntry|
                if d.ip is Some && d.ip == bound_text(s.binds[0]) && Some(mac) != bound_text(
                    s.binds[1],
                ) {
                    DeviceEntry { ip: None, ..d }
                } else {
                    d
                },
        )
    } else if s.sql == UPSERT_DEVICE@ {
        let mac = bound_text(s.binds[0])->0;
        let ip = bound_text(s.binds[1]);
        let hostname = bound_text(s.binds[2]);
        let vendor = bound_text(s.binds[3]);
        let randomized = bound_int(s.binds[4]) != 0;
        let ts = bound_int(s.binds[5]);
        if t.contains_key(mac) {
            let d = t[mac];
            t.insert(
                mac,
                DeviceEntry {
                    ip: coalesce(ip, d.ip),
                    hostname: coalesce(hostname, d.hostname),
                    vendor: coalesce(vendor, d.vendor),
                    randomized,
                    first_seen: d.first_seen,
                    last_seen: ts,
                },
            )
        } else {
            t.insert(
                mac,
                DeviceEntry { ip, hostname, vendor, randomized, first_seen: ts, last_seen: ts },
            )
        }
    } else {
        t
    }
}

/// What statements do to the table of devices, the first one first.
pub open spec fn executed_all(
    t: Map<Seq<char>, DeviceEntry>,
    s: Seq<StatementView>,
) -> Map<Seq<char>, DeviceEntry>
    decreases s.len(),
{
    if s.len() == 0 {
        t
    } else {
        executed(executed_all(t, s.drop_last()), s.last())
    }
}

/// No two devices have the same address.
pub open spec fn one_holder_per_ip(t: Map<Seq<char>, DeviceEntry>) -> bool {
    forall|a: Seq<char>, b: Seq<char>|
        t.contains_key(a) && t.contains_key(b) && a != b && (#[trigger] t[a]).ip is Some ==> t[a].ip
            != (#[trigger] t[b]).ip
}

/// The statements differ in their text.
proof fn lemma_statements_differ()
    ensures
        RELEASE_IP@ != UPSERT_DEVICE@,
        INSERT_QUERY@ != RELEASE_IP@,
        INSERT_QUERY@ != UPSERT_DEVICE@,
        INSERT_IFACE@ != RELEASE_IP@,
        INSERT_IFACE@ != UPSERT_DEVICE@,
        INSERT_LATENCY@ != RELEASE_IP@,
        INSERT_LATENCY@ != UPSERT_DEVICE@,
        INSERT_ALERT@ != RELEASE_IP@,
        INSERT_ALERT@ != UPSERT_DEVICE@,
{
    reveal_strlit(
        "INSERT INTO queries (ts, client_ip, domain, qtype, status, elapsed_ms, answer, blocklist) VALUES (?1, ?2, ?3, ?4, ?5, ?6, ?7, ?8)",
    );
    reveal_strlit(
        "INSERT INTO iface_samples (ts, iface, rx_bytes, tx_bytes, rx_bps, tx_bps) VALUES (?1, ?2, ?3, ?4, ?5, ?6)",
    );
    reveal_strlit("INSERT INTO latency (ts, target, ms) VALUES (?1, ?2, ?3)");
    reveal_strlit(
        "INSERT INTO alerts (ts, kind, severity, subject, detail, notified) VALUES (?1, ?2, ?3, ?4, ?5, ?6)",
    );
    reveal_strlit("UPDATE devices SET ip = NULL WHERE ip = ?1 AND mac != ?2");
    reveal_strlit(
        "INSERT INTO devices (mac, ip, hostname, vendor, randomized, first_seen, last_seen) VALUES (?1, ?2, ?3, ?4, ?5, ?6, ?6) ON CONFLICT(mac) DO UPDATE SET ip = COALESCE(excluded.ip, devices.ip), hostname = COALESCE(excluded.hostname, devices.hostname), vendor = COALESCE(excluded.vendor, devices.vendor), randomized = excluded.randomized, last_seen = excluded.last_seen",
    );
    assert(RELEASE_IP@[0] == 'U');
    assert(UPSERT_DEVICE@[0] == 'I');
    assert(UPSERT_DEVICE@[12] == 'd');
    assert(INSERT_QUERY@[0] == 'I' && INSERT_QUERY@[12] == 'q');
    assert(INSERT_IFACE@[0] == 'I' && INSERT_IFACE@[12] == 'i');
    assert(INSERT_LATENCY@[0] == 'I' && INSERT_LATENCY@[12] == 'l');
    assert(INSERT_ALERT@[0] == 'I' && INSERT_ALERT@[12] == 'a');
}

proof fn lemma_executed_concat(
    t: Map<Seq<char>, DeviceEntry>,
    a: Seq<StatementView>,
    b: Seq<StatementView>,
)
    ensures
        executed_all(t, a + b) == executed_all(executed_all(t, a), b),
    decreases b.len(),
{
    if b.len() == 0 {
        assert(a + b =~= a);
    } else {
        assert((a + b).drop_last() =~= a + b.drop_last());
        lemma_executed_concat(t, a, b.drop_last());
    }
}

/// What storing one thing does to the table of devices.
proof fn lemma_stored(t: Map<Seq<char>, DeviceEntry>, op: OpView)
    ensures
        !(op is Device) ==> executed_all(t, stored_by(op)) == t,
        op matches OpView::Device { mac, ip, hostname, vendor, randomized, ts } ==> executed_all(
            t,
            stored_by(op),
        ) == (match ip {
            Some(a) => executed(
                executed(t, release(a, mac)),
                upsert(mac, ip, hostname, vendor, randomized, ts),
            ),
            None => executed(t, upsert(mac, ip, hostname, vendor, randomized, ts)),
        }),
{
    lemma_statements_differ();
    let s = stored_by(op);
    match op {
        OpView::Device { mac, ip, hostname, vendor, randomized, ts } => {
            match ip {
                Some(a) => {
                    assert(s.drop_last().drop_last() =~= seq![]);
                    assert(s.drop_last().last() == release(a, mac));
                    assert(executed_all(t, s.drop_last().drop_last()) == t);
                    assert(executed_all(t, s.drop_last()) == executed(t, release(a, mac)));
                },
                None => {
                    assert(s.drop_last() =~= seq![]);
                    assert(executed_all(t, s.drop_last()) == t);
                },
            }
            let store = upsert(mac, ip, hostname, vendor, randomized, ts);
            assert(s.last() == store);
            assert(executed_all(t, s) == executed(executed_all(t, s.drop_last()), store));
        },
        _ => {
            assert(s.drop_last() =~= seq![]);
            assert(executed_all(t, s.drop_last()) == t);
        },
    }
}

/// An address is only ever held by one device, whatever is stored.
pub proof fn an_ip_is_held_by_one_device(t: Map<Seq<char>, DeviceEntry>, ops: Seq<OpView>)
    requires
        one_holder_per_ip(t),
    ensures
        one_holder_per_ip(executed_all(t, flushed(ops))),
    decreases ops.len(),
{
    if ops.len() > 0 {
        let most = ops.drop_last();
        an_ip_is_held_by_one_device(t, most);
        let u = executed_all(t, flushed(most));
        let op = ops.last();
        lemma_executed_concat(t, flushed(most), stored_by(op));
        lemma_stored(u, op);
        lemma_statements_differ();
        let after = executed_all(u, stored_by(op));
        match op {
            OpView::Device { mac, ip, hostname, vendor, randomized, ts } => {
                assert forall|a: Seq<char>, b: Seq<char>|
                    after.contains_key(a) && after.contains_key(b) && a != b && (
                    #[trigger] after[a]).ip is Some implies after[a].ip != (
                #[trigger] after[b]).ip by {
                    if a != mac && b != mac {
                        assert(u.contains_key(a) && u.contains_key(b));
                        assert(u[a].ip is Some);
                        assert(u[a].ip != u[b].ip);
                    } else if a == mac {
                        assert(u.contains_key(b));
                        if ip is None {
                            assert(u.contains_key(mac));
                            assert(u[mac].ip is Some);
                            assert(u[mac].ip != u[b].ip);
                        }
                    } else {
                        assert(u.contains_key(a));
                        if ip is None && u.contains_key(mac) {
                            assert(u[a].ip != u[mac].ip);
                        }
                    }
                }
            },
            _ => {},
        }
    }
}

/// Nothing that is stored makes a device disappear or forget the name and the
/// vendor that it has, and when it was first seen stays what it was.
pub proof fn later_sightings_erase_nothing(
    t: Map<Seq<char>, DeviceEntry>,
    ops: Seq<OpView>,
    mac: Seq<char>,
)
    requires
        t.contains_key(mac),
    ensures
        ({
            let after = executed_all(t, flushed(ops));
            &&& after.contains_key(mac)
            &&& after[mac].first_seen == t[mac].first_seen
            &&& t[mac].hostname is Some ==> after[mac].hostname is Some
            &&& t[mac].vendor is Some ==> after[mac].vendor is Some
        }),
    decreases ops.len(),
{
    if ops.len() > 0 {
        let most = ops.drop_last();
        later_sightings_erase_nothing(t, most, mac);
        let u = executed_all(t, flushed(most));
        lemma_executed_concat(t, flushed(most), stored_by(ops.last()));
        lemma_stored(u, ops.last());
        lemma_statements_differ();
    }
}

/// A sighting without a name leaves the name that is stored, and moves the time
/// when the device was last seen.
pub proof fn a_nameless_sighting_keeps_the_name(
    t: Map<Seq<char>, DeviceEntry>,
    mac: Seq<char>,
    ip: Option<Seq<char>>,
    randomized: bool,
    ts: i64,
)
    requires
        t.contains_key(mac),
    ensures
        ({
            let op = OpView::Device { mac, ip, hostname: None, vendor: None, randomized, ts };
            let after = executed_all(t, flushed(seq![op]));
            &&& after.contains_key(mac)
            &&& after[mac].hostname == t[mac].hostname
            &&& after[mac].vendor == t[mac].vendor
            &&& after[mac].last_seen == ts
        }),
{
    let op = OpView::Device { mac, ip, hostname: None, vendor: None, randomized, ts };
    assert(seq![op].drop_last() =~= seq![]);
    assert(flushed(seq![op].drop_last()) =~= seq![]);
    assert(flushed(seq![op]) =~= stored_by(op));
    lemma_stored(t, op);
    lemma_statements_differ();
}

/// How many things could not be stored, by what they were.
#[derive(Debug)]
pub struct DropCounts {
    pub queries: u64,
    pub devices: u64,
    pub monitoring: u64,
    pub alerts: u64,
}

impl Default for DropCounts {
    fn default() -> (r: DropCounts)
        ensures
            r == (DropCounts { queries: 0, devices: 0, monitoring: 0, alerts: 0 }),
    {
        DropCounts { queries: 0, devices: 0, monitoring: 0, alerts: 0 }
    }
}

impl DropCounts {
    /// The counter for things like `op`.
    pub open spec fn of(self, op: OpView) -> u64 {
        match op {
            OpView::Query(_) => self.queries,
            OpView::Device { .. } => self.devices,
            OpView::Iface { .. } => self.monitoring,
            OpView::Latency { .. } => self.monitoring,
            OpView::Alert { .. } => self.alerts,
        }
    }

    /// The counters after one more thing like `op`.
    pub open spec fn with(self, op: OpView) -> DropCounts {
        match op {
            OpView::Query(_) => DropCounts { queries: self.queries.wrapping_add(1), ..self },
            OpView::Device { .. } => DropCounts { devices: self.devices.wrapping_add(1), ..self },
            OpView::Iface { .. } => DropCounts {
                monitoring: self.monitoring.wrapping_add(1),
                ..self
            },
            OpView::Latency { .. } => DropCounts {
                monitoring: self.monitoring.wrapping_add(1),
                ..self
            },
            OpView::Alert { .. } => DropCounts { alerts: self.alerts.wrapping_add(1), ..self },
        }
    }

    /// Counts something that could not be stored. Tells whether it was the first of
    /// its kind, which is worth a warning.
    pub fn note(&mut self, op: &WriteOp) -> (r: bool)
        ensures
            r == (old(self).of(op@) == 0),
            *final(self) == old(self).with(op@),
    {
        match op {
            WriteOp::Query(_) => {
                let first = self.queries == 0;
                self.queries = self.queries.wrapping_add(1);
                first
            },
            WriteOp::Device { .. } => {
                let first = self.devices == 0;
                self.devices = self.devices.wrapping_add(1);
                first
            },
            WriteOp::Iface(_) => {
                let first = self.monitoring == 0;
                self.monitoring = self.monitoring.wrapping_add(1);
                first
            },
            WriteOp::Latency { .. } => {
                let first = self.monitoring == 0;
                self.monitoring = self.monitoring.wrapping_add(1);
                first
            },
            WriteOp::Alert { .. } => {
                let first = self.alerts == 0;
                self.alerts = self.alerts.wrapping_add(1);
                first
            },
        }
    }
}

/// The most operations in one batch.
pub const BATCH_MAX: usize = 512;

/// Old rows are dropped no more often than this, in milliseconds.
pub const PRUNE_EVERY: u64 = 3_600_000;

/// The batch that the writer gathers: it begins with the first operation and goes
/// on until it is full or its time is up. Times are in milliseconds.
#[derive(Debug)]
pub struct Batch {
    pending: Vec<WriteOp>,
    deadline: u64,
    last_prune: u64,
}

impl Batch {
    /// The operations gathered so far.
    pub closed spec fn view(&self) -> Seq<WriteOp> {
        self.pending@
    }

    /// When the time of the batch is up.
    pub closed spec fn due(&self) -> u64 {
        self.deadline
    }

    /// When old rows were last dropped.
    pub closed spec fn pruned(&self) -> u64 {
        self.last_prune
    }

    /// An empty batch.
    pub fn new(now: u64) -> (r: Batch)
        ensures
            r@.len() == 0,
            r.pruned() == now,
    {
        Batch { pending: Vec::new(), deadline: now, last_prune: now }
    }

    /// Begins a batch with its first operation.
    pub fn begin(&mut self, first: WriteOp, now: u64, flush_interval: u64)
        requires
            old(self)@.len() == 0,
        ensures
            final(self)@ == seq![first],
            final(self).due() == (if now + flush_interval > u64::MAX {
                u64::MAX
            } else {
                (now + flush_interval) as u64
            }),
            final(self).pruned() == old(self).pruned(),
    {
        self.deadline = now.saturating_add(flush_interval);
        self.pending.push(first);
        assert(self@ =~= seq![first]);
    }

    /// How long to wait for another operation; nothing if it is time to store the
    /// batch.
    pub fn wait(&self, now: u64) -> (r: Option<u64>)
        ensures
            r == (if self@.len() < BATCH_MAX && now < self.due() {
                Some((self.due() - now) as u64)
            } else {
                None::<u64>
            }),
            self@.len() >= 512 ==> r is None,
            self@.len() < 512 && now < self.due() ==> r is Some,
    {
        if self.pending.len() < BATCH_MAX && now < self.deadline {
            Some(self.deadline - now)
        } else {
            None
        }
    }

    /// Adds an operation.
    pub fn push(&mut self, op: WriteOp)
        ensures
            final(self)@ == old(self)@.push(op),
            final(self).due() == old(self).due(),
            final(self).pruned() == old(self).pruned(),
    {
        self.pending.push(op);
    }

    /// Takes the operations out, and leaves the batch empty.
    pub fn take(&mut self) -> (r: Vec<WriteOp>)
        ensures
            r@ == old(self)@,
            final(self)@.len() == 0,
            final(self).pruned() == old(self).pruned(),
    {
        let mut out: Vec<WriteOp> = Vec::new();
        std::mem::swap(&mut out, &mut self.pending);
        out
    }

    /// Tells whether old rows are to be dropped now, and notes it if so.
    pub fn prune_due(&mut self, now: u64) -> (r: bool)
        ensures
            r == (now > old(self).pruned() + PRUNE_EVERY),
            r == (now > old(self).pruned() + 3_600_000),
            final(self)@ == old(self)@,
            final(self).due() == old(self).due(),
            final(self).pruned() == (if r {
                now
            } else {
                old(self).pruned()
            }),
    {
        if now > self.last_prune && now - self.last_prune > PRUNE_EVERY {
            self.last_prune = now;
            true
        } else {
            false
        }
    }
}

/// `std::time::SystemTime::elapsed` on `std::time::UNIX_EPOCH`: the whole seconds
/// since the epoch, or nothing if the clock stands before it. What the clock says is
/// not stated.
#[verifier::external_body]
fn unix_seconds() -> (r: Option<u64>) {
    std::time::UNIX_EPOCH.elapsed().ok().map(|d| d.as_secs())
}

/// The time in whole seconds since the epoch: what `timestamp` makes of the clock.
/// Nothing more is said of it, since no two readings need be the same.
pub fn now() -> (r: i64)
    ensures
        r >= 0,
{
    timestamp(unix_seconds())
}

/// The time that is stored for a reading of the clock: the seconds themselves, the
/// largest time if there are more of them than a time can hold, and the epoch if the
/// clock stands before it.
pub fn timestamp(reading: Option<u64>) -> (r: i64)
    ensures
        r == (match reading {
            Some(secs) => if secs > i64::MAX {
                i64::MAX as int
            } else {
                secs as int
            },
            None => 0,
        }),
        r >= 0,
{
    match reading {
        Some(secs) => if secs > i64::MAX as u64 {
            i64::MAX
        } else {
            secs as i64
        },
        None => 0,
    }
}

/// The moment `hours` hours before `now`, at least one; nothing if there is no such
/// number.
pub fn since_hours(now: i64, hours: i64) -> (r: Option<i64>)
    ensures
        ({
            let h = if hours < 1 {
                1
            } else {
                hours as int
            };
            r == (if i64::MIN <= now - h * 3600 {
                Some((now - h * 3600) as i64)
            } else {
                None::<i64>
            })
        }),
{
    let h: i64 = if hours < 1 {
        1
    } else {
        hours
    };
    let at: i128 = now as i128 - h as i128 * 3600;
    if at < -0x8000_0000_0000_0000i128 {
        None
    } else {
        Some(at as i64)
    }
}

/// The moment `minutes` minutes before `now`, at least one; nothing if there is no
/// such number.
pub fn since_minutes(now: i64, minutes: i64) -> (r: Option<i64>)
    ensures
        ({
            let m = if minutes < 1 {
                1
            } else {
                minutes as int
            };
            r == (if i64::MIN <= now - m * 60 {
                Some((now - m * 60) as i64)
            } else {
                None::<i64>
            })
        }),
{
    let m: i64 = if minutes < 1 {
        1
    } else {
        minutes
    };
    let at: i128 = now as i128 - m as i128 * 60;
    if at < -0x8000_0000_0000_0000i128 {
        None
    } else {
        Some(at as i64)
    }
}

/// Drops logged queries.
pub const PRUNE_QUERIES: &'static str = "DELETE FROM queries WHERE ts < ?1";

/// Drops samples of throughput.
pub const PRUNE_IFACE: &'static str = "DELETE FROM iface_samples WHERE ts < ?1";

/// Drops round trips.
pub const PRUNE_LATENCY: &'static str = "DELETE FROM latency WHERE ts < ?1";

/// Drops alerts.
pub const PRUNE_ALERTS: &'static str = "DELETE FROM alerts WHERE ts < ?1";

/// For how many days alerts are kept. There are few of them, and they are worth looking
/// back at for longer than queries are.
pub const ALERT_RETENTION_DAYS: u32 = 90;

/// A statement with one number.
pub open spec fn with_int(sql: Seq<char>, n: i64) -> StatementView {
    StatementView { sql, binds: seq![BindView::Int(n)] }
}

/// A statement with two numbers.
pub open spec fn with_ints(sql: Seq<char>, n: i64, m: i64) -> StatementView {
    StatementView { sql, binds: seq![BindView::Int(n), BindView::Int(m)] }
}

fn statement(sql: &str) -> (r: Statement)
    ensures
        r@ == (StatementView { sql: sql@, binds: seq![] }),
{
    let r = Statement { sql: sql.to_string(), binds: Vec::new() };
    assert(r@.binds =~= seq![]);
    r
}

fn statement_int(sql: &str, n: i64) -> (r: Statement)
    ensures
        r@ == with_int(sql@, n),
{
    let mut r = statement(sql);
    r.binds.push(Bind::Int(n));
    assert(r@.binds =~= seq![BindView::Int(n)]);
    r
}

fn statement_ints(sql: &str, n: i64, m: i64) -> (r: Statement)
    ensures
        r@ == with_ints(sql@, n, m),
{
    let mut r = statement_int(sql, n);
    let ghost before = r@.binds;
    r.binds.push(Bind::Int(m));
    assert(r@.binds =~= before.push(BindView::Int(m)));
    assert(r@.binds =~= seq![BindView::Int(n), BindView::Int(m)]);
    r
}

/// The statements that drop old rows: queries after the configured number of days;
/// samples, which are dense, after three; alerts after a time of their own.
pub fn prune(now: i64, retention_days: u32) -> (r: Vec<Statement>)
    requires
        now >= 0,
    ensures
        statements_view(r@) == seq![
            with_int(PRUNE_QUERIES@, (now - retention_days * 86_400) as i64),
            with_int(PRUNE_IFACE@, (now - 259_200) as i64),
            with_int(PRUNE_LATENCY@, (now - 259_200) as i64),
            with_int(PRUNE_ALERTS@, (now - ALERT_RETENTION_DAYS * 86_400) as i64),
        ],
        statements_view(r@)[3].binds == seq![BindView::Int((now - 90 * 86_400) as i64)],
{
    let mut out: Vec<Statement> = Vec::new();
    out.push(statement_int(PRUNE_QUERIES, now - retention_days as i64 * 86_400));
    out.push(statement_int(PRUNE_IFACE, now - 259_200));
    out.push(statement_int(PRUNE_LATENCY, now - 259_200));
    out.push(statement_int(PRUNE_ALERTS, now - ALERT_RETENTION_DAYS as i64 * 86_400));
    assert(statements_view(out@) =~= seq![
        with_int(PRUNE_QUERIES@, (now - retention_days * 86_400) as i64),
        with_int(PRUNE_IFACE@, (now - 259_200) as i64),
        with_int(PRUNE_LATENCY@, (now - 259_200) as i64),
        with_int(PRUNE_ALERTS@, (now - ALERT_RETENTION_DAYS * 86_400) as i64),
    ]);
    out
}

/// Counts the queries of a period: all, blocked, from the cache, clients, domains,
/// and the mean time of an upstream.
pub const SUMMARY_DAY: &'static str = "SELECT COUNT(*), COALESCE(SUM(status = 'blocked'), 0), COALESCE(SUM(status = 'cached'), 0), COUNT(DISTINCT client_ip), COUNT(DISTINCT domain), AVG(elapsed_ms) FROM queries WHERE ts >= ?1";

/// Counts the queries of a period.
pub const SUMMARY_HOUR: &'static str = "SELECT COUNT(*) FROM queries WHERE ts >= ?1";

/// Counts the devices.
pub const SUMMARY_DEVICES: &'static str = "SELECT COUNT(*) FROM devices";

/// Counts the devices that were seen in a period.
pub const SUMMARY_ACTIVE: &'static str = "SELECT COUNT(*) FROM devices WHERE last_seen >= ?1";

/// The statements that the overview is read by: the last day, the last hour, all
/// devices, and the devices of the last day.
pub fn summary(now: i64) -> (r: Vec<Statement>)
    requires
        now >= 0,
    ensures
        statements_view(r@) == seq![
            with_int(SUMMARY_DAY@, (now - 86_400) as i64),
            with_int(SUMMARY_HOUR@, (now - 3_600) as i64),
            StatementView { sql: SUMMARY_DEVICES@, binds: seq![] },
            with_int(SUMMARY_ACTIVE@, (now - 86_400) as i64),
        ],
{
    let mut out: Vec<Statement> = Vec::new();
    out.push(statement_int(SUMMARY_DAY, now - 86_400));
    out.push(statement_int(SUMMARY_HOUR, now - 3_600));
    out.push(statement(SUMMARY_DEVICES));
    out.push(statement_int(SUMMARY_ACTIVE, now - 86_400));
    assert(statements_view(out@) =~= seq![
        with_int(SUMMARY_DAY@, (now - 86_400) as i64),
        with_int(SUMMARY_HOUR@, (now - 3_600) as i64),
        StatementView { sql: SUMMARY_DEVICES@, binds: seq![] },
        with_int(SUMMARY_ACTIVE@, (now - 86_400) as i64),
    ]);
    out
}

/// A row of the query log.
#[derive(Debug)]
pub struct QueryRow {
    pub ts: i64,
    pub client_ip: String,
    pub client_name: Option<String>,
    pub domain: String,
    pub qtype: String,
    pub status: String,
    pub elapsed_ms: Option<u32>,
    pub answer: Option<String>,
    pub blocklist: Option<String>,
}

/// Which rows of the query log are wanted.
#[derive(Debug)]
pub struct QueryFilter {
    pub limit: u32,
    pub offset: u32,
    pub search: Option<String>,
    pub client: Option<String>,
    pub status: Option<String>,
}

impl Default for QueryFilter {
    fn default() -> (r: QueryFilter)
        ensures
            r.limit == 0,
            r.offset == 0,
            r.search is None,
            r.client is None,
            r.status is None,
    {
        QueryFilter { limit: 0, offset: 0, search: None, client: None, status: None }
    }
}

/// Reads the query log, with the name of each client.
pub const RECENT_QUERIES: &'static str = "SELECT q.ts, q.client_ip, d.hostname, q.domain, q.qtype, q.status, q.elapsed_ms, q.answer, q.blocklist FROM queries q LEFT JOIN devices d ON d.ip = q.client_ip WHERE 1=1";

/// A number kept between two others.
pub open spec fn clamped(n: int, low: int, high: int) -> int {
    if n < low {
        low
    } else if n > high {
        high
    } else {
        n
    }
}

/// A condition and its value, if there is one.
pub open spec fn condition(
    s: StatementView,
    cond: Seq<char>,
    before: Seq<char>,
    value: Option<String>,
    after: Seq<char>,
) -> StatementView {
    match value {
        Some(v) => StatementView {
            sql: s.sql + cond,
            binds: s.binds.push(BindView::Text(before + v@ + after)),
        },
        None => s,
    }
}

/// The statement that reads the rows that are wanted.
pub open spec fn recent(f: QueryFilter) -> StatementView {
    let all = StatementView { sql: RECENT_QUERIES@, binds: seq![] };
    let s1 = condition(all, " AND q.domain LIKE ?"@, "%"@, f.search, "%"@);
    let s2 = condition(s1, " AND q.client_ip = ?"@, ""@, f.client, ""@);
    let s3 = condition(s2, " AND q.status = ?"@, ""@, f.status, ""@);
    StatementView {
        sql: s3.sql + " ORDER BY q.ts DESC, q.id DESC LIMIT ? OFFSET ?"@,
        binds: s3.binds.push(BindView::Int(clamped(f.limit as int, 1, 1000) as i64)).push(
            BindView::Int(f.offset as i64),
        ),
    }
}

fn add_condition(s: &mut Statement, cond: &str, before: &str, value: &Option<String>, after: &str)
    ensures
        final(s)@ == condition(old(s)@, cond@, before@, *value, after@),
{
    if let Some(v) = value {
        s.sql.append(cond);
        let mut bound = before.to_string();
        bound.append(v.as_str());
        bound.append(after);
        s.binds.push(Bind::Text(bound));
        assert(s@.binds =~= condition(old(s)@, cond@, before@, *value, after@).binds);
    }
}

fn clamp(n: u32, low: u32, high: u32) -> (r: i64)
    requires
        low <= high,
    ensures
        r == clamped(n as int, low as int, high as int),
{
    if n < low {
        low as i64
    } else if n > high {
        high as i64
    } else {
        n as i64
    }
}

/// The statement that reads the rows of the query log that are wanted, the newest
/// first.
pub fn recent_queries(f: &QueryFilter) -> (r: Statement)
    ensures
        r@ == recent(*f),
{
    let mut s = statement(RECENT_QUERIES);
    add_condition(&mut s, " AND q.domain LIKE ?", "%", &f.search, "%");
    add_condition(&mut s, " AND q.client_ip = ?", "", &f.client, "");
    add_condition(&mut s, " AND q.status = ?", "", &f.status, "");
    s.sql.append(" ORDER BY q.ts DESC, q.id DESC LIMIT ? OFFSET ?");
    let ghost before = s@.binds;
    let limit: i64 = clamp(f.limit, 1, 1000);
    s.binds.push(Bind::Int(limit));
    s.binds.push(Bind::Int(f.offset as i64));
    assert(s@.binds =~= before.push(BindView::Int(limit)).push(BindView::Int(f.offset as i64)));
    s
}

/// What is searched for never reaches the text of the statement: filters that ask
/// for the same things, whatever values they give, have the same text.
pub proof fn user_text_never_reaches_the_statement(f: QueryFilter, g: QueryFilter)
    requires
        f.search is Some == g.search is Some,
        f.client is Some == g.client is Some,
        f.status is Some == g.status is Some,
    ensures
        recent(f).sql == recent(g).sql,
        recent(f).binds.len() == recent(g).binds.len(),
{
}

/// A label and how often it occurs.
#[derive(Debug)]
pub struct Counted {
    pub label: String,
    pub sublabel: Option<String>,
    pub count: i64,
}

/// Counts the domains that were blocked.
pub const TOP_BLOCKED: &'static str = "SELECT domain, blocklist, COUNT(*) c FROM queries WHERE ts >= ?1 AND status = 'blocked' GROUP BY domain ORDER BY c DESC LIMIT ?2";

/// Counts the domains that were not blocked.
pub const TOP_ALLOWED: &'static str = "SELECT domain, NULL, COUNT(*) c FROM queries WHERE ts >= ?1 AND status != 'blocked' GROUP BY domain ORDER BY c DESC LIMIT ?2";

/// The statement that reads the most frequent domains since a moment.
pub fn top_domains(since: i64, limit: u32, blocked: bool) -> (r: Statement)
    ensures
        r@ == with_ints(
            if blocked {
                TOP_BLOCKED@
            } else {
                TOP_ALLOWED@
            },
            since,
            clamped(limit as int, 1, 200) as i64,
        ),
{
    if blocked {
        statement_ints(TOP_BLOCKED, since, clamp(limit, 1, 200))
    } else {
        statement_ints(TOP_ALLOWED, since, clamp(limit, 1, 200))
    }
}

/// Counts the queries of each client.
pub const TOP_CLIENTS: &'static str = "SELECT q.client_ip, COALESCE(d.hostname, d.vendor), COUNT(*) c FROM queries q LEFT JOIN devices d ON d.ip = q.client_ip WHERE q.ts >= ?1 GROUP BY q.client_ip ORDER BY c DESC LIMIT ?2";

/// The statement that reads the busiest clients since a moment.
pub fn top_clients(since: i64, limit: u32) -> (r: Statement)
    ensures
        r@ == with_ints(TOP_CLIENTS@, since, clamped(limit as int, 1, 200) as i64),
{
    statement_ints(TOP_CLIENTS, since, clamp(limit, 1, 200))
}

/// Counts the queries of each type.
pub const QUERY_TYPES: &'static str = "SELECT qtype, NULL, COUNT(*) c FROM queries WHERE ts >= ?1 GROUP BY qtype ORDER BY c DESC LIMIT 12";

/// The statement that reads the most frequent types since a moment.
pub fn query_types(since: i64) -> (r: Statement)
    ensures
        r@ == with_int(QUERY_TYPES@, since),
{
    statement_int(QUERY_TYPES, since)
}

/// The queries of one interval.
#[derive(Debug)]
pub struct Bucket {
    pub ts: i64,
    pub allowed: i64,
    pub blocked: i64,
}

/// Counts the queries of each interval.
pub const TIMESERIES: &'static str = "SELECT (ts / ?2) * ?2 AS b, COALESCE(SUM(status != 'blocked'), 0), COALESCE(SUM(status = 'blocked'), 0) FROM queries WHERE ts >= ?1 GROUP BY b ORDER BY b";

/// The statement that reads the query volume since a moment, in intervals of at
/// least a minute.
pub fn timeseries(since: i64, bucket_secs: i64) -> (r: Statement)
    ensures
        r@ == with_ints(
            TIMESERIES@,
            since,
            if bucket_secs < 60 {
                60
            } else {
                bucket_secs
            },
        ),
{
    let bucket: i64 = if bucket_secs < 60 {
        60
    } else {
        bucket_secs
    };
    statement_ints(TIMESERIES, since, bucket)
}

/// A device, and how much it asked in the last day.
#[derive(Debug)]
pub struct DeviceRow {
    pub mac: String,
    pub ip: Option<String>,
    pub hostname: Option<String>,
    pub vendor: Option<String>,
    pub randomized: bool,
    pub first_seen: i64,
    pub last_seen: i64,
    pub queries_24h: i64,
    pub blocked_24h: i64,
}

/// Reads the devices, with how much each asked.
pub const DEVICES: &'static str = "SELECT d.mac, d.ip, d.hostname, d.vendor, d.randomized, d.first_seen, d.last_seen, COALESCE(q.n, 0), COALESCE(q.b, 0) FROM devices d LEFT JOIN (SELECT client_ip, COUNT(*) n, SUM(status = 'blocked') b FROM queries WHERE ts >= ?1 GROUP BY client_ip) q ON q.client_ip = d.ip ORDER BY d.last_seen DESC";

/// The statement that reads the devices, the one seen last first.
pub fn devices(now: i64) -> (r: Statement)
    requires
        now >= 0,
    ensures
        r@ == with_int(DEVICES@, (now - 86_400) as i64),
{
    statement_int(DEVICES, now - 86_400)
}

/// The throughput of an interface at a moment.
#[derive(Debug)]
pub struct IfaceRow {
    pub ts: i64,
    pub iface: String,
    pub rx_bps: i64,
    pub tx_bps: i64,
}

/// Reads samples of throughput.
pub const IFACE_SERIES: &'static str = "SELECT ts, iface, rx_bps, tx_bps FROM iface_samples WHERE ts >= ?1 ORDER BY ts";

/// The statement that reads the throughput since a moment.
pub fn iface_series(since: i64) -> (r: Statement)
    ensures
        r@ == with_int(IFACE_SERIES@, since),
{
    statement_int(IFACE_SERIES, since)
}

/// Reads the last round trip to each target.
pub const LATEST_LATENCY: &'static str = "SELECT target, ms, ts FROM latency WHERE ts = (SELECT MAX(ts) FROM latency l2 WHERE l2.target = latency.target) GROUP BY target";

/// The statement that reads the last round trip to each target.
pub fn latest_latency() -> (r: Statement)
    ensures
        r@ == (StatementView { sql: LATEST_LATENCY@, binds: seq![] }),
{
    statement(LATEST_LATENCY)
}

/// Counts, for each client, the answers that a name does not exist.
pub const NXDOMAIN_OFFENDERS: &'static str = "SELECT client_ip, COUNT(*) c FROM queries WHERE ts >= ?1 AND status = 'nxdomain' GROUP BY client_ip HAVING c >= ?2 ORDER BY c DESC";

/// The statement that reads the clients with at least `threshold` answers that a
/// name does not exist, since a moment.
pub fn nxdomain_offenders(since: i64, threshold: u32) -> (r: Statement)
    ensures
        r@ == with_ints(NXDOMAIN_OFFENDERS@, since, threshold as i64),
{
    statement_ints(NXDOMAIN_OFFENDERS, since, threshold as i64)
}

/// A row of the alerts.
#[derive(Debug)]
pub struct AlertRow {
    pub ts: i64,
    pub kind: String,
    pub severity: String,
    pub subject: String,
    pub detail: String,
    pub notified: bool,
}

/// Reads alerts, the newest first.
pub const RECENT_ALERTS: &'static str = "SELECT ts, kind, severity, subject, detail, notified FROM alerts ORDER BY ts DESC LIMIT ?1";

/// The statement that reads the latest alerts.
pub fn recent_alerts(limit: u32) -> (r: Statement)
    ensures
        r@ == with_int(RECENT_ALERTS@, clamped(limit as int, 1, 1000) as i64),
{
    statement_int(RECENT_ALERTS, clamp(limit, 1, 1000))
}

} // verus!
