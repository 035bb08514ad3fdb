//! Turning counters into rates, and probes into round trips.
//!
//! Moments are numbers of nanoseconds since some fixed one.

use crate::addr::{IpAddr, Ipv4Addr, SocketAddr};
use crate::db::{IfaceSample, OpView, WriteOp};
use crate::devices;
use crate::netinfo;
use crate::netinfo::{CountersView, IfaceCounters};
use vstd::hash_map::StringHashMap;
use vstd::prelude::*;

verus! {

/// The counters of an interface at some moment.
#[derive(Clone, Copy, Debug, PartialEq, Eq, Structural)]
pub struct Seen {
    pub rx_bytes: u64,
    pub tx_bytes: u64,
    pub at: u64,
}

/// The last counters of each interface.
pub struct Throughput {
    last: StringHashMap<Seen>,
}

/// What a counter grew by. One that starts over has grown by nothing, which is one
/// sample of zero in place of an absurd spike.
pub open spec fn grown(now: u64, before: u64) -> int {
    if now < before {
        0
    } else {
        now - before
    }
}

/// The bits per second of `bytes` in `nanos` nanoseconds, rounded down, or the
/// largest number.
pub open spec fn bits_per_second(bytes: int, nanos: int) -> i64 {
    let r = bytes * 8_000_000_000 / nanos;
    if r > i64::MAX {
        i64::MAX
    } else {
        r as i64
    }
}

fn rate(bytes: u64, nanos: u64) -> (r: i64)
    requires
        nanos > 0,
    ensures
        r == bits_per_second(bytes as int, nanos as int),
{
    let bits: u128 = bytes as u128 * 8_000_000_000;
    let r: u128 = bits / nanos as u128;
    if r > i64::MAX as u128 {
        i64::MAX
    } else {
        r as i64
    }
}

/// Whether the rate of an interface can be told: it was seen before now.
pub open spec fn measurable(m: Map<Seq<char>, Seen>, c: CountersView, now: u64) -> bool {
    m.contains_key(c.iface) && m[c.iface].at < now
}

/// The sample for one interface.
pub open spec fn sample_of(seen: Seen, c: CountersView, now: u64, ts: i64) -> OpView {
    OpView::Iface {
        ts,
        iface: c.iface,
        rx_bytes: c.rx_bytes as i64,
        tx_bytes: c.tx_bytes as i64,
        rx_bps: bits_per_second(grown(c.rx_bytes, seen.rx_bytes), now - seen.at),
        tx_bps: bits_per_second(grown(c.tx_bytes, seen.tx_bytes), now - seen.at),
    }
}

/// What is remembered after one interface was looked at. A look at the very moment
/// of the last one changes nothing.
pub open spec fn looked(m: Map<Seq<char>, Seen>, c: CountersView, now: u64) -> Map<Seq<char>, Seen> {
    if m.contains_key(c.iface) && !measurable(m, c, now) {
        m
    } else {
        m.insert(c.iface, Seen { rx_bytes: c.rx_bytes, tx_bytes: c.tx_bytes, at: now })
    }
}

/// What is remembered after interfaces were looked at.
pub open spec fn looked_all(m: Map<Seq<char>, Seen>, cs: Seq<CountersView>, now: u64) -> Map<
    Seq<char>,
    Seen,
>
    decreases cs.len(),
{
    if cs.len() == 0 {
        m
    } else {
        looked(looked_all(m, cs.drop_last(), now), cs.last(), now)
    }
}

/// The samples for interfaces.
pub open spec fn samples(m: Map<Seq<char>, Seen>, cs: Seq<CountersView>, now: u64, ts: i64) -> Seq<
    OpView,
>
    decreases cs.len(),
{
    if cs.len() == 0 {
        seq![]
    } else {
        let before = looked_all(m, cs.drop_last(), now);
        let rest = samples(m, cs.drop_last(), now, ts);
        if measurable(before, cs.last(), now) {
            rest.push(sample_of(before[cs.last().iface], cs.last(), now, ts))
        } else {
            rest
        }
    }
}

impl Throughput {
    /// The last counters of each interface.
    pub closed spec fn view(&self) -> Map<Seq<char>, Seen> {
        self.last@
    }

    /// No interface was seen yet.
    pub fn new() -> (r: Throughput)
        ensures
            r@ == Map::<Seq<char>, Seen>::empty(),
    {
        Throughput { last: StringHashMap::new() }
    }

    fn look(&mut self, c: &IfaceCounters, now: u64, ts: i64) -> (r: Option<WriteOp>)
        ensures
            final(self)@ == looked(old(self)@, c@, now),
            devices::op_view(r) == (if measurable(old(self)@, c@, now) {
                Some(sample_of(old(self)@[c@.iface], c@, now, ts))
            } else {
                None
            }),
    {
        let mut out: Option<WriteOp> = None;
        let before: Option<Seen> = match self.last.get(c.iface.as_str()) {
            Some(s) => Some(*s),
            None => None,
        };
        if let Some(s) = before {
            if s.at >= now {
                return None;
            }
            let nanos: u64 = now - s.at;
            out =
            Some(
                WriteOp::Iface(
                    IfaceSample {
                        ts,
                        iface: c.iface.clone(),
                        rx_bytes: #[verifier::truncate] (c.rx_bytes as i64),
                        tx_bytes: #[verifier::truncate] (c.tx_bytes as i64),
                        rx_bps: rate(c.rx_bytes.saturating_sub(s.rx_bytes), nanos),
                        tx_bps: rate(c.tx_bytes.saturating_sub(s.tx_bytes), nanos),
                    },
                ),
            );
        }
        self.last.insert(
            c.iface.clone(),
            Seen { rx_bytes: c.rx_bytes, tx_bytes: c.tx_bytes, at: now },
        );
        assert(self@ =~= looked(old(self)@, c@, now));
        out
    }

    /// Looks at the counters of the interfaces. Tells what to store: the throughput
    /// of each that was seen before.
    pub fn sample(&mut self, counters: &Vec<IfaceCounters>, now: u64, ts: i64) -> (r: Vec<WriteOp>)
        ensures
            final(self)@ == looked_all(old(self)@, netinfo::counter_views(counters@), now),
            devices::op_views(r@) == samples(
                old(self)@,
                netinfo::counter_views(counters@),
                now,
                ts,
            ),
    {
        let ghost cs = netinfo::counter_views(counters@);
        let mut out: Vec<WriteOp> = Vec::new();
        let mut i: usize = 0;
        assert(cs.take(0) =~= seq![]);
        assert(devices::op_views(out@) =~= seq![]);
        while i < counters.len()
            invariant
                i <= counters@.len(),
                cs == netinfo::counter_views(counters@),
                self@ == looked_all(old(self)@, cs.take(i as int), now),
                devices::op_views(out@) == samples(old(self)@, cs.take(i as int), now, ts),
            decreases counters@.len() - i,
        {
            let ghost before = devices::op_views(out@);
            assert(cs.take(i + 1).drop_last() =~= cs.take(i as int));
            assert(cs.take(i + 1).last() == counters@[i as int]@);
            if let Some(op) = self.look(&counters[i], now, ts) {
                out.push(op);
                assert(devices::op_views(out@) =~= before.push(op@));
            }
            i += 1;
        }
        assert(cs.take(i as int) =~= cs);
        out
    }
}

/// How an attempt to connect ended.
#[derive(Clone, Copy, Debug, PartialEq, Eq, Structural)]
pub enum Probe {
    Connected,
    Refused,
    Failed,
    TimedOut,
}

/// The time of a round trip that an attempt to connect took `nanos` nanoseconds for.
/// A refusal is as good as a success: both prove that a packet went there and back.
pub fn round_trip(outcome: Probe, nanos: u64) -> (r: Option<u64>)
    ensures
        r == (if outcome == Probe::Connected || outcome == Probe::Refused {
            Some(nanos)
        } else {
            None
        }),
{
    match outcome {
        Probe::Connected | Probe::Refused => Some(nanos),
        Probe::Failed | Probe::TimedOut => None,
    }
}

/// Where the gateway is tried, in order: not every router takes DNS over TCP, but
/// nearly every one has a web page.
pub fn gateway_probes(gateway: Ipv4Addr) -> (r: Vec<SocketAddr>)
    ensures
        r@ == seq![
            SocketAddr { ip: IpAddr::V4(gateway), port: 53 },
            SocketAddr { ip: IpAddr::V4(gateway), port: 80 },
        ],
{
    let mut out: Vec<SocketAddr> = Vec::new();
    out.push(SocketAddr { ip: IpAddr::V4(gateway), port: 53 });
    out.push(SocketAddr { ip: IpAddr::V4(gateway), port: 80 });
    assert(out@ =~= seq![
        SocketAddr { ip: IpAddr::V4(gateway), port: 53 },
        SocketAddr { ip: IpAddr::V4(gateway), port: 80 },
    ]);
    out
}

/// What is stored of the round trips to the gateway and to the upstream, so that a
/// slow network can be told from a slow provider.
pub open spec fn latencies(gateway: Option<u64>, upstream: Option<u64>, ts: i64) -> Seq<OpView> {
    let g = match gateway {
        Some(nanos) => seq![OpView::Latency { ts, target: "gateway"@, nanos }],
        None => seq![],
    };
    match upstream {
        Some(nanos) => g.push(OpView::Latency { ts, target: "upstream"@, nanos }),
        None => g,
    }
}

/// Tells what to store of the round trips to the gateway and to the upstream.
pub fn latency_ops(gateway: Option<u64>, upstream: Option<u64>, ts: i64) -> (r: Vec<WriteOp>)
    ensures
        devices::op_views(r@) == latencies(gateway, upstream, ts),
{
    let mut out: Vec<WriteOp> = Vec::new();
    if let Some(nanos) = gateway {
        out.push(WriteOp::Latency { ts, target: "gateway".to_string(), nanos });
    }
    if let Some(nanos) = upstream {
        out.push(WriteOp::Latency { ts, target: "upstream".to_string(), nanos });
    }
    assert(devices::op_views(out@) =~= latencies(gateway, upstream, ts));
    out
}

/// A counter that starts over never makes a spike: the rate is zero then.
pub proof fn a_counter_that_starts_over_makes_no_spike(seen: Seen, c: CountersView, now: u64, ts: i64)
    requires
        c.rx_bytes < seen.rx_bytes,
        seen.at < now,
    ensures
        sample_of(seen, c, now, ts)->rx_bps == 0,
{
    let n = now - seen.at;
    assert(0int * 8_000_000_000 / n == 0) by (nonlinear_arith)
        requires
            n > 0,
    ;
}

} // verus!
