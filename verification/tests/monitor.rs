use netwatch::addr::Ipv4Addr;
use netwatch::db::WriteOp;
use netwatch::monitor::{gateway_probes, latency_ops, round_trip, Probe, Throughput};
use netwatch::netinfo::{parse_iface_counters, IfaceCounters};

fn counters(rx: u64, tx: u64) -> Vec<IfaceCounters> {
    parse_iface_counters(&format!(
        "h\nh\neth0: {rx} 0 0 0 0 0 0 0 {tx} 0 0 0 0 0 0 0\n"
    ))
}

fn rates(op: &WriteOp) -> (i64, i64) {
    match op {
        WriteOp::Iface(s) => (s.rx_bps, s.tx_bps),
        other => panic!("expected a sample, got {other:?}"),
    }
}

const SECOND: u64 = 1_000_000_000;

#[test]
fn the_second_look_gives_a_rate() {
    let mut t = Throughput::new();
    assert!(t.sample(&counters(1000, 500), SECOND, 1).is_empty());
    let ops = t.sample(&counters(3500, 1000), 11 * SECOND, 11);
    assert_eq!(ops.len(), 1);
    assert_eq!(rates(&ops[0]), (2000, 400));
}

#[test]
fn a_counter_that_starts_over_gives_zero() {
    let mut t = Throughput::new();
    t.sample(&counters(5000, 5000), SECOND, 1);
    let ops = t.sample(&counters(10, 6000), 2 * SECOND, 2);
    assert_eq!(rates(&ops[0]), (0, 8000));
}

#[test]
fn no_time_gives_no_rate() {
    let mut t = Throughput::new();
    t.sample(&counters(1000, 0), SECOND, 1);
    assert!(t.sample(&counters(9000, 0), SECOND, 1).is_empty());
    // The first counters are still the ones to go by.
    let ops = t.sample(&counters(2000, 0), 2 * SECOND, 2);
    assert_eq!(rates(&ops[0]).0, 8000);
}

#[test]
fn a_refusal_is_a_round_trip() {
    assert_eq!(round_trip(Probe::Connected, 7), Some(7));
    assert_eq!(round_trip(Probe::Refused, 7), Some(7));
    assert_eq!(round_trip(Probe::Failed, 7), None);
    assert_eq!(round_trip(Probe::TimedOut, 7), None);
    let tried: Vec<String> =
        gateway_probes(Ipv4Addr::new(192, 168, 1, 1)).iter().map(|a| a.to_text()).collect();
    assert_eq!(tried, ["192.168.1.1:53", "192.168.1.1:80"]);
}

#[test]
fn only_what_answered_is_stored() {
    assert!(latency_ops(None, None, 1).is_empty());
    let ops = latency_ops(Some(5), Some(6), 1);
    match (&ops[0], &ops[1]) {
        (
            WriteOp::Latency { target: a, nanos: 5, .. },
            WriteOp::Latency { target: b, nanos: 6, .. },
        ) => assert_eq!((a.as_str(), b.as_str()), ("gateway", "upstream")),
        other => panic!("unexpected {other:?}"),
    }
}
