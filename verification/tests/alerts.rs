use netwatch::alerts::{newcomer, push_target, Alert, AlertSink, Severity};
use netwatch::config::AlertConfig;
use netwatch::db::WriteOp;
use netwatch::devices::WriteGate;

const HOUR: u64 = 3_600_000;

/// The whole point of the cooldown: a condition that persists across scans must
/// report once, not once every scan interval.
#[test]
fn a_repeated_condition_alerts_once() {
    let mut sink = AlertSink::with_cooldown(HOUR);
    let mut through = 0;
    for i in 0..5u64 {
        if sink.raise(Alert::nxdomain_storm("192.168.1.5", 200, 10), 1000 + i).is_some() {
            through += 1;
        }
    }
    assert_eq!(through, 1, "repeats inside the cooldown must be suppressed");
}

/// Cooldown is per subject: one noisy client must not mask a different one.
#[test]
fn different_subjects_alert_independently() {
    let mut sink = AlertSink::with_cooldown(HOUR);
    assert!(sink.raise(Alert::nxdomain_storm("192.168.1.5", 200, 10), 0).is_some());
    assert!(
        sink.raise(Alert::nxdomain_storm("192.168.1.9", 300, 10), 0).is_some(),
        "a second client is a separate condition"
    );
}

/// ...and per kind, so a new device and a storm from the same subject are both
/// reported.
#[test]
fn different_kinds_about_one_subject_alert_independently() {
    let mut sink = AlertSink::with_cooldown(HOUR);
    assert!(sink.raise(Alert::new_device("aa:bb:cc:dd:ee:01", None, None), 0).is_some());
    assert!(sink.raise(Alert::nxdomain_storm("aa:bb:cc:dd:ee:01", 200, 10), 0).is_some());
}

#[test]
fn the_cooldown_expires() {
    let mut sink = AlertSink::with_cooldown(0);
    assert!(sink.raise(Alert::nxdomain_storm("192.168.1.5", 200, 10), 5).is_some());
    assert!(
        sink.raise(Alert::nxdomain_storm("192.168.1.5", 250, 10), 5).is_some(),
        "with no cooldown configured, a fresh condition alerts again"
    );
    let mut slow = AlertSink::with_cooldown(HOUR);
    assert!(slow.raise(Alert::nxdomain_storm("a", 1, 1), 0).is_some());
    assert!(slow.raise(Alert::nxdomain_storm("a", 1, 1), HOUR - 1).is_none());
    assert!(slow.raise(Alert::nxdomain_storm("a", 1, 1), HOUR).is_some());
}

/// A failed push must never lose the alert: it is stored with `notified` off.
#[test]
fn an_alert_that_was_not_delivered_is_stored_all_the_same() {
    let a = Alert::new_device("aa:bb:cc:dd:ee:01", None, None);
    match a.to_op(false, 42) {
        WriteOp::Alert { ts, kind, severity, subject, notified, .. } => {
            assert_eq!(ts, 42);
            assert_eq!(kind, "new_device");
            assert_eq!(severity, "info");
            assert_eq!(subject, "aa:bb:cc:dd:ee:01");
            assert!(!notified);
        }
        other => panic!("expected an alert, got {other:?}"),
    }
}

/// No URL configured is a normal setup, not an error.
#[test]
fn no_ntfy_url_means_no_client_rather_than_a_failure() {
    let mut cfg = AlertConfig::default();
    cfg.ntfy_url = "".to_string();
    assert!(push_target(&cfg).is_none());
    cfg.ntfy_url = "  https://ntfy.example/topic ".to_string();
    assert_eq!(push_target(&cfg).as_deref(), Some("https://ntfy.example/topic"));
}

/// The message has to identify the device without needing the dashboard open.
#[test]
fn a_new_device_alert_names_the_device() {
    let a = Alert::new_device("aa:bb:cc:dd:ee:01", Some("living-room-tv"), Some("Samsung"));
    assert!(a.detail.contains("living-room-tv"));
    assert!(a.detail.contains("Samsung"));
    assert!(a.detail.contains("aa:bb:cc:dd:ee:01"));
    assert_eq!(a.severity, Severity::Info);
    assert_eq!(a.detail, "living-room-tv (Samsung) — aa:bb:cc:dd:ee:01");
}

#[test]
fn an_unnamed_new_device_still_produces_a_usable_message() {
    let a = Alert::new_device("aa:bb:cc:dd:ee:01", None, None);
    assert!(a.detail.contains("aa:bb:cc:dd:ee:01"));
    assert!(!a.detail.contains("None"), "no debug formatting leaks: {}", a.detail);
}

#[test]
fn a_storm_alert_is_a_warning_and_says_how_many() {
    let a = Alert::nxdomain_storm("192.168.1.5", 412, 10);
    assert_eq!(a.severity, Severity::Warning);
    assert!(a.detail.contains("412"));
    assert!(a.detail.contains("10 minutes"));
}

#[test]
fn severities_have_their_words() {
    assert_eq!(Severity::Info.as_str(), "info");
    assert_eq!(Severity::Warning.as_str(), "warning");
    assert_eq!(Severity::Info.ntfy_priority(), "3");
    assert_eq!(Severity::Warning.ntfy_priority(), "4");
    assert_eq!(Severity::Info.ntfy_tag(), "bulb");
    assert_eq!(Severity::Warning.ntfy_tag(), "warning");
}

#[test]
fn disabled_alerting_has_no_sink() {
    let mut cfg = AlertConfig::default();
    assert!(AlertSink::new(&cfg).is_some());
    cfg.enabled = false;
    assert!(AlertSink::new(&cfg).is_none());
}

#[test]
fn many_conditions_are_forgotten_once_they_are_cool() {
    let mut sink = AlertSink::with_cooldown(10);
    for i in 0..4098u64 {
        assert!(sink.take_cooldown_slot("kind", &format!("s{i}"), i));
    }
    // The last ones are still hot.
    assert!(!sink.take_cooldown_slot("kind", "s4097", 4100));
    assert!(sink.take_cooldown_slot("kind", "s0", 4100));
}

#[test]
fn only_a_device_that_was_never_stored_is_new() {
    let device = |ts: i64| WriteOp::Device {
        mac: "aa:bb:cc:dd:ee:ff".to_string(),
        ip: Some("192.168.1.9".to_string()),
        hostname: Some("printer".to_string()),
        vendor: None,
        randomized: false,
        ts,
    };
    let mut gate = WriteGate::new();
    let alert = newcomer(&gate, &device(1)).unwrap();
    assert_eq!((alert.kind, alert.subject.as_str()), ("new_device", "aa:bb:cc:dd:ee:ff"));
    assert!(alert.detail.starts_with("printer (unknown vendor)"));
    assert!(gate.lets_pass(&device(1)));
    assert!(newcomer(&gate, &device(900)).is_none());
    let sample = WriteOp::Latency { ts: 1, target: "gateway".to_string(), nanos: 5 };
    assert!(newcomer(&gate, &sample).is_none());
    let mut restarted = WriteGate::new();
    restarted.hydrate("aa:bb:cc:dd:ee:ff", None, None, None, false, 0);
    assert!(newcomer(&restarted, &device(2)).is_none());
}

#[test]
fn the_cooldown_holds_over_a_whole_history() {
    let mut sink = AlertSink::with_cooldown(100);
    let mut last: Vec<(String, u64)> = Vec::new();
    let mut now = 0;
    for step in 0..400u64 {
        now += (step * 7) % 23;
        let subject = format!("192.168.1.{}", (step * 5) % 6);
        let through = sink.raise(Alert::nxdomain_storm(&subject, 1, 1), now).is_some();
        let before = last.iter().rev().find(|(s, _)| *s == subject).map(|(_, at)| *at);
        assert_eq!(through, before.map_or(true, |at| now - at >= 100));
        if through {
            last.push((subject, now));
        }
    }
    assert!(last.len() > 6);
}
