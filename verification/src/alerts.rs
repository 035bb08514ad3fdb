//! The few things that are worth interrupting somebody for: a device that appears on
//! the network for the first time, and a client that asks for many names which do
//! not exist.
//!
//! Time is a number of milliseconds since some fixed moment, and the caller says
//! what it is.

use crate::config::AlertConfig;
use crate::db::{OpView, WriteOp};
use crate::devices::{StoredView, WriteGate};
use crate::number;
use crate::table;
use crate::text;
use crate::text::Class;
use vstd::prelude::*;

verus! {

/// How much an alert matters.
#[derive(Clone, Copy, Debug, PartialEq, Eq, Structural)]
pub enum Severity {
    Info,
    Warning,
}

impl Severity {
    /// The word that is stored.
    pub open spec fn text(self) -> Seq<char> {
        match self {
            Severity::Info => "info"@,
            Severity::Warning => "warning"@,
        }
    }

    /// The word that is stored.
    pub fn as_str(self) -> (r: &'static str)
        ensures
            r@ == self.text(),
    {
        match self {
            Severity::Info => "info",
            Severity::Warning => "warning",
        }
    }

    /// The priority of a push: 3 is the usual one, and 4 makes a phone notice.
    pub fn ntfy_priority(self) -> (r: &'static str)
        ensures
            r@ == (match self {
                Severity::Info => "3"@,
                Severity::Warning => "4"@,
            }),
    {
        match self {
            Severity::Info => "3",
            Severity::Warning => "4",
        }
    }

    /// The sign of a push.
    pub fn ntfy_tag(self) -> (r: &'static str)
        ensures
            r@ == (match self {
                Severity::Info => "bulb"@,
                Severity::Warning => "warning"@,
            }),
    {
        match self {
            Severity::Info => "bulb",
            Severity::Warning => "warning",
        }
    }
}

/// Something that is worth interrupting somebody for.
#[derive(Debug)]
pub struct Alert {
    pub kind: &'static str,
    pub severity: Severity,
    /// What the alert is about: a hardware address or the address of a client.
    pub subject: String,
    pub title: String,
    pub detail: String,
}

/// The model of an alert.
#[verifier::ext_equal]
pub struct AlertView {
    pub kind: Seq<char>,
    pub severity: Severity,
    pub subject: Seq<char>,
    pub title: Seq<char>,
    pub detail: Seq<char>,
}

impl View for Alert {
    type V = AlertView;

    open spec fn view(&self) -> AlertView {
        AlertView {
            kind: self.kind@,
            severity: self.severity,
            subject: self.subject@,
            title: self.title@,
            detail: self.detail@,
        }
    }
}

/// The contents of a text that may be missing.
pub open spec fn str_view(s: Option<&str>) -> Option<Seq<char>> {
    match s {
        Some(t) => Some(t@),
        None => None,
    }
}

/// A text, or another one if it is missing.
pub open spec fn text_or(s: Option<Seq<char>>, other: Seq<char>) -> Seq<char> {
    match s {
        Some(t) => t,
        None => other,
    }
}

/// The alert about a new device.
pub open spec fn about_device(
    mac: Seq<char>,
    hostname: Option<Seq<char>>,
    vendor: Option<Seq<char>>,
) -> AlertView {
    AlertView {
        kind: "new_device"@,
        severity: Severity::Info,
        subject: mac,
        title: "New device on the network"@,
        detail: text_or(hostname, "an unnamed device"@) + " ("@ + text_or(
            vendor,
            "unknown vendor"@,
        ) + ") — "@ + mac,
    }
}

/// The alert about a client that asks for many names which do not exist.
pub open spec fn about_storm(client: Seq<char>, count: i64, window_mins: u32) -> AlertView {
    AlertView {
        kind: "nxdomain_storm"@,
        severity: Severity::Warning,
        subject: client,
        title: "Unusual NXDOMAIN volume"@,
        detail: client + " got "@ + number::decimal(count as int) + " NXDOMAIN answers in "@
            + number::decimal(window_mins as int)
            + " minutes. That is the usual shape of malware looking for a command-and-control host, though a broken app can do it too."@,
    }
}

impl Alert {
    /// A device was seen for the first time. The text names it, so that nobody has to
    /// look it up.
    pub fn new_device(mac: &str, hostname: Option<&str>, vendor: Option<&str>) -> (r: Alert)
        ensures
            r@ == about_device(mac@, str_view(hostname), str_view(vendor)),
    {
        let who = match hostname {
            Some(h) => h,
            None => "an unnamed device",
        };
        let make = match vendor {
            Some(v) => v,
            None => "unknown vendor",
        };
        let mut detail = who.to_string();
        detail.append(" (");
        detail.append(make);
        detail.append(") — ");
        detail.append(mac);
        Alert {
            kind: "new_device",
            severity: Severity::Info,
            subject: mac.to_string(),
            title: "New device on the network".to_string(),
            detail,
        }
    }

    /// A client asked for many names that do not exist.
    pub fn nxdomain_storm(client: &str, count: i64, window_mins: u32) -> (r: Alert)
        ensures
            r@ == about_storm(client@, count, window_mins),
    {
        let mut detail = client.to_string();
        detail.append(" got ");
        number::push_decimal(&mut detail, count);
        detail.append(" NXDOMAIN answers in ");
        number::push_decimal(&mut detail, window_mins as i64);
        detail.append(
            " minutes. That is the usual shape of malware looking for a command-and-control host, though a broken app can do it too.",
        );
        Alert {
            kind: "nxdomain_storm",
            severity: Severity::Warning,
            subject: client.to_string(),
            title: "Unusual NXDOMAIN volume".to_string(),
            detail,
        }
    }

    /// What is stored of an alert, and whether it was pushed. It is stored in either
    /// case, so that a push which fails loses nothing.
    pub fn to_op(&self, notified: bool, ts: i64) -> (r: WriteOp)
        ensures
            r@ == stored_alert(self@, notified, ts),
    {
        WriteOp::Alert {
            ts,
            kind: self.kind.to_string(),
            severity: self.severity.as_str().to_string(),
            subject: self.subject.clone(),
            detail: self.detail.clone(),
            notified,
        }
    }
}

/// What is stored of an alert.
pub open spec fn stored_alert(a: AlertView, notified: bool, ts: i64) -> OpView {
    OpView::Alert {
        ts,
        kind: a.kind,
        severity: a.severity.text(),
        subject: a.subject,
        detail: a.detail,
        notified,
    }
}

/// The alert that something to be stored calls for: a device that was never stored
/// before is new.
pub open spec fn called_for(stored: Map<Seq<char>, StoredView>, op: OpView) -> Option<AlertView> {
    match op {
        OpView::Device { mac, hostname, vendor, .. } => if stored.contains_key(mac) {
            None
        } else {
            Some(about_device(mac, hostname, vendor))
        },
        _ => None,
    }
}

/// Tells which alert something to be stored calls for.
pub fn newcomer(stored: &WriteGate, op: &WriteOp) -> (r: Option<Alert>)
    ensures
        alert_view(r) == called_for(stored@, op@),
{
    match op {
        WriteOp::Device { mac, hostname, vendor, .. } => {
            if stored.knows(mac.as_str()) {
                None
            } else {
                Some(
                    Alert::new_device(
                        mac.as_str(),
                        match hostname {
                            Some(h) => Some(h.as_str()),
                            None => None,
                        },
                        match vendor {
                            Some(v) => Some(v.as_str()),
                            None => None,
                        },
                    ),
                )
            }
        },
        _ => None,
    }
}

/// A device is only ever new once: when it has been stored, or was read from the
/// database at the start, nothing about it calls for an alert.
pub proof fn a_known_device_is_not_new(
    stored: Map<Seq<char>, StoredView>,
    last: StoredView,
    mac: Seq<char>,
    next: StoredView,
)
    ensures
        called_for(
            stored.insert(mac, last),
            (OpView::Device {
                mac,
                ip: next.ip,
                hostname: next.hostname,
                vendor: next.vendor,
                randomized: next.randomized,
                ts: next.ts,
            }),
        ) is None,
{
}

struct Slot {
    kind: String,
    subject: String,
    at: u64,
}

/// How many conditions are remembered before the old ones are forgotten.
pub const REMEMBERED: usize = 4096;

/// Lets each alert through once, until it has cooled down.
pub struct AlertSink {
    cooldown_ms: u64,
    slots: Vec<Slot>,
}

/// The milliseconds from `last` to `now`.
pub open spec fn since(last: u64, now: u64) -> int {
    if now < last {
        0
    } else {
        now - last
    }
}

/// When each condition, by kind and subject, was last let through.
pub type Conditions = Map<(Seq<char>, Seq<char>), u64>;

/// The conditions that have not cooled down.
pub open spec fn hot(m: Conditions, cooldown_ms: u64, now: u64) -> Conditions {
    m.restrict(
        Set::new(
            |k: (Seq<char>, Seq<char>)| m.contains_key(k) && since(m[k], now) < cooldown_ms,
        ),
    )
}

/// Whether a condition has cooled down, or never was let through.
pub open spec fn cool(m: Conditions, cooldown_ms: u64, key: (Seq<char>, Seq<char>), now: u64) -> bool {
    !m.contains_key(key) || since(m[key], now) >= cooldown_ms
}

/// The conditions after one was let through. Where there are too many, those that
/// have cooled down are forgotten.
pub open spec fn let_through(
    m: Conditions,
    cooldown_ms: u64,
    key: (Seq<char>, Seq<char>),
    now: u64,
) -> Conditions {
    if m.dom().len() > REMEMBERED {
        hot(m, cooldown_ms, now).insert(key, now)
    } else {
        m.insert(key, now)
    }
}

/// An alert that may be missing.
pub open spec fn alert_view(a: Option<Alert>) -> Option<AlertView> {
    match a {
        Some(a) => Some(a@),
        None => None,
    }
}

/// The pair under which an alert cools down.
pub open spec fn condition(a: AlertView) -> (Seq<char>, Seq<char>) {
    (a.kind, a.subject)
}

impl AlertSink {
    spec fn pairs(v: Seq<Slot>) -> Seq<((Seq<char>, Seq<char>), u64)> {
        v.map_values(|s: Slot| ((s.kind@, s.subject@), s.at))
    }

    /// When each condition was last let through.
    pub closed spec fn view(&self) -> Conditions {
        table::table(Self::pairs(self.slots@))
    }

    /// For how long a condition has to cool down.
    pub closed spec fn cooldown(&self) -> u64 {
        self.cooldown_ms
    }

    /// No condition is remembered twice.
    pub closed spec fn wf(&self) -> bool {
        table::distinct(Self::pairs(self.slots@))
    }

    /// Nothing was let through yet.
    pub fn with_cooldown(cooldown_ms: u64) -> (r: AlertSink)
        ensures
            r.wf(),
            r.cooldown() == cooldown_ms,
            r@ == Conditions::empty(),
    {
        let r = AlertSink { cooldown_ms, slots: Vec::new() };
        assert(Self::pairs(r.slots@) =~= seq![]);
        r
    }

    /// Sets alerting up, unless it is disabled.
    pub fn new(cfg: &AlertConfig) -> (r: Option<AlertSink>)
        ensures
            match r {
                Some(s) => cfg.enabled && s.wf() && s.cooldown() == cfg.cooldown_mins * 60_000 && s@
                    == Conditions::empty(),
                None => !cfg.enabled,
            },
    {
        if cfg.enabled {
            Some(AlertSink::with_cooldown(cfg.cooldown_mins as u64 * 60_000))
        } else {
            None
        }
    }

    fn find(&self, kind: &str, subject: &str) -> (r: Option<usize>)
        requires
            self.wf(),
        ensures
            match r {
                Some(i) => i < self.slots@.len() && self.slots@[i as int].kind@ == kind@
                    && self.slots@[i as int].subject@ == subject@ && self@.contains_key(
                    (kind@, subject@),
                ) && self@[(kind@, subject@)] == self.slots@[i as int].at,
                None => !self@.contains_key((kind@, subject@)),
            },
    {
        let ghost p = Self::pairs(self.slots@);
        proof {
            table::lemma_table(p);
        }
        let k = text::chars_of(kind);
        let s = text::chars_of(subject);
        let mut i: usize = 0;
        while i < self.slots.len()
            invariant
                i <= self.slots@.len(),
                p == Self::pairs(self.slots@),
                k@ == kind@,
                s@ == subject@,
                forall|j: int|
                    0 <= j < p.len() ==> table::table(p).contains_key((#[trigger] p[j]).0)
                        && table::table(p)[p[j].0] == p[j].1,
                forall|j: int| 0 <= j < i ==> (#[trigger] p[j]).0 != (kind@, subject@),
            decreases self.slots@.len() - i,
        {
            assert(p[i as int] == (
                (self.slots@[i as int].kind@, self.slots@[i as int].subject@),
                self.slots@[i as int].at,
            ));
            if text::is_text(s.as_slice(), self.slots[i].subject.as_str()) && text::is_text(
                k.as_slice(),
                self.slots[i].kind.as_str(),
            ) {
                return Some(i);
            }
            i += 1;
        }
        None
    }

    fn forget_cool(&mut self, now: u64)
        requires
            old(self).wf(),
        ensures
            final(self).wf(),
            final(self).cooldown() == old(self).cooldown(),
            final(self)@ == hot(old(self)@, old(self).cooldown(), now),
    {
        let ghost cooldown = self.cooldown_ms;
        let ghost want = hot(old(self)@, cooldown, now);
        let mut i: usize = 0;
        while i < self.slots.len()
            invariant
                i <= self.slots@.len(),
                self.wf(),
                self.cooldown_ms == cooldown,
                hot(self@, cooldown, now) == want,
                forall|j: int|
                    0 <= j < i ==> since((#[trigger] self.slots@[j]).at, now) < cooldown,
            decreases self.slots@.len() - i,
        {
            let at: u64 = self.slots[i].at;
            let elapsed: u64 = if now < at {
                0
            } else {
                now - at
            };
            if elapsed < self.cooldown_ms {
                i += 1;
            } else {
                let ghost before = self@;
                let ghost p = Self::pairs(self.slots@);
                let ghost v = self.slots@;
                self.slots.swap_remove(i);
                proof {
                    table::lemma_table(p);
                    table::lemma_swap_remove(p, i as int);
                    assert(Self::pairs(self.slots@) =~= p.update(i as int, p.last()).drop_last());
                    assert(before[p[i as int].0] == at);
                    assert(hot(self@, cooldown, now) =~= hot(before, cooldown, now));
                    assert forall|j: int| 0 <= j < i implies since(
                        (#[trigger] self.slots@[j]).at,
                        now,
                    ) < cooldown by {
                        assert(self.slots@[j] == v[j]);
                    }
                }
            }
        }
        proof {
            let p = Self::pairs(self.slots@);
            table::lemma_table(p);
            assert forall|k: (Seq<char>, Seq<char>)| #[trigger] self@.contains_key(k) implies since(
                self@[k],
                now,
            ) < cooldown by {
                let j = choose|j: int| 0 <= j < p.len() && (#[trigger] p[j]).0 == k;
                assert(p[j].1 == self.slots@[j].at);
            }
            assert(hot(self@, cooldown, now) =~= self@);
        }
    }

    /// Tells whether a condition has cooled down, and if so takes note of it.
    pub fn take_cooldown_slot(&mut self, kind: &str, subject: &str, now: u64) -> (r: bool)
        requires
            old(self).wf(),
        ensures
            final(self).wf(),
            final(self).cooldown() == old(self).cooldown(),
            r == cool(old(self)@, old(self).cooldown(), (kind@, subject@), now),
            final(self)@ == (if r {
                let_through(old(self)@, old(self).cooldown(), (kind@, subject@), now)
            } else {
                old(self)@
            }),
    {
        if let Some(i) = self.find(kind, subject) {
            let at: u64 = self.slots[i].at;
            let elapsed: u64 = if now < at {
                0
            } else {
                now - at
            };
            if elapsed < self.cooldown_ms {
                return false;
            }
        }
        proof {
            table::lemma_table(Self::pairs(self.slots@));
        }
        if self.slots.len() > REMEMBERED {
            self.forget_cool(now);
        }
        let ghost p = Self::pairs(self.slots@);
        match self.find(kind, subject) {
            Some(i) => {
                self.slots[i].at = now;
                proof {
                    table::lemma_update(p, i as int, now);
                    assert(Self::pairs(self.slots@) =~= p.update(i as int, (p[i as int].0, now)));
                }
            },
            None => {
                self.slots.push(Slot { kind: kind.to_string(), subject: subject.to_string(), at: now });
                proof {
                    table::lemma_push(p, (kind@, subject@), now);
                    assert(Self::pairs(self.slots@) =~= p.push(((kind@, subject@), now)));
                }
            },
        }
        true
    }

    /// Lets an alert through, unless the same condition was let through a while ago.
    /// A condition that lasts would otherwise be reported again and again.
    pub fn raise(&mut self, alert: Alert, now: u64) -> (r: Option<Alert>)
        requires
            old(self).wf(),
        ensures
            final(self).wf(),
            final(self).cooldown() == old(self).cooldown(),
            if cool(old(self)@, old(self).cooldown(), condition(alert@), now) {
                &&& alert_view(r) == Some(alert@)
                &&& final(self)@ == let_through(
                    old(self)@,
                    old(self).cooldown(),
                    condition(alert@),
                    now,
                )
            } else {
                r is None && final(self)@ == old(self)@
            },
    {
        if self.take_cooldown_slot(alert.kind, alert.subject.as_str(), now) {
            Some(alert)
        } else {
            None
        }
    }
}

/// Where alerts are pushed to, if anywhere.
pub fn push_target(cfg: &AlertConfig) -> (r: Option<String>)
    ensures
        match r {
            Some(url) => url@ == text::trim(cfg.ntfy_url@, Class::White) && url@.len() > 0,
            None => text::trim(cfg.ntfy_url@, Class::White).len() == 0,
        },
{
    let chars = text::chars_of(cfg.ntfy_url.as_str());
    let url = text::strip(chars.as_slice(), Class::White);
    if url.len() == 0 {
        None
    } else {
        Some(text::string_of(url))
    }
}

/// A condition that lasts is reported once: after it was let through, it is not let
/// through again before it has cooled down.
pub proof fn a_lasting_condition_is_reported_once(
    m: Conditions,
    cooldown_ms: u64,
    key: (Seq<char>, Seq<char>),
    first: u64,
    again: u64,
)
    requires
        since(first, again) < cooldown_ms,
    ensures
        !cool(let_through(m, cooldown_ms, key, first), cooldown_ms, key, again),
{
}

/// A condition that has cooled down is reported again.
pub proof fn a_condition_cools_down(
    m: Conditions,
    cooldown_ms: u64,
    key: (Seq<char>, Seq<char>),
    first: u64,
    again: u64,
)
    requires
        since(first, again) >= cooldown_ms,
    ensures
        cool(let_through(m, cooldown_ms, key, first), cooldown_ms, key, again),
{
}

/// Conditions of another kind or about another subject make no difference.
pub proof fn conditions_are_kept_apart(
    m: Conditions,
    cooldown_ms: u64,
    key: (Seq<char>, Seq<char>),
    other: (Seq<char>, Seq<char>),
    first: u64,
    again: u64,
)
    requires
        key != other,
        first <= again,
    ensures
        cool(let_through(m, cooldown_ms, key, first), cooldown_ms, other, again) == cool(
            m,
            cooldown_ms,
            other,
            again,
        ),
{
}

/// The conditions after those of a history were raised one after the other, each with
/// its time, from a sink that is new.
pub open spec fn after_all(
    cooldown_ms: u64,
    history: Seq<((Seq<char>, Seq<char>), u64)>,
) -> Conditions
    decreases history.len(),
{
    if history.len() == 0 {
        Conditions::empty()
    } else {
        let m = after_all(cooldown_ms, history.drop_last());
        let (key, now) = history.last();
        if cool(m, cooldown_ms, key, now) {
            let_through(m, cooldown_ms, key, now)
        } else {
            m
        }
    }
}

/// Whether the condition at one place of a history is let through.
pub open spec fn passed(
    cooldown_ms: u64,
    history: Seq<((Seq<char>, Seq<char>), u64)>,
    i: int,
) -> bool {
    cool(after_all(cooldown_ms, history.take(i)), cooldown_ms, history[i].0, history[i].1)
}

/// Over a whole history a condition is let through exactly if it was not let through
/// less than the cooldown before, whatever else was raised. The clock must not go back.
pub proof fn the_cooldown_holds_over_a_history(
    cooldown_ms: u64,
    history: Seq<((Seq<char>, Seq<char>), u64)>,
    j: int,
)
    requires
        0 <= j < history.len(),
        forall|a: int, b: int|
            0 <= a <= b < history.len() ==> (#[trigger] history[a]).1 <= (#[trigger] history[b]).1,
    ensures
        passed(cooldown_ms, history, j) <==> forall|i: int|
            0 <= i < j && (#[trigger] history[i]).0 == history[j].0 && passed(
                cooldown_ms,
                history,
                i,
            ) ==> history[j].1 - history[i].1 >= cooldown_ms,
{
    lemma_cool_after(cooldown_ms, history, j, history[j].0, history[j].1);
}

proof fn lemma_cool_after(
    cooldown_ms: u64,
    history: Seq<((Seq<char>, Seq<char>), u64)>,
    n: int,
    key: (Seq<char>, Seq<char>),
    now: u64,
)
    requires
        0 <= n <= history.len(),
        forall|a: int, b: int|
            0 <= a <= b < history.len() ==> (#[trigger] history[a]).1 <= (#[trigger] history[b]).1,
        forall|a: int| 0 <= a < n ==> (#[trigger] history[a]).1 <= now,
    ensures
        cool(after_all(cooldown_ms, history.take(n)), cooldown_ms, key, now) <==> forall|i: int|
            0 <= i < n && (#[trigger] history[i]).0 == key && passed(cooldown_ms, history, i) ==> now
                - history[i].1 >= cooldown_ms,
    decreases n,
{
    if n > 0 {
        let m = after_all(cooldown_ms, history.take(n - 1));
        let (k, at) = history[n - 1];
        assert(history.take(n).drop_last() =~= history.take(n - 1));
        assert(history.take(n).last() == history[n - 1]);
        lemma_cool_after(cooldown_ms, history, n - 1, key, now);
        if passed(cooldown_ms, history, n - 1) {
            if k == key {
                assert forall|i: int| 0 <= i < n && now - at >= cooldown_ms implies now - (
                #[trigger] history[i]).1 >= cooldown_ms by {
                    assert(history[i].1 <= history[n - 1].1);
                }
            } else {
                conditions_are_kept_apart(m, cooldown_ms, k, key, at, now);
            }
        }
    }
}

} // verus!
