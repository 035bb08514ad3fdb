//! What holds of settings, of requests to the dashboard, and of alerts.

use crate::addr::IpAddr;
use crate::alerts;
use crate::alerts::{AlertView, Severity};
use crate::api;
use crate::config;
use crate::config::{Config, ErrorView, Overrides};
use crate::db::OpView;
use crate::devices::StoredView;
use crate::dns::acl;
use crate::number;
use crate::text;
use crate::text::Class;
use vstd::prelude::*;

verus! {

/// The secret of a dashboard that others can reach has at least 16 characters.
pub open spec fn is_guarded(c: Config) -> bool {
    c.web.listen.ip.loopback() || (c.web.admin_token is Some && text::trim(
        c.web.admin_token->0@,
        Class::White,
    ).len() >= 16)
}

/// Alerts are pushed nowhere, or over HTTP.
pub open spec fn pushes_over_http(c: Config) -> bool {
    let url = text::trim(c.alerts.ntfy_url@, Class::White);
    url.len() == 0 || "http://"@.is_prefix_of(url) || "https://"@.is_prefix_of(url)
}

/// The server starts if and only if nothing is wrong with its settings: there is somebody
/// to ask, every rule can be read, the limits leave room, each address is of its family,
/// the dashboard is guarded, alerts go over HTTP, a storm is something, and blocked names
/// are answered in one of two ways.
pub proof fn settings_are_valid_when_nothing_is_wrong(c: Config)
    ensures
        config::config_error(c) is None <==> {
            &&& c.dns.upstreams@.len() > 0
            &&& forall|i: int|
                0 <= i < c.dns.allow_from@.len() ==> acl::rule_of(
                    (#[trigger] c.dns.allow_from@[i])@,
                ) is Ok
            &&& c.dns.max_udp_in_flight > 0
            &&& c.dns.max_tcp_connections > 0
            &&& c.dns.listen_v6 matches Some(a) ==> a.ip is V6
            &&& is_guarded(c)
            &&& pushes_over_http(c)
            &&& c.alerts.nxdomain_threshold > 0
            &&& c.alerts.nxdomain_window_mins > 0
            &&& c.blocking.mode@ == "zero_ip"@ || c.blocking.mode@ == "nxdomain"@
        },
{
    let entries = text::strings(c.dns.allow_from@);
    lemma_bad_entry(entries);
    assert(config::bad_entry(entries) is None <==> forall|i: int|
        0 <= i < c.dns.allow_from@.len() ==> acl::rule_of((#[trigger] c.dns.allow_from@[i])@) is Ok)
        by {
        if config::bad_entry(entries) is None {
            assert forall|i: int| 0 <= i < c.dns.allow_from@.len() implies acl::rule_of(
                (#[trigger] c.dns.allow_from@[i])@,
            ) is Ok by {
                assert(acl::rule_of(entries[i]) is Ok);
            }
        } else if forall|i: int|
            0 <= i < c.dns.allow_from@.len() ==> acl::rule_of(
                (#[trigger] c.dns.allow_from@[i])@,
            ) is Ok {
            assert forall|i: int| 0 <= i < entries.len() implies acl::rule_of(
                #[trigger] entries[i],
            ) is Ok by {
                assert(acl::rule_of(c.dns.allow_from@[i]@) is Ok);
            }
        }
    }
}

proof fn lemma_bad_entry(entries: Seq<Seq<char>>)
    ensures
        config::bad_entry(entries) is None <==> forall|i: int|
            0 <= i < entries.len() ==> acl::rule_of(#[trigger] entries[i]) is Ok,
        config::bad_entry(entries) matches Some((entry, cause)) ==> entries.contains(entry)
            && acl::rule_of(entry) == Err::<acl::Rule, acl::CidrError>(cause),
    decreases entries.len(),
{
    if entries.len() > 0 {
        let rest = entries.drop_first();
        lemma_bad_entry(rest);
        if config::bad_entry(entries) is None {
            assert forall|i: int| 0 <= i < entries.len() implies acl::rule_of(
                #[trigger] entries[i],
            ) is Ok by {
                if i > 0 {
                    assert(acl::rule_of(rest[i - 1]) is Ok);
                }
            }
        } else {
            if acl::rule_of(entries[0]) is Ok {
                let bad = config::bad_entry(rest)->0;
                let j = rest.index_of(bad.0);
                assert(entries[j + 1] == bad.0);
            } else {
                let bad = config::bad_entry(entries)->0;
                assert(entries[0] == bad.0);
            }
            if forall|i: int| 0 <= i < entries.len() ==> acl::rule_of(#[trigger] entries[i]) is Ok {
                assert(acl::rule_of(entries[0]) is Ok);
                assert forall|i: int| 0 <= i < rest.len() implies acl::rule_of(
                    #[trigger] rest[i],
                ) is Ok by {
                    assert(acl::rule_of(entries[i + 1]) is Ok);
                }
            }
        }
    }
}

/// What is said to be wrong is wrong.
pub proof fn what_is_said_to_be_wrong_is_wrong(c: Config)
    ensures
        match config::config_error(c) {
            None => true,
            Some(ErrorView::NoUpstreams) => c.dns.upstreams@.len() == 0,
            Some(ErrorView::AllowFrom(entry, cause)) => text::strings(
                c.dns.allow_from@,
            ).contains(entry) && acl::rule_of(entry) == Err::<acl::Rule, acl::CidrError>(cause),
            Some(ErrorView::ZeroLimit) => c.dns.max_udp_in_flight == 0 || c.dns.max_tcp_connections
                == 0,
            Some(ErrorView::ListenV6(a)) => c.dns.listen_v6 == Some(a) && a.ip is V4,
            Some(ErrorView::AdminToken(a)) => c.web.listen == a && !is_guarded(c),
            Some(ErrorView::NtfyUrl) => !pushes_over_http(c),
            Some(ErrorView::Storm) => c.alerts.nxdomain_threshold == 0
                || c.alerts.nxdomain_window_mins == 0,
            Some(ErrorView::Mode(m)) => c.blocking.mode@ == m && m != "zero_ip"@ && m
                != "nxdomain"@,
        },
{
    lemma_bad_entry(text::strings(c.dns.allow_from@));
}

/// What is given on the command line takes the place of what the file says, and nothing
/// else changes.
pub proof fn the_command_line_wins(c: Config, o: Overrides)
    ensures
        ({
            let d = config::overridden(c, o);
            &&& d.dns.listen == (if o.dns_listen is Some {
                o.dns_listen->0
            } else {
                c.dns.listen
            })
            &&& d.web.listen == (if o.web_listen is Some {
                o.web_listen->0
            } else {
                c.web.listen
            })
            &&& d.storage.database == (if o.database is Some {
                o.database->0
            } else {
                c.storage.database
            })
            &&& d.dns.listen_v6 == c.dns.listen_v6
            &&& d.dns.enable_tcp == c.dns.enable_tcp
            &&& d.dns.allow_from == c.dns.allow_from
            &&& d.dns.upstreams == c.dns.upstreams
            &&& d.dns.upstream_timeout_ms == c.dns.upstream_timeout_ms
            &&& d.dns.upstream_udp_payload == c.dns.upstream_udp_payload
            &&& d.dns.max_udp_in_flight == c.dns.max_udp_in_flight
            &&& d.dns.max_tcp_connections == c.dns.max_tcp_connections
            &&& d.dns.request_timeout_ms == c.dns.request_timeout_ms
            &&& d.dns.cache == c.dns.cache
            &&& d.dns.cache_max_entries == c.dns.cache_max_entries
            &&& d.dns.cache_min_ttl == c.dns.cache_min_ttl
            &&& d.dns.cache_max_ttl == c.dns.cache_max_ttl
            &&& d.web.admin_token == c.web.admin_token
            &&& d.storage.retention_days == c.storage.retention_days
            &&& d.storage.flush_interval_ms == c.storage.flush_interval_ms
            &&& d.discovery == c.discovery
            &&& d.blocking == c.blocking
            &&& d.alerts == c.alerts
        }),
{
}

/// A file that is missing is no error, one that cannot be read is, and otherwise the
/// settings decide, with the command line taken into account.
pub proof fn a_file_is_judged_by_its_settings(path: Seq<char>, c: Config, e: String, o: Overrides)
    ensures
        config::verdict(path, None, o).0,
        config::verdict(path, Some(Err(e)), o) == (
            false,
            "config INVALID: "@ + path + "\n\n"@ + e@,
        ),
        config::verdict(path, Some(Ok(c)), o).0 <==> config::config_error(
            config::overridden(c, o),
        ) is None,
        config::verdict(path, Some(Ok(c)), o).0 ==> config::verdict(path, Some(Ok(c)), o).1
            == "config OK: "@ + path,
{
}

/// A file lies in its directory, with one slash between them.
pub proof fn a_file_lies_in_its_directory(dir: Seq<char>, name: Seq<char>)
    requires
        dir.len() > 0,
        dir.last() != '/',
    ensures
        config::path_join(dir, name) == dir + seq!['/'] + name,
        config::path_join(dir.push('/'), name) == dir + seq!['/'] + name,
        config::path_join(seq![], name) == name,
{
    assert(dir.push('/') + name =~= dir + seq!['/'] + name);
    assert(Seq::<char>::empty() + name =~= name);
}

/// Where no token is set anybody may change something. Where one is set, exactly the
/// request that carries it may.
pub proof fn a_token_is_asked_for_where_one_is_set(
    token: Seq<char>,
    given: Seq<char>,
    header: Option<Seq<char>>,
)
    ensures
        api::may_change(None, header),
        !api::may_change(Some(token), None),
        api::may_change(Some(token), Some("Bearer "@ + given)) <==> given == token,
        !api::may_change(Some(token), Some(given)) || "Bearer "@.is_prefix_of(given),
{
    let h = "Bearer "@ + given;
    let n = "Bearer "@.len() as int;
    assert(h.skip(n) =~= given);
    assert(("Bearer "@ + token).skip(n) =~= token);
    assert(("Bearer "@ + token).take(n) =~= "Bearer "@);
}

/// A text of a filter counts unless there is nothing in it but white space.
pub proof fn an_empty_filter_is_none(s: Seq<char>)
    ensures
        api::wanted(None) is None,
        api::wanted(Some(s)) == (if exists|i: int| 0 <= i < s.len() && !text::is_white(#[trigger] s[i]) {
            Some(s)
        } else {
            None
        }),
        forall|n: int, other: int| #[trigger] api::or(Some(n), other) == n,
        forall|other: int| #[trigger] api::or(None, other) == other,
{
    lemma_trimmed_to_nothing(s);
}

proof fn lemma_trimmed_to_nothing(s: Seq<char>)
    ensures
        text::trim(s, Class::White).len() == 0 <==> forall|i: int|
            0 <= i < s.len() ==> text::is_white(#[trigger] s[i]),
{
    let t = text::trim_start(s, Class::White);
    text::lemma_trim_start(s, Class::White);
    crate::blocklist::lemma_trim_end(t, Class::White);
    if t.len() > 0 {
        let k = s.len() - t.len();
        assert(s[k] == t[0]);
        assert(!text::is_white(s[k]));
        let u = text::trim_end(t, Class::White);
        if u.len() == 0 {
            assert(text::member(Class::White, t[0]));
        }
    } else {
        assert forall|i: int| 0 <= i < s.len() implies text::is_white(#[trigger] s[i]) by {
            assert(text::member(Class::White, s[i]));
        }
        assert(text::trim(s, Class::White).len() == 0);
    }
}

/// The alert about a new device is about its hardware address, and names it in its text.
pub proof fn an_alert_about_a_device_names_it(
    mac: Seq<char>,
    hostname: Option<Seq<char>>,
    vendor: Option<Seq<char>>,
)
    ensures
        ({
            let a = alerts::about_device(mac, hostname, vendor);
            let who = if hostname is Some {
                hostname->0
            } else {
                "an unnamed device"@
            };
            let make = if vendor is Some {
                vendor->0
            } else {
                "unknown vendor"@
            };
            &&& a.kind == "new_device"@
            &&& a.severity == Severity::Info
            &&& a.subject == mac
            &&& a.title == "New device on the network"@
            &&& a.detail == who + " ("@ + make + ") — "@ + mac
        }),
{
}

/// The alert about a storm is about the client, and tells how many answers in how long.
pub proof fn an_alert_about_a_storm_tells_how_many(client: Seq<char>, count: i64, mins: u32)
    ensures
        ({
            let a = alerts::about_storm(client, count, mins);
            let says = client + " got "@ + number::decimal(count as int) + " NXDOMAIN answers in "@
                + number::decimal(mins as int) + " minutes. "@;
            &&& a.kind == "nxdomain_storm"@
            &&& a.severity == Severity::Warning
            &&& a.subject == client
            &&& a.title == "Unusual NXDOMAIN volume"@
            &&& says.is_prefix_of(a.detail)
        }),
{
    let a = alerts::about_storm(client, count, mins);
    let head = client + " got "@ + number::decimal(count as int) + " NXDOMAIN answers in "@
        + number::decimal(mins as int);
    let says = head + " minutes. "@;
    reveal_strlit(" minutes. ");
    reveal_strlit(
        " minutes. That is the usual shape of malware looking for a command-and-control host, though a broken app can do it too.",
    );
    assert(a.detail.take(says.len() as int) =~= says);
}

/// What is stored of an alert is what it says, when, and whether it was pushed.
pub proof fn an_alert_is_stored_as_it_was_raised(a: AlertView, notified: bool, ts: i64)
    ensures
        alerts::stored_alert(a, notified, ts) == (OpView::Alert {
            ts,
            kind: a.kind,
            severity: if a.severity == Severity::Info {
                "info"@
            } else {
                "warning"@
            },
            subject: a.subject,
            detail: a.detail,
            notified,
        }),
{
}

/// Only a device that was never stored calls for an alert, and that alert is about it.
pub proof fn only_a_new_device_calls_for_an_alert(stored: Map<Seq<char>, StoredView>, op: OpView)
    ensures
        match op {
            OpView::Device { mac, hostname, vendor, .. } => {
                &&& alerts::called_for(stored, op) is Some <==> !stored.contains_key(mac)
                &&& alerts::called_for(stored, op) matches Some(a) ==> a.subject == mac && a
                    == alerts::about_device(mac, hostname, vendor)
            },
            _ => alerts::called_for(stored, op) is None,
        },
{
}

/// An alert is let through if and only if none of its kind about its subject was let
/// through less than a cooldown ago.
pub proof fn an_alert_waits_for_its_cooldown(
    m: Map<(Seq<char>, Seq<char>), u64>,
    cooldown: u64,
    a: AlertView,
    now: u64,
)
    ensures
        alerts::condition(a) == (a.kind, a.subject),
        alerts::cool(m, cooldown, alerts::condition(a), now) <==> {
            ||| !m.contains_key((a.kind, a.subject))
            ||| now >= m[(a.kind, a.subject)] && now - m[(a.kind, a.subject)] >= cooldown
            ||| cooldown == 0
        },
        ({
            let after = alerts::let_through(m, cooldown, alerts::condition(a), now);
            &&& after.contains_key((a.kind, a.subject))
            &&& after[(a.kind, a.subject)] == now
            &&& forall|k: (Seq<char>, Seq<char>)|
                k != (a.kind, a.subject) && #[trigger] after.contains_key(k) ==> m.contains_key(k)
                    && after[k] == m[k]
            &&& m.dom().len() <= 4096 ==> forall|k: (Seq<char>, Seq<char>)|
                #[trigger] m.contains_key(k) ==> after.contains_key(k)
            &&& forall|k: (Seq<char>, Seq<char>)|
                #[trigger] m.contains_key(k) && (now < m[k] || now - m[k] < cooldown) && cooldown
                    > 0 ==> after.contains_key(k)
        }),
{
}

/// What is set where nothing is said.
pub proof fn what_is_set_where_nothing_is_said(c: Config)
    requires
        config::default_config(c),
    ensures
        c.dns.listen.ip == IpAddr::V4(crate::addr::Ipv4Addr { bits: 0 }) && c.dns.listen.port == 53,
        c.dns.listen_v6 is None,
        c.dns.enable_tcp,
        c.dns.allow_from@.len() == 2 && c.dns.allow_from@[0]@ == "loopback"@
            && c.dns.allow_from@[1]@ == "private"@,
        c.dns.upstreams@.len() == 2 && c.dns.upstreams@[0].ip == IpAddr::V4(
            crate::addr::Ipv4Addr { bits: 0x0101_0101 },
        ) && c.dns.upstreams@[1].ip == IpAddr::V4(crate::addr::Ipv4Addr { bits: 0x0909_0909 })
            && c.dns.upstreams@[0].port == 53 && c.dns.upstreams@[1].port == 53,
        c.dns.upstream_timeout_ms == 2500,
        c.dns.upstream_udp_payload == 1232,
        c.dns.max_udp_in_flight == 128,
        c.dns.max_tcp_connections == 64,
        c.dns.request_timeout_ms == 10_000,
        c.dns.cache && c.dns.cache_max_entries == 20_000 && c.dns.cache_min_ttl == 30
            && c.dns.cache_max_ttl == 86_400,
        c.web.listen.ip == IpAddr::V4(crate::addr::Ipv4Addr { bits: 0x7f00_0001 })
            && c.web.listen.port == 8080 && c.web.admin_token is None,
        c.storage.database@ == "/var/lib/netwatch/netwatch.db"@ && c.storage.retention_days == 14
            && c.storage.flush_interval_ms == 750,
        c.discovery.arp && c.discovery.arp_interval_secs == 15 && c.discovery.mdns
            && !c.discovery.dhcp && c.discovery.sweep && c.discovery.sweep_interval_secs == 120
            && c.discovery.reverse_dns && c.discovery.subnet is None && c.discovery.oui_file is None,
        c.blocking.enabled && c.blocking.mode@ == "zero_ip"@ && c.blocking.files@.len() == 0
            && c.blocking.refresh_hours == 24 && c.blocking.disable_firefox_doh
            && c.blocking.state_dir@ == "/var/lib/netwatch"@ && c.blocking.sources@.len() == 1,
        c.alerts.enabled && c.alerts.ntfy_url@.len() == 0 && c.alerts.cooldown_mins == 60
            && c.alerts.nxdomain_threshold == 50 && c.alerts.nxdomain_window_mins == 10
            && c.alerts.scan_interval_secs == 300,
{
    let entries = text::strings(c.dns.allow_from@);
    assert(entries.len() == 2);
    assert(entries.len() == c.dns.allow_from@.len());
    assert(entries[0] == c.dns.allow_from@[0]@ && entries[1] == c.dns.allow_from@[1]@);
    assert(text::strings(c.blocking.sources@).len() == c.blocking.sources@.len());
}

/// The number by which a list is filed follows from each byte of its address in turn.
pub proof fn a_list_is_filed_by_every_byte_of_its_address(bytes: Seq<u8>, b: u8)
    ensures
        config::fnv(seq![]) == 0xcbf2_9ce4_8422_2325,
        config::fnv(bytes.push(b)) == (config::fnv(bytes) ^ b as u64).wrapping_mul(
            0x100_0000_01b3,
        ),
{
    assert(bytes.push(b).drop_last() =~= bytes);
}

/// What is said about settings that are wrong names the setting and what it is set to.
pub proof fn a_message_names_what_is_wrong(
    entry: Seq<char>,
    cause: acl::CidrError,
    a: crate::addr::SocketAddr,
    mode: Seq<char>,
)
    ensures
        ("dns.allow_from entry "@ + text::quoted(entry)).is_prefix_of(
            ErrorView::AllowFrom(entry, cause).text(),
        ),
        ("web.listen is "@ + a.text()).is_prefix_of(ErrorView::AdminToken(a).text()),
        ErrorView::Mode(mode).text() == "blocking.mode must be \"zero_ip\" or \"nxdomain\", got "@
            + text::quoted(mode),
        ErrorView::NoUpstreams.text() == "dns.upstreams must not be empty"@,
        ErrorView::ListenV6(a).text()
            == "dns.listen_v6 must be an IPv6 address such as \"[::]:53\", got "@ + a.text()
            + ". Use dns.listen for the IPv4 listener."@,
{
    let t = ErrorView::AllowFrom(entry, cause).text();
    let p = "dns.allow_from entry "@ + text::quoted(entry);
    assert(t.take(p.len() as int) =~= p);
    let u = ErrorView::AdminToken(a).text();
    let q = "web.listen is "@ + a.text();
    assert(u.take(q.len() as int) =~= q);
}

} // verus!
