//! What the requests of the dashboard ask for.

use crate::addr::SocketAddr;
use crate::blocklist::{Blocklist, SourceStat};
use crate::config::Config;
use crate::db;
use crate::db::{DeviceRow, QueryFilter};
use crate::dns::{Resolver, Stats};
use crate::netinfo::{DefaultRoute, Subnet};
use crate::text;
use crate::text::Class;
use vstd::prelude::*;

verus! {

/// A text that is not blank. Blank ones arrive from form fields that were cleared.
pub open spec fn wanted(s: Option<Seq<char>>) -> Option<Seq<char>> {
    match s {
        Some(t) => if text::trim(t, Class::White).len() == 0 {
            None
        } else {
            Some(t)
        },
        None => None,
    }
}

fn keep_wanted(s: Option<String>) -> (r: Option<String>)
    ensures
        db::opt(r) == wanted(db::opt(s)),
{
    match s {
        Some(t) => {
            let blank = {
                let chars = text::chars_of(t.as_str());
                text::strip(chars.as_slice(), Class::White).len() == 0
            };
            if blank {
                None
            } else {
                Some(t)
            }
        },
        None => None,
    }
}

/// A number, or another one if it is missing.
pub open spec fn or(n: Option<int>, other: int) -> int {
    match n {
        Some(n) => n,
        None => other,
    }
}

/// An optional number as an integer.
pub open spec fn small(n: Option<u32>) -> Option<int> {
    match n {
        Some(n) => Some(n as int),
        None => None,
    }
}

/// An optional number as an integer.
pub open spec fn large(n: Option<i64>) -> Option<int> {
    match n {
        Some(n) => Some(n as int),
        None => None,
    }
}

/// How many alerts a request asks for: a hundred, unless it says.
pub fn alert_limit(limit: Option<u32>) -> (r: u32)
    ensures
        r == or(small(limit), 100),
{
    match limit {
        Some(n) => n,
        None => 100,
    }
}

/// Which rows of the query log a request asks for: a hundred from the start, and
/// never more than a thousand.
pub fn query_filter(
    limit: Option<u32>,
    offset: Option<u32>,
    search: Option<String>,
    client: Option<String>,
    status: Option<String>,
) -> (r: QueryFilter)
    ensures
        r.limit == db::clamped(or(small(limit), 100), 1, 1000),
        r.offset == or(small(offset), 0),
        db::opt(r.search) == wanted(db::opt(search)),
        db::opt(r.client) == wanted(db::opt(client)),
        db::opt(r.status) == wanted(db::opt(status)),
{
    let n: u32 = match limit {
        Some(n) => n,
        None => 100,
    };
    QueryFilter {
        limit: if n < 1 {
            1
        } else if n > 1000 {
            1000
        } else {
            n
        },
        offset: match offset {
            Some(n) => n,
            None => 0,
        },
        search: keep_wanted(search),
        client: keep_wanted(client),
        status: keep_wanted(status),
    }
}

/// The range of a ranking: the hours that it covers, and its length.
pub fn ranking(hours: Option<i64>, limit: Option<u32>) -> (r: (i64, u32))
    ensures
        r.0 == or(large(hours), 24),
        r.1 == or(small(limit), 15),
{
    (
        match hours {
            Some(h) => h,
            None => 24,
        },
        match limit {
            Some(n) => n,
            None => 15,
        },
    )
}

/// The range of a chart: the hours that it covers, at most thirty days, and the
/// seconds of one of its points, of which there are about a hundred and twenty.
pub fn chart(hours: Option<i64>) -> (r: (i64, i64))
    ensures
        r.0 == db::clamped(or(large(hours), 24), 1, 720),
        r.1 == (if r.0 * 30 < 60 {
            60
        } else {
            r.0 * 30
        }),
{
    let h: i64 = match hours {
        Some(h) => h,
        None => 24,
    };
    let hours: i64 = if h < 1 {
        1
    } else if h > 720 {
        720
    } else {
        h
    };
    let bucket: i64 = hours * 3600 / 120;
    (
        hours,
        if bucket < 60 {
            60
        } else {
            bucket
        },
    )
}

/// The minutes that the throughput samples of a request cover, at most a day.
pub fn sample_minutes(minutes: Option<i64>) -> (r: i64)
    ensures
        r == db::clamped(or(large(minutes), 30), 1, 1440),
{
    let m: i64 = match minutes {
        Some(m) => m,
        None => 30,
    };
    if m < 1 {
        1
    } else if m > 1440 {
        1440
    } else {
        m
    }
}

/// Whether a request may change something: where a token is set, it carries the
/// token.
pub open spec fn may_change(token: Option<Seq<char>>, header: Option<Seq<char>>) -> bool {
    match token {
        None => true,
        Some(t) => header == Some("Bearer "@ + t),
    }
}

/// Tells whether a request may change something, given the token that is set and the
/// `Authorization` header of the request. Where no token is set, the dashboard is
/// reached from this machine only.
pub fn authorized(token: Option<&str>, header: Option<&str>) -> (r: bool)
    ensures
        r == may_change(
            match token {
                Some(t) => Some(t@),
                None => None,
            },
            match header {
                Some(h) => Some(h@),
                None => None,
            },
        ),
{
    match token {
        None => true,
        Some(t) => match header {
            None => false,
            Some(h) => {
                let mut want = "Bearer ".to_string();
                want.append(t);
                text::is_text(text::chars_of(h).as_slice(), want.as_str())
            },
        },
    }
}

/// How the way out of the network is shown.
pub fn gateway_text(route: &DefaultRoute) -> (r: String)
    ensures
        r@ == route.gateway.text() + " via "@ + route.iface@,
{
    let mut out = route.gateway.to_text();
    out.append(" via ");
    out.append(route.iface.as_str());
    out
}

/// A device that resolved no more names than this in a day may well resolve them
/// elsewhere.
pub const BYPASS_QUERY_THRESHOLD: i64 = 5;

/// The places of the devices that may resolve names elsewhere.
pub fn bypass_suspects(rows: &Vec<DeviceRow>) -> (r: Vec<usize>)
    ensures
        forall|k: int| 0 <= k < r@.len() ==> (#[trigger] r@[k]) < rows@.len(),
        forall|k: int, l: int| 0 <= k < l < r@.len() ==> (#[trigger] r@[k]) < (#[trigger] r@[l]),
        forall|i: int|
            0 <= i < rows@.len() ==> (r@.contains(i as usize) <==> (
            #[trigger] rows@[i]).queries_24h <= BYPASS_QUERY_THRESHOLD),
        forall|i: int|
            0 <= i < rows@.len() ==> (r@.contains(i as usize) <==> (
            #[trigger] rows@[i]).queries_24h <= 5),
{
    let mut out: Vec<usize> = Vec::new();
    let mut i: usize = 0;
    while i < rows.len()
        invariant
            i <= rows@.len(),
            forall|k: int| 0 <= k < out@.len() ==> (#[trigger] out@[k]) < i,
            forall|k: int, l: int|
                0 <= k < l < out@.len() ==> (#[trigger] out@[k]) < (#[trigger] out@[l]),
            forall|j: int|
                0 <= j < i ==> (out@.contains(j as usize) <==> (#[trigger] rows@[j]).queries_24h
                    <= BYPASS_QUERY_THRESHOLD),
        decreases rows@.len() - i,
    {
        let ghost before = out@;
        if rows[i].queries_24h <= BYPASS_QUERY_THRESHOLD {
            out.push(i);
        }
        assert forall|j: int| 0 <= j < i + 1 implies (out@.contains(j as usize) <==> (
        #[trigger] rows@[j]).queries_24h <= BYPASS_QUERY_THRESHOLD) by {
            if j < i {
                if before.contains(j as usize) {
                    let k = choose|k: int| 0 <= k < before.len() && before[k] == j as usize;
                    assert(out@[k] == j as usize);
                }
                if out@.contains(j as usize) {
                    let k = choose|k: int| 0 <= k < out@.len() && out@[k] == j as usize;
                    assert(k < before.len());
                    assert(before[k] == j as usize);
                }
            } else {
                if rows@[j].queries_24h <= BYPASS_QUERY_THRESHOLD {
                    assert(out@[before.len() as int] == i);
                } else if out@.contains(j as usize) {
                    let k = choose|k: int| 0 <= k < out@.len() && out@[k] == j as usize;
                    assert(out@[k] < i);
                }
            }
        }
        i += 1;
    }
    out
}

/// The state of the server, as the dashboard shows it.
#[derive(Debug)]
pub struct Status {
    pub dns_listen: String,
    pub upstreams: Vec<String>,
    pub allow_from: Vec<String>,
    pub blocking_enabled: bool,
    pub blocking_mode: String,
    pub blocked_domains: usize,
    pub blocklist_sources: Vec<SourceStat>,
    pub cache_entries: usize,
    pub stats: Stats,
    pub gateway: Option<String>,
    pub lan_subnet: Option<String>,
}

/// Addresses as texts.
pub open spec fn address_texts(v: Seq<SocketAddr>) -> Seq<Seq<char>> {
    v.map_values(|a: SocketAddr| a.text())
}

fn address_strings(v: &Vec<SocketAddr>) -> (r: Vec<String>)
    ensures
        text::strings(r@) == address_texts(v@),
{
    let mut out: Vec<String> = Vec::new();
    let mut i: usize = 0;
    while i < v.len()
        invariant
            i <= v@.len(),
            out@.len() == i,
            forall|j: int| 0 <= j < i ==> (#[trigger] out@[j])@ == v@[j].text(),
        decreases v@.len() - i,
    {
        out.push(v[i].to_text());
        i += 1;
    }
    assert(text::strings(out@) =~= address_texts(v@));
    out
}

fn copy_strings(v: &Vec<String>) -> (r: Vec<String>)
    ensures
        text::strings(r@) == text::strings(v@),
{
    let mut out: Vec<String> = Vec::new();
    let mut i: usize = 0;
    while i < v.len()
        invariant
            i <= v@.len(),
            out@.len() == i,
            forall|j: int| 0 <= j < i ==> (#[trigger] out@[j])@ == v@[j]@,
        decreases v@.len() - i,
    {
        out.push(v[i].clone());
        i += 1;
    }
    assert(text::strings(out@) =~= text::strings(v@));
    out
}

/// Puts together what the dashboard shows of the server: how it is configured, what
/// it has done, and where it is on the network. The token of the dashboard is not
/// among it.
pub fn status(
    cfg: &Config,
    resolver: &Resolver,
    blocklist: &Blocklist,
    route: Option<&DefaultRoute>,
    lan: Option<Subnet>,
) -> (r: Status)
    requires
        resolver.wf(),
    ensures
        r.dns_listen@ == cfg.dns.listen.text(),
        text::strings(r.upstreams@) == address_texts(cfg.dns.upstreams@),
        text::strings(r.allow_from@) == text::strings(cfg.dns.allow_from@),
        r.blocking_enabled == cfg.blocking.enabled,
        r.blocking_mode@ == cfg.blocking.mode@,
        r.blocked_domains == blocklist@.blocked_count(),
        r.blocklist_sources@.map_values(|s: SourceStat| s@) == blocklist@.sources,
        r.cache_entries == resolver@.cache.dom().len(),
        r.stats == resolver@.stats,
        db::opt(r.gateway) == (match route {
            Some(d) => Some(d.gateway.text() + " via "@ + d.iface@),
            None => None,
        }),
        db::opt(r.lan_subnet) == (match lan {
            Some(s) => Some(s.text()),
            None => None,
        }),
{
    Status {
        dns_listen: cfg.dns.listen.to_text(),
        upstreams: address_strings(&cfg.dns.upstreams),
        allow_from: copy_strings(&cfg.dns.allow_from),
        blocking_enabled: cfg.blocking.enabled,
        blocking_mode: cfg.blocking.mode.clone(),
        blocked_domains: blocklist.len(),
        blocklist_sources: blocklist.source_stats(),
        cache_entries: resolver.cache_len(),
        stats: resolver.stats(),
        gateway: match route {
            Some(d) => Some(gateway_text(d)),
            None => None,
        },
        lan_subnet: match lan {
            Some(s) => Some(s.to_text()),
            None => None,
        },
    }
}

} // verus!
