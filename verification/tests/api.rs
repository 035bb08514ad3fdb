use netwatch::addr::Ipv4Addr;
use netwatch::api::{
    alert_limit, authorized, bypass_suspects, chart, gateway_text, query_filter, ranking, sample_minutes, status,
};
use netwatch::blocklist::{build, ListText};
use netwatch::config::Config;
use netwatch::db::DeviceRow;
use netwatch::dns::Resolver;
use netwatch::netinfo::{DefaultRoute, Subnet};

#[test]
fn a_filter_has_bounds_and_no_blanks() {
    let f = query_filter(None, None, Some("  ".to_string()), Some("192.168.1.5".to_string()), None);
    assert_eq!((f.limit, f.offset), (100, 0));
    assert!(f.search.is_none());
    assert_eq!(f.client.as_deref(), Some("192.168.1.5"));
    assert_eq!(query_filter(Some(0), Some(7), None, None, None).limit, 1);
    assert_eq!(query_filter(Some(99_999), Some(7), None, None, None).limit, 1000);
    assert_eq!(query_filter(Some(5), Some(7), None, None, None).offset, 7);
}

#[test]
fn ranges_have_defaults() {
    assert_eq!(ranking(None, None), (24, 15));
    assert_eq!((alert_limit(None), alert_limit(Some(7))), (100, 7));
    assert_eq!(ranking(Some(1), Some(3)), (1, 3));
    assert_eq!(chart(None), (24, 720));
    assert_eq!(chart(Some(0)), (1, 60));
    assert_eq!(chart(Some(100_000)), (720, 21_600));
    assert_eq!(sample_minutes(None), 30);
    assert_eq!(sample_minutes(Some(-4)), 1);
    assert_eq!(sample_minutes(Some(9999)), 1440);
}

#[test]
fn a_token_guards_what_changes_something() {
    assert!(authorized(None, None));
    assert!(!authorized(Some("secret-secret-16"), None));
    assert!(!authorized(Some("secret-secret-16"), Some("Bearer secret")));
    assert!(!authorized(Some("secret-secret-16"), Some("secret-secret-16")));
    assert!(authorized(Some("secret-secret-16"), Some("Bearer secret-secret-16")));
}

#[test]
fn the_way_out_is_shown() {
    let r = DefaultRoute { iface: "eth0".to_string(), gateway: Ipv4Addr::new(192, 168, 1, 1) };
    assert_eq!(gateway_text(&r), "192.168.1.1 via eth0");
}

fn row(queries: i64) -> DeviceRow {
    DeviceRow {
        mac: "aa".to_string(),
        ip: None,
        hostname: None,
        vendor: None,
        randomized: false,
        first_seen: 0,
        last_seen: 0,
        queries_24h: queries,
        blocked_24h: 0,
    }
}

#[test]
fn quiet_devices_are_suspects() {
    assert_eq!(bypass_suspects(&vec![row(0), row(6), row(5), row(900)]), [0, 2]);
}

#[test]
fn the_status_tells_what_is_in_effect() {
    let cfg = Config::default();
    let lan = Subnet::parse_cidr("192.168.1.0/24").unwrap();
    let mut resolver = Resolver::new(&cfg, Some(lan));
    assert!(!resolver.allows(netwatch::addr::IpAddr::from_text("8.8.8.8").unwrap()));
    let lists = [ListText {
        name: "mine".to_string(),
        contents: "ads.example.com\n*.tracker.net\n".to_string(),
        allow: false,
    }];
    let bl = build(true, &lists);
    let route =
        DefaultRoute { iface: "eth0".to_string(), gateway: Ipv4Addr::new(192, 168, 1, 1) };
    let s = status(&cfg, &resolver, &bl, Some(&route), Some(lan));
    assert_eq!(s.dns_listen, "0.0.0.0:53");
    assert_eq!(s.upstreams, ["1.1.1.1:53", "9.9.9.9:53"]);
    assert_eq!(s.allow_from, ["loopback", "private"]);
    assert!(s.blocking_enabled);
    assert_eq!(s.blocking_mode, "zero_ip");
    assert_eq!(s.blocked_domains, 2);
    assert_eq!(s.blocklist_sources.len(), 1);
    assert_eq!((s.blocklist_sources[0].name.as_str(), s.blocklist_sources[0].entries), ("mine", 2));
    assert_eq!(s.cache_entries, 0);
    assert_eq!((s.stats.total, s.stats.denied), (0, 1));
    assert_eq!(s.gateway.as_deref(), Some("192.168.1.1 via eth0"));
    assert_eq!(s.lan_subnet.as_deref(), Some("192.168.1.0/24"));
}
