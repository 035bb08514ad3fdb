use netwatch::addr::{IpAddr, SocketAddr};
use netwatch::config::{check_config, Config, ConfigError, Overrides};

fn addr(ip: &str, port: u16) -> SocketAddr {
    SocketAddr { ip: IpAddr::from_text(ip).unwrap(), port }
}

#[test]
fn ipv6_listening_is_off_by_default() {
    let c = Config::default();
    assert!(
        c.dns.listen_v6.is_none(),
        "a second listener is an opt-in: most home networks hand out IPv4 DNS only"
    );
    assert!(c.validate().is_ok());
}

#[test]
fn an_ipv4_address_in_listen_v6_is_refused_with_the_fix() {
    // Easy typo, and the failure mode without this check is two sockets racing for
    // the same port, which is much harder to read than a startup error.
    let mut c = Config::default();
    c.dns.listen_v6 = Some(addr("0.0.0.0", 53));
    let msg = c.validate().unwrap_err().message();
    assert!(msg.contains("listen_v6"), "names the offending key: {msg}");
    assert!(msg.contains("dns.listen"), "points at the fix: {msg}");
}

#[test]
fn a_real_ipv6_listener_validates() {
    let mut c = Config::default();
    c.dns.listen_v6 = Some(addr("::", 53));
    assert!(c.validate().is_ok());
}

fn cfg(ip: &str, token: Option<&str>) -> Config {
    let mut c = Config::default();
    c.web.listen = addr(ip, 8080);
    c.web.admin_token = token.map(|t| t.to_string());
    c
}

#[test]
fn the_default_dashboard_is_loopback_only() {
    let c = Config::default();
    assert!(
        c.web.listen.ip.is_loopback(),
        "a dashboard that can rewrite DNS policy must not default to the LAN"
    );
    assert!(c.validate().is_ok(), "and needs no token to work locally");
}

#[test]
fn exposing_the_dashboard_without_a_token_is_refused_at_startup() {
    let msg = cfg("0.0.0.0", None).validate().unwrap_err().message();
    assert!(msg.contains("admin_token"), "must name the missing setting: {msg}");
    assert!(msg.contains("openssl rand"), "and say how to fix it: {msg}");

    // A token too short to be worth anything is not a token.
    assert!(cfg("0.0.0.0", Some("hunter2")).validate().is_err());
    assert!(cfg("192.168.1.5", Some("   ")).validate().is_err());
}

#[test]
fn exposing_the_dashboard_with_a_real_token_is_allowed() {
    let c = cfg("0.0.0.0", Some("0123456789abcdef0123456789abcdef"));
    assert!(c.validate().is_ok());
}

#[test]
fn a_token_on_loopback_is_honoured_rather_than_ignored() {
    // Setting one locally is a deliberate choice; it must still apply.
    let c = cfg("127.0.0.1", Some("0123456789abcdef0123456789abcdef"));
    assert!(c.validate().is_ok());
    assert!(c.web.admin_token.is_some());
}

fn none() -> Overrides {
    Overrides { dns_listen: None, web_listen: None, database: None }
}

#[test]
fn the_defaults_pass_the_check() {
    let v = check_config("/etc/netwatch/config.toml", Some(Ok(Config::default())), none());
    assert!(v.ok);
    assert!(v.message.contains("config OK"), "expected a readable verdict");
}

#[test]
fn a_duplicate_key_fails_with_a_nonzero_exit() {
    let v = check_config("c.toml", Some(Err("duplicate key".to_string())), none());
    assert!(!v.ok);
    assert!(v.message.contains("duplicate key"), "must say what is wrong: {}", v.message);
    assert!(v.message.contains("INVALID"), "must be greppable as a failure: {}", v.message);
}

#[test]
fn a_semantically_invalid_config_also_fails() {
    let v = check_config("c.toml", Some(Ok(cfg("0.0.0.0", None))), none());
    assert!(!v.ok);
    assert!(v.message.contains("admin_token"), "must name the key: {}", v.message);
}

#[test]
fn a_missing_file_says_so_rather_than_claiming_ok() {
    let v = check_config("nowhere.toml", None, none());
    assert!(v.ok, "defaults are a valid configuration");
    assert!(v.message.contains("not found"), "must distinguish: {}", v.message);
}

#[test]
fn what_is_checked_is_what_a_start_would_use() {
    let o = Overrides {
        dns_listen: Some(addr("127.0.0.1", 5353)),
        web_listen: Some(addr("0.0.0.0", 8080)),
        database: Some("/tmp/x.db".to_string()),
    };
    assert!(!check_config("c.toml", Some(Ok(Config::default())), o).ok);
    let mut c = Config::default();
    c.apply_overrides(Overrides {
        dns_listen: Some(addr("127.0.0.1", 5353)),
        web_listen: None,
        database: Some("/tmp/x.db".to_string()),
    });
    assert_eq!(c.dns.listen.to_text(), "127.0.0.1:5353");
    assert_eq!(c.storage.database, "/tmp/x.db");
    assert_eq!(c.web.listen.to_text(), "127.0.0.1:8080");
}

#[test]
fn each_reason_not_to_start_is_told_apart() {
    let mut c = Config::default();
    c.dns.upstreams.clear();
    assert!(matches!(c.validate(), Err(ConfigError::NoUpstreams)));
    let mut c = Config::default();
    c.dns.allow_from = vec!["not-a-subnet".to_string()];
    assert!(matches!(c.validate(), Err(ConfigError::AllowFrom(_))));
    let mut c = Config::default();
    c.dns.max_tcp_connections = 0;
    assert!(matches!(c.validate(), Err(ConfigError::ZeroLimit)));
    let mut c = Config::default();
    c.blocking.mode = "null".to_string();
    let e = c.validate().unwrap_err();
    assert_eq!(e.message(), "blocking.mode must be \"zero_ip\" or \"nxdomain\", got \"null\"");
    let mut c = Config::default();
    c.alerts.ntfy_url = "ftp://ntfy.example".to_string();
    assert!(matches!(c.validate(), Err(ConfigError::NtfyUrl)));
    let mut c = Config::default();
    c.alerts.nxdomain_threshold = 0;
    assert!(matches!(c.validate(), Err(ConfigError::Storm)));
}

#[test]
fn lists_live_in_the_state_directory() {
    let c = Config::default();
    assert_eq!(c.manual_deny_path(), "/var/lib/netwatch/deny.list");
    assert_eq!(c.manual_allow_path(), "/var/lib/netwatch/allow.list");
    let a = c.cached_list_path("https://a.example/list");
    let b = c.cached_list_path("https://b.example/list");
    assert!(a.starts_with("/var/lib/netwatch/lists/"));
    assert!(a.ends_with(".list"));
    assert_ne!(a, b);
}

#[test]
fn the_defaults_are_the_documented_ones() {
    let c = Config::default();
    assert_eq!(c.dns.listen.to_text(), "0.0.0.0:53");
    assert_eq!(c.web.listen.to_text(), "127.0.0.1:8080");
    assert_eq!(c.dns.allow_from, ["loopback", "private"]);
    assert_eq!(c.dns.upstream_udp_payload, 1232);
    assert_eq!(c.dns.cache_max_entries, 20_000);
    assert_eq!((c.dns.cache_min_ttl, c.dns.cache_max_ttl), (30, 86_400));
    assert_eq!(c.storage.retention_days, 14);
    assert_eq!(c.storage.flush_interval_ms, 750);
    assert!(!c.discovery.dhcp);
    assert!(c.blocking.disable_firefox_doh);
    assert_eq!(c.blocking.mode, "zero_ip");
}

#[test]
fn listeners_and_intervals() {
    let mut c = Config::default();
    assert_eq!(c.dns_listeners().len(), 1);
    assert_eq!(c.dns_listeners()[0].to_text(), "0.0.0.0:53");
    c.dns.listen_v6 = Some(netwatch::addr::SocketAddr {
        ip: netwatch::addr::IpAddr::from_text("::").unwrap(),
        port: 53,
    });
    assert_eq!(c.dns_listeners()[1].to_text(), "[::]:53");
    assert_eq!(c.arp_interval(), 15);
    c.discovery.arp_interval_secs = 1;
    assert_eq!(c.arp_interval(), 5);
    c.discovery.sweep_interval_secs = 0;
    assert_eq!(c.sweep_interval(), 30);
    c.discovery.sweep_interval_secs = 900;
    assert_eq!(c.sweep_interval(), 900);
    assert_eq!(c.refresh_interval(), Some(86_400));
    c.blocking.refresh_hours = u64::MAX;
    assert_eq!(c.refresh_interval(), Some(u64::MAX));
    c.blocking.refresh_hours = 0;
    assert_eq!(c.refresh_interval(), None);
    c.blocking.refresh_hours = 1;
    c.blocking.enabled = false;
    assert_eq!(c.refresh_interval(), None);
}
