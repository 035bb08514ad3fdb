//! The configuration: its defaults, what is refused, and the paths that follow
//! from it.

use crate::addr::{IpAddr, Ipv4Addr, SocketAddr};
use crate::dns::acl;
use crate::dns::acl::{Acl, AclError, CidrError, Rule};
use crate::number;
use crate::text;
use crate::text::Class;
use vstd::prelude::*;

verus! {

/// Everything that can be configured.
#[derive(Debug)]
pub struct Config {
    pub dns: DnsConfig,
    pub web: WebConfig,
    pub storage: StorageConfig,
    pub discovery: DiscoveryConfig,
    pub blocking: BlockingConfig,
    pub alerts: AlertConfig,
}

/// The DNS server.
#[derive(Debug)]
pub struct DnsConfig {
    /// Address to serve DNS on.
    pub listen: SocketAddr,
    /// One more address to serve DNS on, of IPv6.
    pub listen_v6: Option<SocketAddr>,
    /// Also answer DNS over TCP.
    pub enable_tcp: bool,
    /// Which clients may query us.
    pub allow_from: Vec<String>,
    /// Upstream resolvers, tried in order on failure.
    pub upstreams: Vec<SocketAddr>,
    /// How long to wait for an upstream before trying the next one.
    pub upstream_timeout_ms: u64,
    /// Largest UDP answer that we ask an upstream for, in bytes.
    pub upstream_udp_payload: u16,
    /// Most DNS requests handled at once over UDP. Past this, packets are dropped.
    pub max_udp_in_flight: usize,
    /// Most simultaneous DNS connections over TCP.
    pub max_tcp_connections: usize,
    /// Ceiling on one request, across every upstream attempt.
    pub request_timeout_ms: u64,
    /// Keep answers.
    pub cache: bool,
    /// Most answers that are kept.
    pub cache_max_entries: usize,
    /// Answers with a shorter TTL than this many seconds are not kept.
    pub cache_min_ttl: u32,
    /// No answer is kept for longer than this many seconds.
    pub cache_max_ttl: u32,
}

/// The dashboard.
#[derive(Debug)]
pub struct WebConfig {
    /// Address of the dashboard.
    pub listen: SocketAddr,
    /// The secret that the endpoints which change something ask for.
    pub admin_token: Option<String>,
}

/// The database.
#[derive(Debug)]
pub struct StorageConfig {
    pub database: String,
    /// Query log rows older than this are dropped.
    pub retention_days: u32,
    /// Writes are gathered for this long before they are committed.
    pub flush_interval_ms: u64,
}

/// How devices are found and named.
#[derive(Debug)]
pub struct DiscoveryConfig {
    /// Poll the kernel's neighbour table.
    pub arp: bool,
    pub arp_interval_secs: u64,
    /// Listen for mDNS announcements.
    pub mdns: bool,
    /// Listen for DHCP requests. Off, because a second socket on the port can take
    /// datagrams from a DHCP server of the same user.
    pub dhcp: bool,
    /// Nudge every address of the LAN.
    pub sweep: bool,
    pub sweep_interval_secs: u64,
    /// Ask for the names of clients that have none.
    pub reverse_dns: bool,
    /// The LAN, in place of the one that is detected.
    pub subnet: Option<String>,
    /// A table of vendors to supplement the built-in one.
    pub oui_file: Option<String>,
}

/// What is blocked, and how.
#[derive(Debug)]
pub struct BlockingConfig {
    pub enabled: bool,
    /// How a blocked name is answered: `zero_ip` or `nxdomain`.
    pub mode: String,
    /// Lists to download.
    pub sources: Vec<String>,
    /// Local lists.
    pub files: Vec<String>,
    /// The lists are downloaded anew this often.
    pub refresh_hours: u64,
    /// Answer that Mozilla's canary domain does not exist, so that Firefox keeps
    /// asking us.
    pub disable_firefox_doh: bool,
    /// Where downloaded lists and the manual lists live.
    pub state_dir: String,
}

/// When somebody is told.
#[derive(Debug)]
pub struct AlertConfig {
    pub enabled: bool,
    /// Where alerts are pushed; empty if nowhere.
    pub ntfy_url: String,
    /// The same alert is not raised again for this long.
    pub cooldown_mins: u32,
    /// So many answers that a name does not exist are a storm.
    pub nxdomain_threshold: u32,
    /// The answers are counted over this long.
    pub nxdomain_window_mins: u32,
    /// How often the query log is looked at.
    pub scan_interval_secs: u64,
}

/// What stops a start.
#[derive(Debug)]
pub enum ConfigError {
    /// There is no upstream.
    NoUpstreams,
    /// An entry of `dns.allow_from` cannot be read.
    AllowFrom(AclError),
    /// A limit is zero.
    ZeroLimit,
    /// The second address to listen on is of IPv4.
    ListenV6(SocketAddr),
    /// The dashboard can be reached from other hosts, without a token worth the
    /// name.
    AdminToken(SocketAddr),
    /// Blocked names cannot be answered like this.
    Mode(String),
    /// Alerts cannot be pushed there.
    NtfyUrl,
    /// A storm of no answers, or over no time.
    Storm,
}

/// `s` as two texts joined by what separates the parts of a path.
pub open spec fn path_join(dir: Seq<char>, name: Seq<char>) -> Seq<char> {
    if dir.len() == 0 || dir.last() == '/' {
        dir + name
    } else {
        dir.push('/') + name
    }
}

/// Appends a relative path to a directory.
pub fn join_path(dir: &str, name: &str) -> (r: String)
    ensures
        r@ == path_join(dir@, name@),
{
    let chars = text::chars_of(dir);
    let mut out = dir.to_string();
    if chars.len() > 0 && chars[chars.len() - 1] != '/' {
        out.push('/');
    }
    out.append(name);
    out
}

/// The hash that names a downloaded list: FNV-1a over the bytes of its address.
pub open spec fn fnv(bytes: Seq<u8>) -> u64
    decreases bytes.len(),
{
    if bytes.len() == 0 {
        0xcbf2_9ce4_8422_2325
    } else {
        (fnv(bytes.drop_last()) ^ bytes.last() as u64).wrapping_mul(0x100_0000_01b3)
    }
}

fn hash_of(bytes: &[u8]) -> (r: u64)
    ensures
        r == fnv(bytes@),
{
    let mut hash: u64 = 0xcbf2_9ce4_8422_2325;
    let mut i: usize = 0;
    assert(bytes@.take(0) =~= seq![]);
    while i < bytes.len()
        invariant
            i <= bytes@.len(),
            hash == fnv(bytes@.take(i as int)),
        decreases bytes@.len() - i,
    {
        hash = (hash ^ bytes[i] as u64).wrapping_mul(0x100_0000_01b3);
        i += 1;
        assert(bytes@.take(i as int).drop_last() =~= bytes@.take(i - 1));
    }
    assert(bytes@.take(i as int) =~= bytes@);
    hash
}

/// The defaults of the DNS server.
pub open spec fn default_dns(c: DnsConfig) -> bool {
    &&& c.listen == (SocketAddr { ip: IpAddr::V4(Ipv4Addr { bits: 0 }), port: 53 })
    &&& c.listen_v6 is None
    &&& c.enable_tcp
    &&& text::strings(c.allow_from@) == seq!["loopback"@, "private"@]
    &&& c.upstreams@ == seq![
        SocketAddr { ip: IpAddr::V4(Ipv4Addr { bits: 0x0101_0101 }), port: 53 },
        SocketAddr { ip: IpAddr::V4(Ipv4Addr { bits: 0x0909_0909 }), port: 53 },
    ]
    &&& c.upstream_timeout_ms == 2500
    &&& c.upstream_udp_payload == 1232
    &&& c.max_udp_in_flight == 128
    &&& c.max_tcp_connections == 64
    &&& c.request_timeout_ms == 10_000
    &&& c.cache
    &&& c.cache_max_entries == 20_000
    &&& c.cache_min_ttl == 30
    &&& c.cache_max_ttl == 86_400
}

impl Default for DnsConfig {
    fn default() -> (r: DnsConfig)
        ensures
            default_dns(r),
    {
        let mut allow_from: Vec<String> = Vec::new();
        allow_from.push("loopback".to_string());
        allow_from.push("private".to_string());
        assert(text::strings(allow_from@) =~= seq!["loopback"@, "private"@]);
        let mut upstreams: Vec<SocketAddr> = Vec::new();
        upstreams.push(SocketAddr { ip: IpAddr::V4(Ipv4Addr { bits: 0x0101_0101 }), port: 53 });
        upstreams.push(SocketAddr { ip: IpAddr::V4(Ipv4Addr { bits: 0x0909_0909 }), port: 53 });
        assert(upstreams@ =~= seq![
            SocketAddr { ip: IpAddr::V4(Ipv4Addr { bits: 0x0101_0101 }), port: 53 },
            SocketAddr { ip: IpAddr::V4(Ipv4Addr { bits: 0x0909_0909 }), port: 53 },
        ]);
        DnsConfig {
            listen: SocketAddr { ip: IpAddr::V4(Ipv4Addr { bits: 0 }), port: 53 },
            listen_v6: None,
            enable_tcp: true,
            allow_from,
            upstreams,
            upstream_timeout_ms: 2500,
            upstream_udp_payload: 1232,
            max_udp_in_flight: 128,
            max_tcp_connections: 64,
            request_timeout_ms: 10_000,
            cache: true,
            cache_max_entries: 20_000,
            cache_min_ttl: 30,
            cache_max_ttl: 86_400,
        }
    }
}

/// The defaults of the dashboard.
pub open spec fn default_web(c: WebConfig) -> bool {
    &&& c.listen == (SocketAddr { ip: IpAddr::V4(Ipv4Addr { bits: 0x7f00_0001 }), port: 8080 })
    &&& c.admin_token is None
}

impl Default for WebConfig {
    fn default() -> (r: WebConfig)
        ensures
            default_web(r),
    {
        WebConfig {
            listen: SocketAddr { ip: IpAddr::V4(Ipv4Addr { bits: 0x7f00_0001 }), port: 8080 },
            admin_token: None,
        }
    }
}

/// The defaults of the database.
pub open spec fn default_storage(c: StorageConfig) -> bool {
    &&& c.database@ == "/var/lib/netwatch/netwatch.db"@
    &&& c.retention_days == 14
    &&& c.flush_interval_ms == 750
}

impl Default for StorageConfig {
    fn default() -> (r: StorageConfig)
        ensures
            default_storage(r),
    {
        StorageConfig {
            database: "/var/lib/netwatch/netwatch.db".to_string(),
            retention_days: 14,
            flush_interval_ms: 750,
        }
    }
}

/// The defaults of discovery.
pub open spec fn default_discovery(c: DiscoveryConfig) -> bool {
    &&& c.arp
    &&& c.arp_interval_secs == 15
    &&& c.mdns
    &&& !c.dhcp
    &&& c.sweep
    &&& c.sweep_interval_secs == 120
    &&& c.reverse_dns
    &&& c.subnet is None
    &&& c.oui_file is None
}

impl Default for DiscoveryConfig {
    fn default() -> (r: DiscoveryConfig)
        ensures
            default_discovery(r),
    {
        DiscoveryConfig {
            arp: true,
            arp_interval_secs: 15,
            mdns: true,
            dhcp: false,
            sweep: true,
            sweep_interval_secs: 120,
            reverse_dns: true,
            subnet: None,
            oui_file: None,
        }
    }
}

/// The defaults of blocking.
pub open spec fn default_blocking(c: BlockingConfig) -> bool {
    &&& c.enabled
    &&& c.mode@ == "zero_ip"@
    &&& text::strings(c.sources@) == seq![
        "https://raw.githubusercontent.com/StevenBlack/hosts/master/hosts"@,
    ]
    &&& c.files@.len() == 0
    &&& c.refresh_hours == 24
    &&& c.disable_firefox_doh
    &&& c.state_dir@ == "/var/lib/netwatch"@
}

impl Default for BlockingConfig {
    fn default() -> (r: BlockingConfig)
        ensures
            default_blocking(r),
    {
        let mut sources: Vec<String> = Vec::new();
        sources.push(
            "https://raw.githubusercontent.com/StevenBlack/hosts/master/hosts".to_string(),
        );
        assert(text::strings(sources@) =~= seq![
            "https://raw.githubusercontent.com/StevenBlack/hosts/master/hosts"@,
        ]);
        BlockingConfig {
            enabled: true,
            mode: "zero_ip".to_string(),
            sources,
            files: Vec::new(),
            refresh_hours: 24,
            disable_firefox_doh: true,
            state_dir: "/var/lib/netwatch".to_string(),
        }
    }
}

/// The defaults of alerts.
pub open spec fn default_alerts(c: AlertConfig) -> bool {
    &&& c.enabled
    &&& c.ntfy_url@.len() == 0
    &&& c.cooldown_mins == 60
    &&& c.nxdomain_threshold == 50
    &&& c.nxdomain_window_mins == 10
    &&& c.scan_interval_secs == 300
}

impl Default for AlertConfig {
    fn default() -> (r: AlertConfig)
        ensures
            default_alerts(r),
    {
        AlertConfig {
            enabled: true,
            ntfy_url: String::new(),
            cooldown_mins: 60,
            nxdomain_threshold: 50,
            nxdomain_window_mins: 10,
            scan_interval_secs: 300,
        }
    }
}

impl Default for Config {
    fn default() -> (r: Config)
        ensures
            default_config(r),
    {
        Config {
            dns: DnsConfig::default(),
            web: WebConfig::default(),
            storage: StorageConfig::default(),
            discovery: DiscoveryConfig::default(),
            blocking: BlockingConfig::default(),
            alerts: AlertConfig::default(),
        }
    }
}

/// The defaults.
pub open spec fn default_config(c: Config) -> bool {
    &&& default_dns(c.dns)
    &&& default_web(c.web)
    &&& default_storage(c.storage)
    &&& default_discovery(c.discovery)
    &&& default_blocking(c.blocking)
    &&& default_alerts(c.alerts)
}

/// The first entry that is neither a keyword nor a network, and what is wrong with
/// it.
pub open spec fn bad_entry(entries: Seq<Seq<char>>) -> Option<(Seq<char>, CidrError)>
    decreases entries.len(),
{
    if entries.len() == 0 {
        None
    } else {
        match acl::rule_of(entries[0]) {
            Err(cause) => Some((entries[0], cause)),
            Ok(_) => bad_entry(entries.drop_first()),
        }
    }
}

/// Whether a secret is long enough to be worth the name.
pub open spec fn token_suffices(token: Option<String>) -> bool {
    token matches Some(t) && text::trim(t@, Class::White).len() >= 16
}

/// Whether alerts can be pushed to `url`.
pub open spec fn is_http(url: Seq<char>) -> bool {
    text::starts_with(url, "http://"@) || text::starts_with(url, "https://"@)
}

/// The model of what stops a start.
#[verifier::ext_equal]
pub enum ErrorView {
    NoUpstreams,
    AllowFrom(Seq<char>, CidrError),
    ZeroLimit,
    ListenV6(SocketAddr),
    AdminToken(SocketAddr),
    Mode(Seq<char>),
    NtfyUrl,
    Storm,
}

impl View for ConfigError {
    type V = ErrorView;

    open spec fn view(&self) -> ErrorView {
        match self {
            ConfigError::NoUpstreams => ErrorView::NoUpstreams,
            ConfigError::AllowFrom(e) => ErrorView::AllowFrom(e.entry@, e.cause),
            ConfigError::ZeroLimit => ErrorView::ZeroLimit,
            ConfigError::ListenV6(a) => ErrorView::ListenV6(*a),
            ConfigError::AdminToken(a) => ErrorView::AdminToken(*a),
            ConfigError::Mode(m) => ErrorView::Mode(m@),
            ConfigError::NtfyUrl => ErrorView::NtfyUrl,
            ConfigError::Storm => ErrorView::Storm,
        }
    }
}

/// What stops a start with this configuration: the first of the conditions that
/// does not hold.
pub open spec fn config_error(c: Config) -> Option<ErrorView> {
    if c.dns.upstreams@.len() == 0 {
        Some(ErrorView::NoUpstreams)
    } else if bad_entry(text::strings(c.dns.allow_from@)) is Some {
        let bad = bad_entry(text::strings(c.dns.allow_from@))->0;
        Some(ErrorView::AllowFrom(bad.0, bad.1))
    } else if c.dns.max_udp_in_flight == 0 || c.dns.max_tcp_connections == 0 {
        Some(ErrorView::ZeroLimit)
    } else if c.dns.listen_v6 matches Some(a) && a.ip is V4 {
        Some(ErrorView::ListenV6(c.dns.listen_v6->0))
    } else if !c.web.listen.ip.loopback() && !token_suffices(c.web.admin_token) {
        Some(ErrorView::AdminToken(c.web.listen))
    } else if text::trim(c.alerts.ntfy_url@, Class::White).len() > 0 && !is_http(
        text::trim(c.alerts.ntfy_url@, Class::White),
    ) {
        Some(ErrorView::NtfyUrl)
    } else if c.alerts.nxdomain_threshold == 0 || c.alerts.nxdomain_window_mins == 0 {
        Some(ErrorView::Storm)
    } else if c.blocking.mode@ != "zero_ip"@ && c.blocking.mode@ != "nxdomain"@ {
        Some(ErrorView::Mode(c.blocking.mode@))
    } else {
        None
    }
}

/// The server starts with the defaults.
pub proof fn the_defaults_are_valid(c: Config)
    requires
        default_config(c),
    ensures
        config_error(c) is None,
{
    let entries = text::strings(c.dns.allow_from@);
    reveal_strlit("loopback");
    reveal_strlit("private");
    assert(text::lower("loopback"@) =~= "loopback"@);
    assert(text::lower("private"@) =~= "private"@);
    assert(acl::rule_of("loopback"@) == Ok::<Rule, CidrError>(Rule::Loopback));
    reveal_strlit("localhost");
    assert(acl::rule_of("private"@) == Ok::<Rule, CidrError>(Rule::Private));
    assert(entries.drop_first().drop_first() =~= seq![]);
    assert(entries.drop_first()[0] == "private"@);
    assert(bad_entry(entries.drop_first().drop_first()) is None);
    assert(bad_entry(entries.drop_first()) is None);
    assert(entries[0] == "loopback"@);
    assert(c.web.listen.ip.loopback());
    assert(text::trim(c.alerts.ntfy_url@, Class::White).len() == 0);
}

/// A dashboard that other hosts can reach needs a token: without one, or with one
/// of fewer than 16 characters, there is no start.
pub proof fn an_exposed_dashboard_needs_a_token(c: Config)
    requires
        !c.web.listen.ip.loopback(),
        !token_suffices(c.web.admin_token),
    ensures
        config_error(c) is Some,
{
}

impl Config {
    /// Checks whether the server can start with this configuration, and tells the
    /// first thing that stops it.
    pub fn validate(&self) -> (r: Result<(), ConfigError>)
        ensures
            match r {
                Ok(_) => config_error(*self) is None,
                Err(e) => config_error(*self) == Some(e@),
            },
    {
        if self.dns.upstreams.len() == 0 {
            return Err(ConfigError::NoUpstreams);
        }
        match Acl::parse(self.dns.allow_from.as_slice()) {
            Err(e) => {
                proof {
                    lemma_bad_entry(self.dns.allow_from@, e.entry@, e.cause);
                }
                return Err(ConfigError::AllowFrom(e));
            },
            Ok(_) => {
                proof {
                    lemma_no_bad_entry(text::strings(self.dns.allow_from@));
                }
            },
        }
        if self.dns.max_udp_in_flight == 0 || self.dns.max_tcp_connections == 0 {
            return Err(ConfigError::ZeroLimit);
        }
        if let Some(a) = self.dns.listen_v6 {
            if let IpAddr::V4(_) = a.ip {
                return Err(ConfigError::ListenV6(a));
            }
        }
        if !self.web.listen.ip.is_loopback() {
            let suffices = match &self.web.admin_token {
                Some(t) => {
                    let chars = text::chars_of(t.as_str());
                    text::strip(chars.as_slice(), Class::White).len() >= 16
                },
                None => false,
            };
            if !suffices {
                return Err(ConfigError::AdminToken(self.web.listen));
            }
        }
        let url = text::chars_of(self.alerts.ntfy_url.as_str());
        let url = text::strip(url.as_slice(), Class::White);
        if url.len() > 0 && !text::has_prefix(url, "http://") && !text::has_prefix(url, "https://") {
            return Err(ConfigError::NtfyUrl);
        }
        if self.alerts.nxdomain_threshold == 0 || self.alerts.nxdomain_window_mins == 0 {
            return Err(ConfigError::Storm);
        }
        let mode = text::chars_of(self.blocking.mode.as_str());
        if !text::is_text(mode.as_slice(), "zero_ip") && !text::is_text(
            mode.as_slice(),
            "nxdomain",
        ) {
            return Err(ConfigError::Mode(self.blocking.mode.clone()));
        }
        Ok(())
    }

    /// Path of the list of domains that people have blocked.
    pub fn manual_deny_path(&self) -> (r: String)
        ensures
            r@ == path_join(self.blocking.state_dir@, "deny.list"@),
    {
        join_path(self.blocking.state_dir.as_str(), "deny.list")
    }

    /// Path of the list of domains that people have allowed.
    pub fn manual_allow_path(&self) -> (r: String)
        ensures
            r@ == path_join(self.blocking.state_dir@, "allow.list"@),
    {
        join_path(self.blocking.state_dir.as_str(), "allow.list")
    }

    /// Where a downloaded list is kept: under a name that follows from its address
    /// alone and suits any file system.
    pub fn cached_list_path(&self, url: &str) -> (r: String)
        ensures
            r@ == path_join(
                self.blocking.state_dir@,
                "lists/"@ + number::hex_padded(fnv(vstd::utf8::encode_utf8(url@)) as int, 16) + ".list"@,
            ),
    {
        let mut name = "lists/".to_string();
        number::push_hex_padded(&mut name, hash_of(url.as_bytes()), 16);
        name.append(".list");
        join_path(self.blocking.state_dir.as_str(), name.as_str())
    }
}

proof fn lemma_no_bad_entry(entries: Seq<Seq<char>>)
    requires
        forall|i: int| 0 <= i < entries.len() ==> acl::rule_of(#[trigger] entries[i]) is Ok,
    ensures
        bad_entry(entries) is None,
    decreases entries.len(),
{
    if entries.len() > 0 {
        let rest = entries.drop_first();
        assert(acl::rule_of(entries[0]) is Ok);
        assert forall|i: int| 0 <= i < rest.len() implies acl::rule_of(#[trigger] rest[i]) is Ok by {
            assert(acl::rule_of(entries[i + 1]) is Ok);
        }
        lemma_no_bad_entry(rest);
    }
}

proof fn lemma_bad_entry(v: Seq<String>, entry: Seq<char>, cause: CidrError)
    requires
        exists|n: int|
            {
                &&& 0 <= n < v.len()
                &&& entry == v[n]@
                &&& #[trigger] acl::rule_of(v[n]@) == Err::<Rule, CidrError>(cause)
                &&& forall|i: int| 0 <= i < n ==> acl::rule_of(#[trigger] v[i]@) is Ok
            },
    ensures
        bad_entry(text::strings(v)) == Some((entry, cause)),
    decreases v.len(),
{
    let n = choose|n: int|
        {
            &&& 0 <= n < v.len()
            &&& entry == v[n]@
            &&& #[trigger] acl::rule_of(v[n]@) == Err::<Rule, CidrError>(cause)
            &&& forall|i: int| 0 <= i < n ==> acl::rule_of(#[trigger] v[i]@) is Ok
        };
    assert(text::strings(v)[0] == v[0]@);
    if n > 0 {
        let rest = v.drop_first();
        assert(rest[n - 1] == v[n]);
        assert(acl::rule_of(rest[n - 1]@) == Err::<Rule, CidrError>(cause));
        assert forall|i: int| 0 <= i < n - 1 implies acl::rule_of(#[trigger] rest[i]@) is Ok by {
            assert(acl::rule_of(v[i + 1]@) is Ok);
        }
        lemma_bad_entry(rest, entry, cause);
        assert(text::strings(rest) =~= text::strings(v).drop_first());
        assert(acl::rule_of(v[0]@) is Ok);
    }
}

impl ErrorView {
    /// What is wrong, for people.
    pub open spec fn text(self) -> Seq<char> {
        match self {
            ErrorView::NoUpstreams => "dns.upstreams must not be empty"@,
            ErrorView::AllowFrom(entry, _) => "dns.allow_from entry "@ + text::quoted(entry)
                + " is not a keyword (loopback/private/any) or a CIDR"@,
            ErrorView::ZeroLimit => {
                "dns.max_udp_in_flight and dns.max_tcp_connections must be greater than zero"@
            },
            ErrorView::ListenV6(a) => {
                "dns.listen_v6 must be an IPv6 address such as \"[::]:53\", got "@ + a.text()
                    + ". Use dns.listen for the IPv4 listener."@
            },
            ErrorView::AdminToken(a) => {
                "web.listen is "@ + a.text()
                    + " (not loopback), so web.admin_token must be set to at least 16 characters. The dashboard can add block rules and flush the DNS cache, so it must not be reachable off-host unauthenticated. Generate one with: openssl rand -hex 32"@
            },
            ErrorView::Mode(m) => {
                "blocking.mode must be \"zero_ip\" or \"nxdomain\", got "@ + text::quoted(m)
            },
            ErrorView::NtfyUrl => "alerts.ntfy_url must start with http:// or https://"@,
            ErrorView::Storm => {
                "alerts.nxdomain_threshold and alerts.nxdomain_window_mins must be greater than zero"@
            },
        }
    }
}

impl ConfigError {
    /// What is wrong, for people.
    pub fn message(&self) -> (r: String)
        ensures
            r@ == self@.text(),
    {
        match self {
            ConfigError::NoUpstreams => "dns.upstreams must not be empty".to_string(),
            ConfigError::AllowFrom(e) => e.message(),
            ConfigError::ZeroLimit => {
                "dns.max_udp_in_flight and dns.max_tcp_connections must be greater than zero".to_string()
            },
            ConfigError::ListenV6(a) => {
                let mut out =
                    "dns.listen_v6 must be an IPv6 address such as \"[::]:53\", got ".to_string();
                a.push_text(&mut out);
                out.append(". Use dns.listen for the IPv4 listener.");
                out
            },
            ConfigError::AdminToken(a) => {
                let mut out = "web.listen is ".to_string();
                a.push_text(&mut out);
                out.append(
                    " (not loopback), so web.admin_token must be set to at least 16 characters. The dashboard can add block rules and flush the DNS cache, so it must not be reachable off-host unauthenticated. Generate one with: openssl rand -hex 32",
                );
                out
            },
            ConfigError::Mode(m) => {
                let mut out =
                    "blocking.mode must be \"zero_ip\" or \"nxdomain\", got ".to_string();
                out.append(text::quote(m.as_str()).as_str());
                out
            },
            ConfigError::NtfyUrl => {
                "alerts.ntfy_url must start with http:// or https://".to_string()
            },
            ConfigError::Storm => {
                "alerts.nxdomain_threshold and alerts.nxdomain_window_mins must be greater than zero".to_string()
            },
        }
    }
}

/// What the command line sets in place of the configuration file.
#[derive(Debug)]
pub struct Overrides {
    pub dns_listen: Option<SocketAddr>,
    pub web_listen: Option<SocketAddr>,
    pub database: Option<String>,
}

/// A configuration with what the command line sets.
pub open spec fn overridden(c: Config, o: Overrides) -> Config {
    Config {
        dns: DnsConfig {
            listen: match o.dns_listen {
                Some(a) => a,
                None => c.dns.listen,
            },
            ..c.dns
        },
        web: WebConfig {
            listen: match o.web_listen {
                Some(a) => a,
                None => c.web.listen,
            },
            ..c.web
        },
        storage: StorageConfig {
            database: match o.database {
                Some(p) => p,
                None => c.storage.database,
            },
            ..c.storage
        },
        ..c
    }
}

impl Config {
    /// Sets what the command line says. A start and a check both do, so that what is
    /// checked is what a start would use.
    pub fn apply_overrides(&mut self, o: Overrides)
        ensures
            *final(self) == overridden(*old(self), o),
    {
        if let Some(a) = o.dns_listen {
            self.dns.listen = a;
        }
        if let Some(a) = o.web_listen {
            self.web.listen = a;
        }
        if let Some(p) = o.database {
            self.storage.database = p;
        }
    }
}

/// What a check of the configuration says, and whether a start would succeed.
#[derive(Debug)]
pub struct Verdict {
    pub ok: bool,
    pub message: String,
}

/// What a check of the configuration file says, given what was read from it, if it
/// is there.
pub open spec fn verdict(
    path: Seq<char>,
    loaded: Option<Result<Config, String>>,
    o: Overrides,
) -> (bool, Seq<char>) {
    match loaded {
        None => (
            true,
            "config not found: "@ + path + " (netwatch would start on built-in defaults)"@,
        ),
        Some(Err(e)) => (false, "config INVALID: "@ + path + "\n\n"@ + e@),
        Some(Ok(c)) => match config_error(overridden(c, o)) {
            None => (true, "config OK: "@ + path),
            Some(e) => (false, "config INVALID: "@ + path + "\n\n"@ + e.text()),
        },
    }
}

/// Tells whether the server would start with a configuration file: what was read
/// from it, if it is there, or why it could not be read. A file that is missing is
/// said to be, though a start would go by the defaults: the path may be mistyped.
pub fn check_config(path: &str, loaded: Option<Result<Config, String>>, o: Overrides) -> (r: Verdict)
    ensures
        (r.ok, r.message@) == verdict(path@, loaded, o),
{
    match loaded {
        None => {
            let mut message = "config not found: ".to_string();
            message.append(path);
            message.append(" (netwatch would start on built-in defaults)");
            Verdict { ok: true, message }
        },
        Some(Err(e)) => {
            let mut message = "config INVALID: ".to_string();
            message.append(path);
            message.append("\n\n");
            message.append(e.as_str());
            Verdict { ok: false, message }
        },
        Some(Ok(c)) => {
            let mut cfg = c;
            cfg.apply_overrides(o);
            match cfg.validate() {
                Ok(_) => {
                    let mut message = "config OK: ".to_string();
                    message.append(path);
                    Verdict { ok: true, message }
                },
                Err(e) => {
                    let mut message = "config INVALID: ".to_string();
                    message.append(path);
                    message.append("\n\n");
                    message.append(e.message().as_str());
                    Verdict { ok: false, message }
                },
            }
        },
    }
}

impl Config {
    /// The addresses to serve DNS on: the first one, and that of IPv6 if it is set.
    pub fn dns_listeners(&self) -> (r: Vec<SocketAddr>)
        ensures
            r@ == (match self.dns.listen_v6 {
                Some(a) => seq![self.dns.listen, a],
                None => seq![self.dns.listen],
            }),
    {
        let mut out: Vec<SocketAddr> = Vec::new();
        out.push(self.dns.listen);
        if let Some(a) = self.dns.listen_v6 {
            out.push(a);
        }
        assert(out@ =~= (match self.dns.listen_v6 {
            Some(a) => seq![self.dns.listen, a],
            None => seq![self.dns.listen],
        }));
        out
    }

    /// The seconds between two looks at the neighbour table, at least 5.
    pub fn arp_interval(&self) -> (r: u64)
        ensures
            r == (if self.discovery.arp_interval_secs < 5 {
                5
            } else {
                self.discovery.arp_interval_secs
            }),
    {
        if self.discovery.arp_interval_secs < 5 {
            5
        } else {
            self.discovery.arp_interval_secs
        }
    }

    /// The seconds between two sweeps, at least 30.
    pub fn sweep_interval(&self) -> (r: u64)
        ensures
            r == (if self.discovery.sweep_interval_secs < 30 {
                30
            } else {
                self.discovery.sweep_interval_secs
            }),
    {
        if self.discovery.sweep_interval_secs < 30 {
            30
        } else {
            self.discovery.sweep_interval_secs
        }
    }

    /// The seconds between two downloads of the lists, if they are downloaded anew.
    pub fn refresh_interval(&self) -> (r: Option<u64>)
        ensures
            r == (if self.blocking.enabled && self.blocking.refresh_hours > 0 {
                Some(
                    if self.blocking.refresh_hours * 3600 > u64::MAX {
                        u64::MAX
                    } else {
                        (self.blocking.refresh_hours * 3600) as u64
                    },
                )
            } else {
                None
            }),
    {
        if self.blocking.enabled && self.blocking.refresh_hours > 0 {
            match self.blocking.refresh_hours.checked_mul(3600) {
                Some(secs) => Some(secs),
                None => Some(u64::MAX),
            }
        } else {
            None
        }
    }
}

} // verus!
