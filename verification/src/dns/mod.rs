//! The DNS server: who may ask, what is answered, and what is remembered.
//!
//! Every device of the network asks us to resolve names, which tells the domain and
//! the client. A request is answered from the blocklist or from the cache, or else
//! sent to the upstreams.

pub mod acl;
pub mod cache;
pub mod forward;
pub mod laws;
pub mod message;
pub mod reply;

use crate::addr::{IpAddr, SocketAddr};
use crate::blocklist::{Blocklist, BlocklistView};
use crate::config::Config;
use crate::db;
use crate::db::{OpView, QueryEvent, QueryStatus, QueryView, WriteOp};
use crate::devices;
use crate::devices::{DeviceStore, StoreView};
use crate::dns::acl::{Acl, Rule};
use crate::dns::cache::{Cache, EntryView, Key, KeyView, Limits};
use crate::dns::message::{Message, MessageView};
use crate::dns::message::{FORM_ERR, NX_DOMAIN, OP_QUERY, REFUSED, SERV_FAIL};
use crate::netinfo::Subnet;
use crate::text;
use crate::text::Class;
use vstd::prelude::*;

verus! {

/// The name that Firefox looks up to learn whether the network filters DNS. An
/// answer that it does not exist makes Firefox keep asking us.
pub const CANARY: &'static str = "use-application-dns.net";

/// The list that the log names for the canary.
pub const CANARY_LIST: &'static str = "firefox-doh-canary";

/// What the server has done so far. Each number starts over when it has grown too
/// large.
#[derive(Clone, Copy, Debug, PartialEq, Eq, Structural)]
pub struct Stats {
    pub total: u64,
    pub blocked: u64,
    pub cache_hits: u64,
    pub upstream_errors: u64,
    /// Queries that were dropped because of where they came from.
    pub denied: u64,
}

impl Default for Stats {
    fn default() -> (r: Stats)
        ensures
            r == (Stats { total: 0, blocked: 0, cache_hits: 0, upstream_errors: 0, denied: 0 }),
    {
        Stats { total: 0, blocked: 0, cache_hits: 0, upstream_errors: 0, denied: 0 }
    }
}

/// The DNS server.
pub struct Resolver {
    pub state: State,
    pub stats: Stats,
}

/// What the server goes by, and the answers that it keeps.
pub struct State {
    upstreams: Vec<SocketAddr>,
    timeout_ms: u64,
    payload: u16,
    caching: bool,
    nxdomain: bool,
    canary: bool,
    acl: Acl,
    /// Whether a client that is not served has been reported.
    warned: bool,
    cache: Cache,
}

/// The model of what the server goes by.
#[verifier::ext_equal]
pub struct StateView {
    pub upstreams: Seq<SocketAddr>,
    pub timeout_ms: u64,
    pub payload: u16,
    pub caching: bool,
    pub nxdomain: bool,
    pub canary: bool,
    pub rules: Seq<Rule>,
    pub warned: bool,
    pub cache: Map<KeyView, EntryView>,
    pub limits: Limits,
    pub hits: u64,
    pub misses: u64,
}

/// The model of the DNS server.
#[verifier::ext_equal]
pub struct ResolverView {
    pub upstreams: Seq<SocketAddr>,
    pub timeout_ms: u64,
    /// The largest UDP payload that we send or reassemble.
    pub payload: u16,
    /// Whether answers are kept.
    pub caching: bool,
    /// Whether a blocked name is said not to exist.
    pub nxdomain: bool,
    /// Whether Firefox is told that the network filters DNS.
    pub canary: bool,
    pub rules: Seq<Rule>,
    pub warned: bool,
    pub cache: Map<KeyView, EntryView>,
    pub limits: Limits,
    pub hits: u64,
    pub misses: u64,
    pub stats: Stats,
}

/// A request that has to be sent upstream.
pub struct Pending {
    pub request: Message,
    pub name: String,
    pub qtype: u16,
    pub key: Option<Key>,
    pub client: IpAddr,
    /// What is sent.
    pub wire: Vec<u8>,
}

/// The model of a request that has to be sent upstream.
#[verifier::ext_equal]
pub struct PendingView {
    pub request: MessageView,
    pub name: Seq<char>,
    pub qtype: u16,
    pub key: Option<KeyView>,
    pub client: IpAddr,
    pub wire: Seq<u8>,
}

/// The model of a key that may be missing.
pub open spec fn key_view(k: Option<Key>) -> Option<KeyView> {
    match k {
        Some(k) => Some(k@),
        None => None,
    }
}

impl View for Pending {
    type V = PendingView;

    open spec fn view(&self) -> PendingView {
        PendingView {
            request: self.request@,
            name: self.name@,
            qtype: self.qtype,
            key: key_view(self.key),
            client: self.client,
            wire: self.wire@,
        }
    }
}

/// What to do with a request that could be read.
pub enum Step {
    /// Send this, and store that.
    Reply(Message, Vec<WriteOp>),
    /// Ask upstream.
    Forward(Pending),
}

/// The model of what to do with a request that could be read.
pub enum StepView {
    Reply(MessageView, Seq<OpView>),
    Forward(PendingView),
}

impl View for Step {
    type V = StepView;

    open spec fn view(&self) -> StepView {
        match self {
            Step::Reply(m, ops) => StepView::Reply(m@, devices::op_views(ops@)),
            Step::Forward(p) => StepView::Forward(p@),
        }
    }
}

/// What to do with a datagram or a frame.
pub enum Handled {
    /// Nothing: there is no reply.
    Nothing,
    /// Send this, if it could be encoded, and store that.
    Reply(Option<Vec<u8>>, Vec<WriteOp>),
    /// Ask upstream.
    Forward(Pending),
}

/// The model of what to do with a datagram or a frame.
pub enum HandledView {
    Nothing,
    Reply(Option<Seq<u8>>, Seq<OpView>),
    Forward(PendingView),
}

impl View for Handled {
    type V = HandledView;

    open spec fn view(&self) -> HandledView {
        match self {
            Handled::Nothing => HandledView::Nothing,
            Handled::Reply(b, ops) => HandledView::Reply(
                reply::bytes_view(*b),
                devices::op_views(ops@),
            ),
            Handled::Forward(p) => HandledView::Forward(p@),
        }
    }
}

/// What to do with a datagram or a frame, given what to do with the message in it.
pub open spec fn on_the_wire(s: StepView) -> HandledView {
    match s {
        StepView::Reply(m, ops) => HandledView::Reply(message::encoded(m), ops),
        StepView::Forward(p) => HandledView::Forward(p),
    }
}

/// The name that a question asks for: in lower case, without the dot at its end.
pub open spec fn asked_name(labels: Seq<Seq<u8>>) -> Seq<char> {
    text::lower(text::trim_end(message::name_text(labels), Class::Is('.')))
}

/// What is stored of a query. Seeing it also proves that the device is awake.
pub open spec fn logged(
    devices: StoreView,
    client: IpAddr,
    ts: i64,
    name: Seq<char>,
    qtype: u16,
    status: QueryStatus,
    elapsed_ms: Option<u32>,
    answer: Option<Seq<char>>,
    blocklist: Option<Seq<char>>,
) -> Seq<OpView> {
    devices::with_op(seq![], devices.touched(client, ts)).push(
        OpView::Query(
            QueryView {
                ts,
                client_ip: client.text(),
                domain: name,
                qtype: message::type_label(qtype),
                status,
                elapsed_ms,
                answer,
                blocklist,
            },
        ),
    )
}

/// The rules that entries of the configuration write. If one of them cannot be read,
/// there are none, and only the local network is served.
pub open spec fn rules_of(entries: Seq<String>) -> Seq<Rule> {
    if forall|i: int| 0 <= i < entries.len() ==> acl::rule_of(#[trigger] entries[i]@) is Ok {
        entries.map_values(|e: String| acl::rule_of(e@)->Ok_0)
    } else {
        seq![]
    }
}

/// The rules once the network that we are on is known.
pub open spec fn rules_on(rules: Seq<Rule>, lan: Option<Subnet>) -> Seq<Rule> {
    match lan {
        Some(s) => if acl::private_stance(rules) && !acl::admitted(rules, IpAddr::V4(s.network)) {
            acl::widened(rules, Rule::V4 { network: s.network, prefix: s.prefix_len })
        } else {
            rules
        },
        None => rules,
    }
}

impl ResolverView {
    /// After one more request.
    pub open spec fn counted(self) -> ResolverView {
        ResolverView {
            stats: Stats { total: self.stats.total.wrapping_add(1), ..self.stats },
            ..self
        }
    }

    /// After one more blocked request.
    pub open spec fn blocked(self) -> ResolverView {
        ResolverView {
            stats: Stats { blocked: self.stats.blocked.wrapping_add(1), ..self.stats },
            ..self
        }
    }

    /// After one more request from a client that is not served.
    pub open spec fn denied(self) -> ResolverView {
        ResolverView {
            stats: Stats { denied: self.stats.denied.wrapping_add(1), ..self.stats },
            warned: true,
            ..self
        }
    }

    /// After one more request that no upstream answered.
    pub open spec fn failed(self) -> ResolverView {
        ResolverView {
            stats: Stats {
                upstream_errors: self.stats.upstream_errors.wrapping_add(1),
                ..self.stats
            },
            ..self
        }
    }

    /// After an answer was found in the cache.
    pub open spec fn hit(self) -> ResolverView {
        ResolverView {
            hits: self.hits.wrapping_add(1),
            stats: Stats { cache_hits: self.stats.cache_hits.wrapping_add(1), ..self.stats },
            ..self
        }
    }

    /// Whether the cache answers for a key.
    pub open spec fn answers_for(self, key: KeyView, now: u64) -> bool {
        self.caching && self.cache.contains_key(key) && self.cache[key].expires > now
    }

    /// After no answer was found in the cache: one that has expired is gone.
    pub open spec fn missed(self, key: KeyView) -> ResolverView {
        if self.caching && self.cache.contains_key(key) {
            ResolverView {
                cache: self.cache.remove(key),
                misses: self.misses.wrapping_add(1),
                ..self
            }
        } else {
            self
        }
    }

    /// What to do with a request, and the server after that.
    ///
    /// Only standard queries are served. The canary comes first, then the
    /// blocklist, since no upstream needs to be asked about a blocked name, then the
    /// cache.
    pub open spec fn ruling(
        self,
        bytes: Seq<u8>,
        m: MessageView,
        client: IpAddr,
        blocklist: BlocklistView,
        devices: StoreView,
        now: u64,
        ts: i64,
    ) -> (ResolverView, StepView) {
        let base = reply::envelope(m, self.payload);
        if m.metadata.response || m.metadata.op_code != OP_QUERY {
            (self, StepView::Reply(reply::with_code(base, REFUSED), seq![]))
        } else if m.queries.len() == 0 {
            (self, StepView::Reply(reply::with_code(base, FORM_ERR), seq![]))
        } else {
            let name = asked_name(m.queries[0].name);
            let qtype = m.queries[0].qtype;
            let key = cache::key_of(m, name)->0;
            if self.canary && name == CANARY@ {
                (
                    self.blocked(),
                    StepView::Reply(
                        reply::with_code(base, NX_DOMAIN),
                        logged(
                            devices,
                            client,
                            ts,
                            name,
                            qtype,
                            QueryStatus::Blocked,
                            None,
                            None,
                            Some(CANARY_LIST@),
                        ),
                    ),
                )
            } else if name.len() > 0 && blocklist.verdict(name) is Some {
                (
                    self.blocked(),
                    StepView::Reply(
                        reply::sinkholed(m, qtype, self.nxdomain, self.payload),
                        logged(
                            devices,
                            client,
                            ts,
                            name,
                            qtype,
                            QueryStatus::Blocked,
                            None,
                            None,
                            blocklist.verdict(name),
                        ),
                    ),
                )
            } else if self.answers_for(key, now) {
                let hit = cache::answer_of(self.cache[key], now);
                (
                    self.hit(),
                    StepView::Reply(
                        reply::from_cache(m, hit, self.payload),
                        logged(
                            devices,
                            client,
                            ts,
                            name,
                            qtype,
                            QueryStatus::Cached,
                            None,
                            reply::summary(hit.answers),
                            None,
                        ),
                    ),
                )
            } else {
                (
                    self.missed(key),
                    StepView::Forward(
                        PendingView {
                            request: m,
                            name,
                            qtype,
                            key: Some(key),
                            client,
                            wire: reply::clamped(bytes, m, self.payload),
                        },
                    ),
                )
            }
        }
    }

    /// What to do with the bytes of a request, and the server after that. What cannot be
    /// read gets no reply, and every request is counted.
    pub open spec fn handled(
        self,
        bytes: Seq<u8>,
        client: IpAddr,
        blocklist: BlocklistView,
        devices: StoreView,
        now: u64,
        ts: i64,
    ) -> (ResolverView, HandledView) {
        match message::decoded(bytes) {
            None => (self.counted(), HandledView::Nothing),
            Some(m) => {
                let ruled = self.counted().ruling(bytes, m, client, blocklist, devices, now, ts);
                (ruled.0, on_the_wire(ruled.1))
            },
        }
    }

    /// What to do with what comes from the network, and the server after that. From a
    /// client that is not served it is dropped unread.
    pub open spec fn received(
        self,
        bytes: Seq<u8>,
        client: IpAddr,
        blocklist: BlocklistView,
        devices: StoreView,
        now: u64,
        ts: i64,
    ) -> (ResolverView, HandledView) {
        if acl::admitted(self.rules, client) {
            self.handled(bytes, client, blocklist, devices, now, ts)
        } else {
            (self.denied(), HandledView::Nothing)
        }
    }

    /// How the server can be after the answer `m` to a request was taken: it is kept,
    /// if answers are and it is worth keeping.
    pub open spec fn took(
        self,
        after: ResolverView,
        key: Option<KeyView>,
        m: Option<MessageView>,
        now: u64,
    ) -> bool {
        &&& after == ResolverView { cache: after.cache, ..self }
        &&& match (key, m) {
            (Some(k), Some(m)) => if self.caching {
                cache::stored(self.cache, after.cache, self.limits, k, m, now)
            } else {
                after.cache == self.cache
            },
            _ => after.cache == self.cache,
        }
    }
}

/// A time in milliseconds, as it is logged.
pub open spec fn logged_ms(ms: u64) -> u32 {
    if ms > u32::MAX {
        u32::MAX
    } else {
        ms as u32
    }
}

/// What a client is told when no upstream answered.
pub open spec fn failure_reply(request: MessageView, our_max_payload: u16) -> MessageView {
    reply::with_code(reply::envelope(request, our_max_payload), SERV_FAIL)
}

/// What is stored when no upstream answered.
pub open spec fn failed_ops(devices: StoreView, p: PendingView, ts: i64) -> Seq<OpView> {
    logged(devices, p.client, ts, p.name, p.qtype, QueryStatus::ServFail, None, None, None)
}

/// What is stored when an upstream answered: the names that the answer tells, then
/// the query.
pub open spec fn answered_ops(
    before: StoreView,
    p: PendingView,
    m: Option<MessageView>,
    elapsed_ms: u64,
    ts: i64,
) -> Seq<OpView> {
    match m {
        Some(m) => before.taught_ops(m.answers, ts) + logged(
            before.taught(m.answers),
            p.client,
            ts,
            p.name,
            p.qtype,
            reply::status_of(m.metadata.response_code),
            Some(logged_ms(elapsed_ms)),
            reply::summary(m.answers),
            None,
        ),
        None => logged(
            before,
            p.client,
            ts,
            p.name,
            p.qtype,
            QueryStatus::Forwarded,
            Some(logged_ms(elapsed_ms)),
            None,
            None,
        ),
    }
}

fn log(
    devices: &DeviceStore,
    client: IpAddr,
    ts: i64,
    name: &str,
    qtype: u16,
    status: QueryStatus,
    elapsed_ms: Option<u32>,
    answer: Option<String>,
    blocklist: Option<String>,
) -> (r: Vec<WriteOp>)
    requires
        devices.wf(),
    ensures
        devices::op_views(r@) == logged(
            devices@,
            client,
            ts,
            name@,
            qtype,
            status,
            elapsed_ms,
            db::opt(answer),
            db::opt(blocklist),
        ),
        r@.len() > 0,
        r@.last() matches WriteOp::Query(q) && q.ts == ts && q.client_ip@ == client.text()
            && q.domain@ == name@ && q.qtype@ == message::type_label(qtype) && q.status == status
            && q.elapsed_ms == elapsed_ms && q.answer == answer && q.blocklist == blocklist,
{
    let mut ops: Vec<WriteOp> = Vec::new();
    assert(devices::op_views(ops@) =~= seq![]);
    if let Some(op) = devices.touch_ip(client, ts) {
        ops.push(op);
        assert(devices::op_views(ops@) =~= seq![op@]);
    }
    let ghost before = devices::op_views(ops@);
    assert(before =~= devices::with_op(seq![], devices@.touched(client, ts)));
    let event = QueryEvent {
        ts,
        client_ip: client.to_text(),
        domain: name.to_string(),
        qtype: message::type_text(qtype),
        status,
        elapsed_ms,
        answer,
        blocklist,
    };
    ops.push(WriteOp::Query(event));
    assert(devices::op_views(ops@) =~= before.push(OpView::Query(event@)));
    ops
}

fn name_of(labels: &message::Name) -> (r: String)
    ensures
        r@ == asked_name(labels@),
{
    let chars = text::chars_of(labels.to_ascii().as_str());
    text::string_of(text::lowered(text::strip_end(chars.as_slice(), Class::Is('.'))).as_slice())
}

impl State {
    /// The model.
    pub closed spec fn view(&self) -> StateView {
        StateView {
            upstreams: self.upstreams@,
            timeout_ms: self.timeout_ms,
            payload: self.payload,
            caching: self.caching,
            nxdomain: self.nxdomain,
            canary: self.canary,
            rules: self.acl@,
            warned: self.warned,
            cache: self.cache@,
            limits: self.cache.limits(),
            hits: self.cache.hit_count(),
            misses: self.cache.miss_count(),
        }
    }
}

impl Resolver {
    /// The model.
    pub open spec fn view(&self) -> ResolverView {
        ResolverView {
            upstreams: self.state@.upstreams,
            timeout_ms: self.state@.timeout_ms,
            payload: self.state@.payload,
            caching: self.state@.caching,
            nxdomain: self.state@.nxdomain,
            canary: self.state@.canary,
            rules: self.state@.rules,
            warned: self.state@.warned,
            cache: self.state@.cache,
            limits: self.state@.limits,
            hits: self.state@.hits,
            misses: self.state@.misses,
            stats: self.stats,
        }
    }

    /// The rules and the cache are well formed.
    pub closed spec fn wf(&self) -> bool {
        self.state.acl.wf() && self.state.cache.wf()
    }

    /// Sets the server up. The rules were read when the configuration was; if they
    /// cannot be, only the local network is served. The network that we are on is
    /// served too, where the local network is.
    pub fn new(cfg: &Config, lan: Option<Subnet>) -> (r: Resolver)
        requires
            lan matches Some(s) ==> s.wf(),
        ensures
            r.wf(),
            r@ == (ResolverView {
                upstreams: cfg.dns.upstreams@,
                timeout_ms: cfg.dns.upstream_timeout_ms,
                payload: cfg.dns.upstream_udp_payload,
                caching: cfg.dns.cache,
                nxdomain: cfg.blocking.mode@ == "nxdomain"@,
                canary: cfg.blocking.disable_firefox_doh,
                rules: rules_on(rules_of(cfg.dns.allow_from@), lan),
                warned: false,
                cache: Map::empty(),
                limits: Limits {
                    max_entries: if cfg.dns.cache_max_entries == 0 {
                        1
                    } else {
                        cfg.dns.cache_max_entries
                    },
                    min_ttl: cfg.dns.cache_min_ttl,
                    max_ttl: cfg.dns.cache_max_ttl,
                },
                hits: 0,
                misses: 0,
                stats: Stats {
                    total: 0,
                    blocked: 0,
                    cache_hits: 0,
                    upstream_errors: 0,
                    denied: 0,
                },
            }),
    {
        let ghost entries = cfg.dns.allow_from@;
        let mut acl = match Acl::parse(cfg.dns.allow_from.as_slice()) {
            Ok(a) => {
                proof {
                    assert forall|i: int| 0 <= i < entries.len() implies acl::rule_of(
                        #[trigger] entries[i]@,
                    ) is Ok by {}
                    assert(a@ =~= rules_of(entries));
                }
                a
            },
            Err(_) => Acl::local_only(),
        };
        if let Some(s) = lan {
            acl.trust_subnet(s.network, s.prefix_len);
        }
        let cache = Cache::new(
            cfg.dns.cache_max_entries,
            cfg.dns.cache_min_ttl,
            cfg.dns.cache_max_ttl,
        );
        let state = State {
            upstreams: forward::copy_addresses(&cfg.dns.upstreams),
            timeout_ms: cfg.dns.upstream_timeout_ms,
            payload: cfg.dns.upstream_udp_payload,
            caching: cfg.dns.cache,
            nxdomain: text::is_text(
                text::chars_of(cfg.blocking.mode.as_str()).as_slice(),
                "nxdomain",
            ),
            canary: cfg.blocking.disable_firefox_doh,
            acl,
            warned: false,
            cache,
        };
        Resolver { state, stats: Stats::default() }
    }

    /// Tells whether a client is served, before its request is even read. A request
    /// of another one is dropped rather than refused, since a reply would go to
    /// whatever address the sender made up.
    pub fn allows(&mut self, client: IpAddr) -> (r: bool)
        requires
            old(self).wf(),
        ensures
            final(self).wf(),
            r == acl::admitted(old(self)@.rules, client),
            final(self)@ == (if r {
                old(self)@
            } else {
                old(self)@.denied()
            }),
    {
        if self.state.acl.allows(client) {
            return true;
        }
        self.stats.denied = self.stats.denied.wrapping_add(1);
        self.state.warned = true;
        assert(self@ =~= old(self)@.denied());
        false
    }

    /// Tells whether a client was turned away before. The first one is worth a
    /// warning.
    pub fn has_denied(&self) -> (r: bool)
        ensures
            r == self@.warned,
    {
        self.state.warned
    }

    /// The largest UDP payload that we put on the wire or reassemble.
    pub fn udp_payload_limit(&self) -> (r: u16)
        ensures
            r == self@.payload,
    {
        self.state.payload
    }

    /// The upstreams, in the order in which they are asked.
    pub fn upstreams(&self) -> (r: &Vec<SocketAddr>)
        ensures
            r@ == self@.upstreams,
    {
        &self.state.upstreams
    }

    /// How long an upstream is waited for, in milliseconds.
    pub fn upstream_timeout_ms(&self) -> (r: u64)
        ensures
            r == self@.timeout_ms,
    {
        self.state.timeout_ms
    }

    /// Tells whether the server has deliberately been opened to the internet.
    pub fn is_open_to_world(&self) -> (r: bool)
        ensures
            r == self@.rules.contains(Rule::Any),
    {
        self.state.acl.is_open_to_world()
    }

    /// What the server has done so far.
    pub fn stats(&self) -> (r: Stats)
        ensures
            r == self@.stats,
    {
        self.stats
    }

    /// How many answers are kept.
    pub fn cache_len(&self) -> (r: usize)
        requires
            self.wf(),
        ensures
            r == self@.cache.dom().len(),
    {
        self.state.cache.len()
    }

    /// Drops every answer that is kept.
    pub fn flush_cache(&mut self)
        requires
            old(self).wf(),
        ensures
            final(self).wf(),
            final(self)@ == (ResolverView { cache: Map::empty(), ..old(self)@ }),
    {
        self.state.cache.clear();
        assert(self@ =~= (ResolverView { cache: Map::empty(), ..old(self)@ }));
    }

    /// Drops every answer that has expired.
    pub fn sweep(&mut self, now: u64)
        requires
            old(self).wf(),
        ensures
            final(self).wf(),
            final(self)@ == (ResolverView {
                cache: cache::live(old(self)@.cache, now),
                ..old(self)@
            }),
    {
        self.state.cache.sweep(now);
        assert(self@ =~= (ResolverView {
            cache: cache::live(old(self)@.cache, now),
            ..old(self)@
        }));
    }

    /// Builds the answer for a blocked name.
    pub fn sinkhole(&self, request: &Message, qtype: u16) -> (r: Message)
        ensures
            r@ == reply::sinkholed(request@, qtype, self@.nxdomain, self@.payload),
    {
        reply::sinkhole(request, qtype, self.state.nxdomain, self.state.payload)
    }

    /// Decides what to do with a request that could be read.
    pub fn decide(
        &mut self,
        request: &[u8],
        msg: Message,
        client: IpAddr,
        blocklist: &Blocklist,
        devices: &DeviceStore,
        now: u64,
        ts: i64,
    ) -> (r: Step)
        requires
            old(self).wf(),
            blocklist@.wf(),
            devices.wf(),
        ensures
            final(self).wf(),
            (final(self)@, r@) == old(self)@.ruling(
                request@,
                msg@,
                client,
                blocklist@,
                devices@,
                now,
                ts,
            ),
    {
        let ghost m = msg@;
        let ghost want = old(self)@.ruling(
            request@,
            m,
            client,
            blocklist@,
            devices@,
            now,
            ts,
        );
        let nothing: Vec<WriteOp> = Vec::new();
        assert(devices::op_views(nothing@) =~= seq![]);
        if msg.metadata.response || msg.metadata.op_code != OP_QUERY {
            return Step::Reply(reply::error_response(&msg, REFUSED, self.state.payload), nothing);
        }
        if msg.queries.len() == 0 {
            return Step::Reply(reply::error_response(&msg, FORM_ERR, self.state.payload), nothing);
        }
        assert(m.queries[0] == msg.queries@[0]@);
        let name = name_of(&msg.queries[0].name);
        let qtype: u16 = msg.queries[0].qtype;
        let chars = text::chars_of(name.as_str());

        if self.state.canary && text::is_text(chars.as_slice(), CANARY) {
            self.stats.blocked = self.stats.blocked.wrapping_add(1);
            assert(self@ =~= old(self)@.blocked());
            let ops = log(
                devices,
                client,
                ts,
                name.as_str(),
                qtype,
                QueryStatus::Blocked,
                None,
                None,
                Some(CANARY_LIST.to_string()),
            );
            return Step::Reply(reply::error_response(&msg, NX_DOMAIN, self.state.payload), ops);
        }
        if chars.len() > 0 {
            if let Some(list) = blocklist.lookup(name.as_str()) {
                self.stats.blocked = self.stats.blocked.wrapping_add(1);
                assert(self@ =~= old(self)@.blocked());
                let ops = log(
                    devices,
                    client,
                    ts,
                    name.as_str(),
                    qtype,
                    QueryStatus::Blocked,
                    None,
                    None,
                    Some(list.to_string()),
                );
                return Step::Reply(self.sinkhole(&msg, qtype), ops);
            }
        }
        let key = Key::from_request(&msg, name.as_str());
        if self.state.caching {
            if let Some(k) = &key {
                if let Some(hit) = self.state.cache.get(k, now) {
                    let resp = reply::cached_response(&msg, hit, self.state.payload);
                    self.stats.cache_hits = self.stats.cache_hits.wrapping_add(1);
                    assert(self@ =~= old(self)@.hit());
                    let answer = reply::summarize_answers(&resp);
                    let ops = log(
                        devices,
                        client,
                        ts,
                        name.as_str(),
                        qtype,
                        QueryStatus::Cached,
                        None,
                        answer,
                        None,
                    );
                    return Step::Reply(resp, ops);
                }
            }
        }
        assert(self@ =~= old(self)@.missed(key->0@));
        let wire = reply::clamp_upstream_payload(request, &msg, self.state.payload);
        let p = Pending { request: msg, name, qtype, key, client, wire };
        assert(p@ =~= want.1->Forward_0);
        Step::Forward(p)
    }

    /// Handles one request. What cannot be read gets no reply.
    pub fn handle(
        &mut self,
        request: &[u8],
        client: IpAddr,
        blocklist: &Blocklist,
        devices: &DeviceStore,
        now: u64,
        ts: i64,
    ) -> (r: Handled)
        requires
            old(self).wf(),
            blocklist@.wf(),
            devices.wf(),
        ensures
            final(self).wf(),
            match message::decoded(request@) {
                None => r@ == HandledView::Nothing && final(self)@ == old(self)@.counted(),
                Some(m) => {
                    let ruled = old(self)@.counted().ruling(
                        request@,
                        m,
                        client,
                        blocklist@,
                        devices@,
                        now,
                        ts,
                    );
                    &&& final(self)@ == ruled.0
                    &&& r@ == on_the_wire(ruled.1)
                },
            },
            (final(self)@, r@) == old(self)@.handled(request@, client, blocklist@, devices@, now, ts),
    {
        self.stats.total = self.stats.total.wrapping_add(1);
        assert(self@ =~= old(self)@.counted());
        let msg = match Message::from_vec(request) {
            Some(m) => m,
            None => {
                return Handled::Nothing;
            },
        };
        match self.decide(request, msg, client, blocklist, devices, now, ts) {
            Step::Reply(m, ops) => Handled::Reply(m.to_vec(), ops),
            Step::Forward(p) => Handled::Forward(p),
        }
    }

    /// Takes a request from the network: from a client that is not served it is
    /// dropped unread.
    pub fn receive(
        &mut self,
        request: &[u8],
        client: IpAddr,
        blocklist: &Blocklist,
        devices: &DeviceStore,
        now: u64,
        ts: i64,
    ) -> (r: Handled)
        requires
            old(self).wf(),
            blocklist@.wf(),
            devices.wf(),
        ensures
            final(self).wf(),
            if acl::admitted(old(self)@.rules, client) {
                match message::decoded(request@) {
                    None => r@ == HandledView::Nothing && final(self)@ == old(self)@.counted(),
                    Some(m) => {
                        let ruled = old(self)@.counted().ruling(
                            request@,
                            m,
                            client,
                            blocklist@,
                            devices@,
                            now,
                            ts,
                        );
                        &&& final(self)@ == ruled.0
                        &&& r@ == on_the_wire(ruled.1)
                    },
                }
            } else {
                r@ == HandledView::Nothing && final(self)@ == old(self)@.denied()
            },
            (final(self)@, r@) == old(self)@.received(request@, client, blocklist@, devices@, now, ts),
    {
        if self.allows(client) {
            self.handle(request, client, blocklist, devices, now, ts)
        } else {
            Handled::Nothing
        }
    }

    /// Takes the answer of an upstream, which holds the message `parsed`: it is kept
    /// if it is worth keeping, devices may learn a name from it, and the query is
    /// logged. Tells what to store.
    pub fn take(
        &mut self,
        pending: &Pending,
        parsed: Option<&Message>,
        elapsed_ms: u64,
        devices: &mut DeviceStore,
        now: u64,
        ts: i64,
    ) -> (r: Vec<WriteOp>)
        requires
            old(self).wf(),
            old(devices).wf(),
        ensures
            final(self).wf(),
            final(devices).wf(),
            match parsed {
                Some(m) => {
                    &&& old(self)@.took(final(self)@, pending@.key, Some(m@), now)
                    &&& final(devices)@ == old(devices)@.taught(m@.answers)
                    &&& devices::op_views(r@) == answered_ops(
                        old(devices)@,
                        pending@,
                        Some(m@),
                        elapsed_ms,
                        ts,
                    )
                },
                None => {
                    &&& old(self)@.took(final(self)@, pending@.key, None, now)
                    &&& final(devices)@ == old(devices)@
                    &&& devices::op_views(r@) == answered_ops(
                        old(devices)@,
                        pending@,
                        None,
                        elapsed_ms,
                        ts,
                    )
                },
            },
    {
        let elapsed: u32 = if elapsed_ms > u32::MAX as u64 {
            u32::MAX
        } else {
            elapsed_ms as u32
        };
        match parsed {
            Some(m) => {
                if self.state.caching {
                    if let Some(k) = &pending.key {
                        self.state.cache.insert(k.clone(), m, now);
                    }
                }
                assert(self@ =~= (ResolverView { cache: self@.cache, ..old(self)@ }));
                let status = reply::status_for(m.metadata.response_code);
                let answer = reply::summarize_answers(m);
                let mut ops = devices.learn_from_dns(m, ts);
                let ghost learned = devices::op_views(ops@);
                let mut more = log(
                    devices,
                    pending.client,
                    ts,
                    pending.name.as_str(),
                    pending.qtype,
                    status,
                    Some(elapsed),
                    answer,
                    None,
                );
                let ghost rest = devices::op_views(more@);
                ops.append(&mut more);
                assert(devices::op_views(ops@) =~= learned + rest);
                ops
            },
            None => {
                log(
                    devices,
                    pending.client,
                    ts,
                    pending.name.as_str(),
                    pending.qtype,
                    QueryStatus::Forwarded,
                    Some(elapsed),
                    None,
                    None,
                )
            },
        }
    }

    /// Takes the bytes of the answer of an upstream, which are sent on as they are.
    /// Tells what to store.
    pub fn finish(
        &mut self,
        pending: &Pending,
        raw: &[u8],
        elapsed_ms: u64,
        devices: &mut DeviceStore,
        now: u64,
        ts: i64,
    ) -> (r: Vec<WriteOp>)
        requires
            old(self).wf(),
            old(devices).wf(),
        ensures
            final(self).wf(),
            final(devices).wf(),
            old(self)@.took(final(self)@, pending@.key, message::decoded(raw@), now),
            final(devices)@ == (match message::decoded(raw@) {
                Some(m) => old(devices)@.taught(m.answers),
                None => old(devices)@,
            }),
            devices::op_views(r@) == answered_ops(
                old(devices)@,
                pending@,
                message::decoded(raw@),
                elapsed_ms,
                ts,
            ),
    {
        match Message::from_vec(raw) {
            Some(m) => self.take(pending, Some(&m), elapsed_ms, devices, now, ts),
            None => self.take(pending, None, elapsed_ms, devices, now, ts),
        }
    }

    /// Answers a request that no upstream answered: the client is told so, since a
    /// resolver that stops answering takes the whole network down.
    pub fn fail(&mut self, pending: &Pending, devices: &DeviceStore, ts: i64) -> (r: (
        Option<Vec<u8>>,
        Vec<WriteOp>,
    ))
        requires
            old(self).wf(),
            devices.wf(),
        ensures
            final(self).wf(),
            final(self)@ == old(self)@.failed(),
            reply::bytes_view(r.0) == message::encoded(
                reply::with_code(
                    reply::envelope(pending@.request, old(self)@.payload),
                    SERV_FAIL,
                ),
            ),
            devices::op_views(r.1@) == logged(
                devices@,
                pending@.client,
                ts,
                pending@.name,
                pending@.qtype,
                QueryStatus::ServFail,
                None,
                None,
                None,
            ),
            reply::bytes_view(r.0) == message::encoded(
                failure_reply(pending@.request, old(self)@.payload),
            ),
            devices::op_views(r.1@) == failed_ops(devices@, pending@, ts),
    {
        self.stats.upstream_errors = self.stats.upstream_errors.wrapping_add(1);
        assert(self@ =~= old(self)@.failed());
        let ops = log(
            devices,
            pending.client,
            ts,
            pending.name.as_str(),
            pending.qtype,
            QueryStatus::ServFail,
            None,
            None,
            None,
        );
        (reply::error_response(&pending.request, SERV_FAIL, self.state.payload).to_vec(), ops)
    }
}

/// Every reply echoes the identifier, the RD and CD bits and the questions of its
/// request, whatever an earlier client sent. It carries an OPT record if and only if
/// the request does.
pub proof fn a_reply_echoes_its_request(
    s: ResolverView,
    bytes: Seq<u8>,
    m: MessageView,
    client: IpAddr,
    blocklist: BlocklistView,
    devices: StoreView,
    now: u64,
    ts: i64,
)
    ensures
        s.ruling(bytes, m, client, blocklist, devices, now, ts).1 matches StepView::Reply(r, _)
            ==> {
            &&& r.metadata.response
            &&& r.metadata.id == m.metadata.id
            &&& r.metadata.recursion_desired == m.metadata.recursion_desired
            &&& r.metadata.recursion_available
            &&& r.metadata.checking_disabled == m.metadata.checking_disabled
            &&& r.queries == m.queries
            &&& r.edns is Some <==> m.edns is Some
        },
{
}

/// Firefox is told that the canary does not exist, in either way of blocking and
/// whatever the lists say: a null address would tell it the opposite.
pub proof fn the_canary_does_not_exist(
    s: ResolverView,
    bytes: Seq<u8>,
    m: MessageView,
    client: IpAddr,
    blocklist: BlocklistView,
    devices: StoreView,
    now: u64,
    ts: i64,
)
    requires
        s.canary,
        !m.metadata.response,
        m.metadata.op_code == OP_QUERY,
        m.queries.len() > 0,
        asked_name(m.queries[0].name) == CANARY@,
    ensures
        s.ruling(bytes, m, client, blocklist, devices, now, ts).1 matches StepView::Reply(r, _)
            && r.metadata.response_code == NX_DOMAIN && r.answers.len() == 0,
{
}

/// A blocked name never goes upstream: it is answered with a sinkhole, and the log
/// names the list. An answer that was kept from before makes no difference.
pub proof fn a_blocked_name_never_goes_upstream(
    s: ResolverView,
    bytes: Seq<u8>,
    m: MessageView,
    client: IpAddr,
    blocklist: BlocklistView,
    devices: StoreView,
    now: u64,
    ts: i64,
)
    requires
        !m.metadata.response,
        m.metadata.op_code == OP_QUERY,
        m.queries.len() > 0,
        asked_name(m.queries[0].name).len() > 0,
        blocklist.verdict(asked_name(m.queries[0].name)) is Some,
        !s.canary || asked_name(m.queries[0].name) != CANARY@,
    ensures
        s.ruling(bytes, m, client, blocklist, devices, now, ts).1 matches StepView::Reply(r, ops)
            && r == reply::sinkholed(m, m.queries[0].qtype, s.nxdomain, s.payload) && ops.last() is Query
            && ops.last()->Query_0.status == QueryStatus::Blocked && ops.last()->Query_0.blocklist
            == blocklist.verdict(asked_name(m.queries[0].name)),
{
}

/// A name that no list blocks is looked up, and answered with nothing that was made
/// up here.
pub proof fn a_name_that_is_not_blocked_is_looked_up(
    s: ResolverView,
    bytes: Seq<u8>,
    m: MessageView,
    client: IpAddr,
    blocklist: BlocklistView,
    devices: StoreView,
    now: u64,
    ts: i64,
)
    requires
        !m.metadata.response,
        m.metadata.op_code == OP_QUERY,
        m.queries.len() > 0,
        blocklist.verdict(asked_name(m.queries[0].name)) is None,
        !s.canary || asked_name(m.queries[0].name) != CANARY@,
    ensures
        ({
            let key = cache::key_of(m, asked_name(m.queries[0].name))->0;
            match s.ruling(bytes, m, client, blocklist, devices, now, ts).1 {
                StepView::Reply(r, _) => s.answers_for(key, now) && r.answers == cache::answer_of(
                    s.cache[key],
                    now,
                ).answers,
                StepView::Forward(p) => !s.answers_for(key, now) && p.wire == reply::clamped(
                    bytes,
                    m,
                    s.payload,
                ),
            }
        }),
{
}

/// An answer that was kept is given to the next client that asks the same question in
/// the same terms, in an envelope of its own.
pub proof fn what_was_taken_is_served_again(
    before: ResolverView,
    s: ResolverView,
    taken: MessageView,
    at: u64,
    bytes: Seq<u8>,
    m: MessageView,
    client: IpAddr,
    blocklist: BlocklistView,
    devices: StoreView,
    now: u64,
    ts: i64,
)
    requires
        !m.metadata.response,
        m.metadata.op_code == OP_QUERY,
        m.queries.len() > 0,
        blocklist.verdict(asked_name(m.queries[0].name)) is None,
        !s.canary || asked_name(m.queries[0].name) != CANARY@,
        before.caching,
        cache::cacheable(taken, before.limits.min_ttl),
        before.took(
            s,
            cache::key_of(m, asked_name(m.queries[0].name)),
            Some(taken),
            at,
        ),
        now < cache::entry_of(taken, before.limits.max_ttl, at).expires,
    ensures
        s.ruling(bytes, m, client, blocklist, devices, now, ts).1 matches StepView::Reply(r, _)
            && r == reply::from_cache(
            m,
            cache::answer_of(cache::entry_of(taken, before.limits.max_ttl, at), now),
            s.payload,
        ),
{
}

} // verus!
