//! Working out which device a request came from.
//!
//! A DNS query only carries an address. Turning that into a device takes several
//! sources, because none is reliable alone: the kernel's neighbour table, the
//! vendor table, mDNS, DHCP and reverse lookups.

use crate::addr;
use crate::addr::{IpAddr, Ipv4Addr, SocketAddr};
use crate::db;
use crate::db::{OpView, WriteOp};
use crate::dns::message;
use crate::dns::message::{Message, MessageView, Name, Question, Record, RecordView};
use crate::dns::message::{CLASS_IN, OP_QUERY, TYPE_A, TYPE_PTR, TYPE_SRV};
use crate::number;
use crate::oui;
use crate::oui::OuiDb;
use crate::table;
use crate::text;
use crate::text::Class;
use hickory_proto::op;
use vstd::hash_map::StringHashMap;
use vstd::prelude::*;
use vstd::slice::{slice_subrange, slice_to_vec};

verus! {

/// `core::str::Utf8Error`: why bytes are not text.
#[verifier::external_type_specification]
#[verifier::external_body]
pub struct ExUtf8Error(core::str::Utf8Error);

/// `core::str::from_utf8`: the text that bytes encode, if they are valid UTF-8.
pub assume_specification<'a>[ core::str::from_utf8 ](v: &'a [u8]) -> (r: Result<
    &'a str,
    core::str::Utf8Error,
>)
    ensures
        match r {
            Ok(s) => vstd::utf8::valid_utf8(v@) && s@ == vstd::utf8::decode_utf8(v@),
            Err(_) => !vstd::utf8::valid_utf8(v@),
        },
;

/// The characters of a host name.
pub open spec fn host_char(c: char) -> bool {
    'a' <= c <= 'z' || 'A' <= c <= 'Z' || '0' <= c <= '9' || c == '-' || c == '_' || c == '.'
}

/// A text that can be shown as the name of a device: at most 64 of those
/// characters, at least one, and not an address.
pub open spec fn is_hostname(s: Seq<char>) -> bool {
    &&& 0 < s.len() <= 64
    &&& forall|i: int| 0 <= i < s.len() ==> host_char(#[trigger] s[i])
    &&& IpAddr::written_by(s) is None
}

/// The name that a device gave itself, without white space around it and dots at
/// its end, in lower case: none if it is not a plausible host name.
pub open spec fn hostname_of(raw: Seq<char>) -> Option<Seq<char>> {
    let t = text::trim_end(text::trim(raw, Class::White), Class::Is('.'));
    if is_hostname(t) {
        Some(text::lower(t))
    } else {
        None
    }
}

/// Refuses what is not a plausible host name. What devices say of themselves ends
/// up in the dashboard, so it must not carry control characters or be of any
/// length.
pub fn sanitize_hostname(raw: &str) -> (r: Option<String>)
    ensures
        match r {
            Some(n) => hostname_of(raw@) == Some(n@),
            None => hostname_of(raw@) is None,
        },
{
    let chars = text::chars_of(raw);
    let t = text::strip_end(text::strip(chars.as_slice(), Class::White), Class::Is('.'));
    if t.len() == 0 || t.len() > 64 {
        return None;
    }
    let mut i: usize = 0;
    while i < t.len()
        invariant
            i <= t@.len(),
            t@ == text::trim_end(text::trim(raw@, Class::White), Class::Is('.')),
            forall|j: int| 0 <= j < i ==> host_char(#[trigger] t@[j]),
        decreases t@.len() - i,
    {
        let c = t[i];
        if !(('a' <= c && c <= 'z') || ('A' <= c && c <= 'Z') || ('0' <= c && c <= '9') || c == '-'
            || c == '_' || c == '.') {
            assert(!host_char(t@[i as int]));
            return None;
        }
        i += 1;
    }
    if IpAddr::parse(t).is_some() {
        return None;
    }
    Some(text::string_of(text::lowered(t).as_slice()))
}

/// `s` without `suffix` at its end, if it ends so.
pub open spec fn without_suffix(s: Seq<char>, suffix: Seq<char>) -> Option<Seq<char>> {
    if text::ends_with(s, suffix) {
        Some(s.take(s.len() - suffix.len()))
    } else {
        None
    }
}

fn strip_suffix<'a>(s: &'a [char], suffix: &str) -> (r: Option<&'a [char]>)
    ensures
        match r {
            Some(t) => without_suffix(s@, suffix@) == Some(t@),
            None => without_suffix(s@, suffix@) is None,
        },
{
    if text::has_suffix(s, suffix) {
        let n: usize = text::chars_of(suffix).len();
        let end: usize = s.len() - n;
        assert(s@.subrange(0, end as int) =~= s@.take(end as int));
        Some(slice_subrange(s, 0, end))
    } else {
        None
    }
}

/// The address that the name of a reverse lookup is about: its four octets in
/// reverse order before `.in-addr.arpa`.
pub open spec fn reverse_ip(name: Seq<char>) -> Option<Ipv4Addr> {
    let n = text::lower(text::trim_end(name, Class::Is('.')));
    match without_suffix(n, ".in-addr.arpa"@) {
        None => None,
        Some(base) => {
            let p = text::split(base, Class::Is('.'));
            if p.len() != 4 {
                None
            } else {
                match (
                    number::unsigned(p[3], 10, 255),
                    number::unsigned(p[2], 10, 255),
                    number::unsigned(p[1], 10, 255),
                    number::unsigned(p[0], 10, 255),
                ) {
                    (Some(a), Some(b), Some(c), Some(d)) => Some(
                        Ipv4Addr { bits: (a * 0x100_0000 + b * 0x1_0000 + c * 256 + d) as u32 },
                    ),
                    _ => None,
                }
            }
        },
    }
}

/// Reads the address that the name of a reverse lookup is about.
pub fn ptr_name_to_ip(name: &str) -> (r: Option<Ipv4Addr>)
    ensures
        r == reverse_ip(name@),
{
    let chars = text::chars_of(name);
    let n = text::lowered(text::strip_end(chars.as_slice(), Class::Is('.')));
    let base = match strip_suffix(n.as_slice(), ".in-addr.arpa") {
        Some(base) => base,
        None => {
            return None;
        },
    };
    let parts = text::parts_of(base, Class::Is('.'));
    let ghost p = text::split(base@, Class::Is('.'));
    assert(p.len() == parts@.len());
    if parts.len() != 4 {
        return None;
    }
    assert forall|i: int| 0 <= i < 4 implies p[i] == #[trigger] parts@[i]@ by {}
    match (
        number::read_unsigned(parts[3].as_slice(), 10, 255),
        number::read_unsigned(parts[2].as_slice(), 10, 255),
        number::read_unsigned(parts[1].as_slice(), 10, 255),
        number::read_unsigned(parts[0].as_slice(), 10, 255),
    ) {
        (Some(a), Some(b), Some(c), Some(d)) => Some(
            Ipv4Addr::new(a as u8, b as u8, c as u8, d as u8),
        ),
        _ => None,
    }
}

/// Bytes in hexadecimal, two digits each, between colons.
pub open spec fn hex_bytes(b: Seq<u8>) -> Seq<char>
    decreases b.len(),
{
    if b.len() == 0 {
        seq![]
    } else if b.len() == 1 {
        number::hex_padded(b[0] as int, 2)
    } else {
        hex_bytes(b.drop_last()) + seq![':'] + number::hex_padded(b.last() as int, 2)
    }
}

/// The host name that the options of a DHCP packet carry from position `i` on,
/// given the one found before: the last one that is text. An option that is cut
/// short ends the search.
pub open spec fn option_hostname(
    pkt: Seq<u8>,
    i: int,
    found: Option<Seq<char>>,
) -> Option<Seq<char>>
    decreases pkt.len() - i,
{
    if i < 0 || i >= pkt.len() || pkt[i] == 255 {
        found
    } else if pkt[i] == 0 {
        option_hostname(pkt, i + 1, found)
    } else if i + 1 >= pkt.len() || i + 2 + pkt[i + 1] > pkt.len() {
        found
    } else {
        let end = i + 2 + pkt[i + 1];
        let value = pkt.subrange(i + 2, end);
        option_hostname(
            pkt,
            end,
            if pkt[i] == 12 && vstd::utf8::valid_utf8(value) {
                Some(vstd::utf8::decode_utf8(value))
            } else {
                found
            },
        )
    }
}

/// The hardware address of the client and the host name that it asks for, in a
/// packet that a DHCP client sends. A packet without the cookie carries no options.
pub open spec fn dhcp_request(pkt: Seq<u8>) -> Option<(Seq<char>, Option<Seq<char>>)> {
    if pkt.len() < 240 || pkt[0] != 1 || pkt[2] == 0 || pkt[2] > 16 {
        None
    } else {
        let n = if pkt[2] < 6 {
            pkt[2] as int
        } else {
            6
        };
        match oui::canonical_mac(hex_bytes(pkt.subrange(28, 28 + n))) {
            None => None,
            Some(mac) => Some(
                (
                    mac,
                    if pkt.subrange(236, 240) == seq![0x63u8, 0x82u8, 0x53u8, 0x63u8] {
                        option_hostname(pkt, 240, None)
                    } else {
                        None
                    },
                ),
            ),
        }
    }
}

fn hex_text(b: &[u8]) -> (r: String)
    ensures
        r@ == hex_bytes(b@),
{
    let mut out = String::new();
    let mut i: usize = 0;
    assert(b@.take(0) =~= seq![]);
    while i < b.len()
        invariant
            i <= b@.len(),
            out@ == hex_bytes(b@.take(i as int)),
        decreases b@.len() - i,
    {
        if i > 0 {
            out.push(':');
        }
        number::push_hex_padded(&mut out, b[i] as u64, 2);
        i += 1;
        proof {
            let now = b@.take(i as int);
            assert(now.drop_last() =~= b@.take(i - 1));
            assert(now.last() == b@[i - 1]);
            assert(out@ =~= hex_bytes(now));
        }
    }
    assert(b@.take(i as int) =~= b@);
    out
}

/// Reads the hardware address of the client and the host name that it asks for out
/// of a DHCP packet. Replies and runts are ignored.
pub fn parse_dhcp(pkt: &[u8]) -> (r: Option<(String, Option<String>)>)
    ensures
        match r {
            Some((mac, hostname)) => dhcp_request(pkt@) == Some((mac@, db::opt(hostname))),
            None => dhcp_request(pkt@) is None,
        },
{
    if pkt.len() < 240 || pkt[0] != 1 {
        return None;
    }
    let hlen: usize = pkt[2] as usize;
    if hlen == 0 || hlen > 16 {
        return None;
    }
    let n: usize = if hlen < 6 {
        hlen
    } else {
        6
    };
    let raw = hex_text(slice_subrange(pkt, 28, 28 + n));
    let mac = match oui::normalize(raw.as_str()) {
        Some(mac) => mac,
        None => {
            return None;
        },
    };
    let ghost cookie = pkt@.subrange(236, 240);
    if pkt[236] != 0x63 || pkt[237] != 0x82 || pkt[238] != 0x53 || pkt[239] != 0x63 {
        proof {
            if cookie == seq![0x63u8, 0x82u8, 0x53u8, 0x63u8] {
                assert(cookie[0] == 0x63 && cookie[1] == 0x82 && cookie[2] == 0x53 && cookie[3]
                    == 0x63);
            }
        }
        return Some((mac, None));
    }
    assert(cookie =~= seq![0x63u8, 0x82u8, 0x53u8, 0x63u8]);
    let mut hostname: Option<String> = None;
    let mut i: usize = 240;
    let ghost want = option_hostname(pkt@, 240, None);
    while i < pkt.len() && pkt[i] != 255
        invariant
            240 <= i <= pkt@.len(),
            want == option_hostname(pkt@, i as int, db::opt(hostname)),
            dhcp_request(pkt@) == Some((mac@, want)),
        ensures
            want == db::opt(hostname),
            dhcp_request(pkt@) == Some((mac@, want)),
        decreases pkt@.len() - i,
    {
        if pkt[i] == 0 {
            i += 1;
            continue ;
        }
        if pkt.len() - i <= 1 {
            break ;
        }
        let len: usize = pkt[i + 1] as usize;
        if pkt.len() - i - 2 < len {
            break ;
        }
        let end: usize = i + 2 + len;
        if pkt[i] == 12 {
            if let Ok(s) = core::str::from_utf8(slice_subrange(pkt, i + 2, end)) {
                hostname = Some(s.to_string());
            }
        }
        i = end;
    }
    Some((mac, hostname))
}

/// What is known of a device.
#[derive(Debug)]
pub struct Device {
    pub mac: String,
    pub ip: Option<Ipv4Addr>,
    pub hostname: Option<String>,
    pub vendor: Option<String>,
    pub randomized: bool,
}

/// The model of a device.
#[verifier::ext_equal]
pub struct DeviceView {
    pub mac: Seq<char>,
    pub ip: Option<Ipv4Addr>,
    pub hostname: Option<Seq<char>>,
    pub vendor: Option<Seq<char>>,
    pub randomized: bool,
}

impl View for Device {
    type V = DeviceView;

    open spec fn view(&self) -> DeviceView {
        DeviceView {
            mac: self.mac@,
            ip: self.ip,
            hostname: db::opt(self.hostname),
            vendor: db::opt(self.vendor),
            randomized: self.randomized,
        }
    }
}

fn clone_text(s: &Option<String>) -> (r: Option<String>)
    ensures
        db::opt(r) == db::opt(*s),
{
    match s {
        Some(t) => Some(t.clone()),
        None => None,
    }
}

impl Clone for Device {
    fn clone(&self) -> (r: Device)
        ensures
            r@ == self@,
    {
        Device {
            mac: self.mac.clone(),
            ip: self.ip,
            hostname: clone_text(&self.hostname),
            vendor: clone_text(&self.vendor),
            randomized: self.randomized,
        }
    }
}

/// What is known of the devices on the network.
pub struct DeviceStore {
    by_mac: StringHashMap<Device>,
    /// The device that has each address.
    ip_to_mac: Vec<(Ipv4Addr, String)>,
    /// Names that were learned for an address before its device was known.
    pending_names: Vec<(Ipv4Addr, String)>,
    oui: OuiDb,
}

/// The model of the devices on the network.
#[verifier::ext_equal]
pub struct StoreView {
    pub by_mac: Map<Seq<char>, DeviceView>,
    pub ip_to_mac: Map<Ipv4Addr, Seq<char>>,
    pub pending: Map<Ipv4Addr, Seq<char>>,
    pub vendors: Map<Seq<char>, Seq<char>>,
}

/// A device of which only the hardware address is known.
pub open spec fn unknown_device(mac: Seq<char>) -> DeviceView {
    DeviceView { mac, ip: None, hostname: None, vendor: None, randomized: false }
}

impl StoreView {
    /// Each address belongs to a device that is known, devices are found by their
    /// own hardware address, and every name can be shown.
    pub open spec fn wf(self) -> bool {
        &&& forall|ip: Ipv4Addr| #[trigger]
            self.ip_to_mac.contains_key(ip) ==> self.by_mac.contains_key(self.ip_to_mac[ip])
        &&& forall|m: Seq<char>| #[trigger] self.by_mac.contains_key(m) ==> self.by_mac[m].mac == m
        &&& forall|m: Seq<char>| #[trigger]
            self.by_mac.contains_key(m) && self.by_mac[m].hostname is Some ==> shown(
                self.by_mac[m].hostname->0,
            )
        &&& forall|ip: Ipv4Addr| #[trigger]
            self.pending.contains_key(ip) ==> shown(self.pending[ip])
    }

    /// The device with a hardware address in canonical form.
    pub open spec fn device(self, mac: Seq<char>) -> DeviceView {
        if self.by_mac.contains_key(mac) {
            self.by_mac[mac]
        } else {
            unknown_device(mac)
        }
    }

    /// The vendor of a device. An address that is made up has none.
    pub open spec fn vendor(self, mac: Seq<char>) -> Option<Seq<char>> {
        if oui::randomized(mac) {
            Some("(randomized MAC)"@)
        } else {
            oui::vendor_of(self.vendors, mac)
        }
    }

    /// The device with its vendor, unless it has one.
    pub open spec fn identified(self, mac: Seq<char>) -> DeviceView {
        let d = self.device(mac);
        DeviceView {
            randomized: oui::randomized(mac),
            vendor: db::coalesce(d.vendor, self.vendor(mac)),
            ..d
        }
    }

    /// The device that has `ip`, once it is known to be the one with the hardware
    /// address `mac`. A name that was learned for the address is now its name.
    pub open spec fn sighted(self, ip: Ipv4Addr, mac: Seq<char>) -> DeviceView {
        let d = self.identified(mac);
        DeviceView {
            ip: Some(ip),
            hostname: if self.pending.contains_key(ip) {
                Some(self.pending[ip])
            } else {
                d.hostname
            },
            ..d
        }
    }

    /// The devices after `ip` was seen with the hardware address `mac`.
    pub open spec fn observed(self, ip: Ipv4Addr, mac: Seq<char>) -> StoreView {
        StoreView {
            by_mac: self.by_mac.insert(mac, self.sighted(ip, mac)),
            ip_to_mac: self.ip_to_mac.insert(ip, mac),
            pending: self.pending.remove(ip),
            ..self
        }
    }

    /// The devices after the one with the hardware address `mac` was named.
    pub open spec fn named(self, mac: Seq<char>, name: Seq<char>) -> StoreView {
        StoreView {
            by_mac: self.by_mac.insert(
                mac,
                DeviceView { hostname: Some(name), ..self.identified(mac) },
            ),
            ..self
        }
    }

    /// The devices after a name was learned for `ip`. It is given to the device
    /// that has the address, unless that has a name, or else kept for it.
    pub open spec fn named_by_ip(self, ip: Ipv4Addr, name: Seq<char>) -> StoreView {
        if self.ip_to_mac.contains_key(ip) {
            let mac = self.ip_to_mac[ip];
            let d = self.by_mac[mac];
            StoreView {
                by_mac: self.by_mac.insert(
                    mac,
                    DeviceView { hostname: db::coalesce(d.hostname, Some(name)), ..d },
                ),
                ..self
            }
        } else {
            StoreView { pending: self.pending.insert(ip, name), ..self }
        }
    }

    /// The devices after `raw` was learned as the name for `ip`, if it is a name.
    pub open spec fn learned(self, ip: Ipv4Addr, raw: Seq<char>) -> StoreView {
        match hostname_of(raw) {
            Some(name) => self.named_by_ip(ip, name),
            None => self,
        }
    }

    /// What is stored when `raw` was learned as the name for `ip`.
    pub open spec fn learned_op(self, ip: Ipv4Addr, raw: Seq<char>, ts: i64) -> Option<OpView> {
        match hostname_of(raw) {
            Some(name) => if self.ip_to_mac.contains_key(ip) {
                let mac = self.ip_to_mac[ip];
                Some(device_op(self.named_by_ip(ip, name).by_mac[mac], ts))
            } else {
                None
            },
            None => None,
        }
    }

    /// Whether `ip` belongs to a device without a name, and none is kept for it.
    pub open spec fn nameless(self, ip: Ipv4Addr) -> bool {
        &&& self.ip_to_mac.contains_key(ip)
        &&& !self.pending.contains_key(ip)
        &&& self.by_mac[self.ip_to_mac[ip]].hostname is None
    }
}

/// A name that can be shown: a plausible host name, in lower case.
pub open spec fn shown(name: Seq<char>) -> bool {
    0 < name.len() <= 64 && forall|i: int|
        0 <= i < name.len() ==> host_char(#[trigger] name[i]) && !('A' <= name[i] <= 'Z')
}

/// What is stored of a device.
pub open spec fn device_op(d: DeviceView, ts: i64) -> OpView {
    OpView::Device {
        mac: d.mac,
        ip: match d.ip {
            Some(ip) => Some(ip.text()),
            None => None,
        },
        hostname: d.hostname,
        vendor: d.vendor,
        randomized: d.randomized,
        ts,
    }
}

/// The model of something that may be stored.
pub open spec fn op_view(op: Option<WriteOp>) -> Option<OpView> {
    match op {
        Some(o) => Some(o@),
        None => None,
    }
}

fn persist(dev: &Device, ts: i64) -> (r: WriteOp)
    ensures
        r@ == device_op(dev@, ts),
{
    WriteOp::Device {
        mac: dev.mac.clone(),
        ip: match dev.ip {
            Some(ip) => Some(ip.to_text()),
            None => None,
        },
        hostname: clone_text(&dev.hostname),
        vendor: clone_text(&dev.vendor),
        randomized: dev.randomized,
        ts,
    }
}

/// Names that are fit to be shown stay so in lower case.
proof fn lemma_shown(raw: Seq<char>)
    ensures
        hostname_of(raw) matches Some(n) ==> shown(n),
{
    let t = text::trim_end(text::trim(raw, Class::White), Class::Is('.'));
    if is_hostname(t) {
        let n = text::lower(t);
        assert forall|i: int| 0 <= i < n.len() implies host_char(#[trigger] n[i]) && !('A' <= n[i]
            <= 'Z') by {
            assert(host_char(t[i]));
        }
    }
}

/// The pairs of a list.
spec fn ip_pairs(v: Seq<(Ipv4Addr, String)>) -> Seq<(Ipv4Addr, Seq<char>)> {
    v.map_values(|p: (Ipv4Addr, String)| (p.0, p.1@))
}

fn find_ip(v: &Vec<(Ipv4Addr, String)>, ip: Ipv4Addr) -> (r: Option<usize>)
    requires
        table::distinct(ip_pairs(v@)),
    ensures
        match r {
            Some(i) => i < v@.len() && v@[i as int].0 == ip && table::table(
                ip_pairs(v@),
            ).contains_key(ip) && table::table(ip_pairs(v@))[ip] == v@[i as int].1@,
            None => !table::table(ip_pairs(v@)).contains_key(ip),
        },
{
    let ghost p = ip_pairs(v@);
    proof {
        table::lemma_table(p);
    }
    let mut i: usize = 0;
    while i < v.len()
        invariant
            i <= v@.len(),
            p == ip_pairs(v@),
            forall|j: int|
                0 <= j < p.len() ==> table::table(p).contains_key((#[trigger] p[j]).0)
                    && table::table(p)[p[j].0] == p[j].1,
            forall|j: int| 0 <= j < i ==> (#[trigger] p[j]).0 != ip,
        decreases v@.len() - i,
    {
        assert(p[i as int] == (v@[i as int].0, v@[i as int].1@));
        if v[i].0 == ip {
            return Some(i);
        }
        i += 1;
    }
    None
}

fn put_ip(v: &mut Vec<(Ipv4Addr, String)>, ip: Ipv4Addr, name: String)
    requires
        table::distinct(ip_pairs(old(v)@)),
    ensures
        table::distinct(ip_pairs(final(v)@)),
        table::table(ip_pairs(final(v)@)) == table::table(ip_pairs(old(v)@)).insert(ip, name@),
{
    let ghost p = ip_pairs(v@);
    let ghost n = name@;
    match find_ip(v, ip) {
        Some(i) => {
            v[i] = (ip, name);
            proof {
                table::lemma_update(p, i as int, n);
                assert(p[i as int].0 == ip);
                assert(ip_pairs(v@) =~= p.update(i as int, (ip, n)));
            }
        },
        None => {
            v.push((ip, name));
            proof {
                table::lemma_push(p, ip, n);
                assert(ip_pairs(v@) =~= p.push((ip, n)));
            }
        },
    }
}

fn take_ip(v: &mut Vec<(Ipv4Addr, String)>, ip: Ipv4Addr) -> (r: Option<String>)
    requires
        table::distinct(ip_pairs(old(v)@)),
    ensures
        table::distinct(ip_pairs(final(v)@)),
        table::table(ip_pairs(final(v)@)) == table::table(ip_pairs(old(v)@)).remove(ip),
        db::opt(r) == (if table::table(ip_pairs(old(v)@)).contains_key(ip) {
            Some(table::table(ip_pairs(old(v)@))[ip])
        } else {
            None
        }),
{
    let ghost p = ip_pairs(v@);
    match find_ip(v, ip) {
        Some(i) => {
            let (_, name) = v.swap_remove(i);
            proof {
                table::lemma_swap_remove(p, i as int);
                assert(ip_pairs(v@) =~= p.update(i as int, p.last()).drop_last());
                assert(p[i as int].0 == ip);
            }
            Some(name)
        },
        None => {
            assert(table::table(p).remove(ip) =~= table::table(p));
            None
        },
    }
}

impl DeviceStore {
    /// The model.
    pub closed spec fn view(&self) -> StoreView {
        StoreView {
            by_mac: self.by_mac@.map_values(|d: Device| d@),
            ip_to_mac: table::table(ip_pairs(self.ip_to_mac@)),
            pending: table::table(ip_pairs(self.pending_names@)),
            vendors: self.oui@,
        }
    }

    /// No address stands in a list twice, and the model is well formed.
    pub closed spec fn wf(&self) -> bool {
        &&& table::distinct(ip_pairs(self.ip_to_mac@))
        &&& table::distinct(ip_pairs(self.pending_names@))
        &&& self@.wf()
    }

    /// No device is known yet.
    pub fn new(oui: OuiDb) -> (r: DeviceStore)
        ensures
            r.wf(),
            r@ == (StoreView {
                by_mac: Map::empty(),
                ip_to_mac: Map::empty(),
                pending: Map::empty(),
                vendors: oui@,
            }),
    {
        let r = DeviceStore {
            by_mac: StringHashMap::new(),
            ip_to_mac: Vec::new(),
            pending_names: Vec::new(),
            oui,
        };
        assert(r@.by_mac =~= Map::empty());
        assert(ip_pairs(r.ip_to_mac@) =~= seq![]);
        r
    }

    /// What is known of the device with a hardware address in canonical form.
    pub fn get(&self, mac: &str) -> (r: Option<&Device>)
        ensures
            match r {
                Some(d) => self@.by_mac.contains_key(mac@) && self@.by_mac[mac@] == d@,
                None => !self@.by_mac.contains_key(mac@),
            },
    {
        let r = self.by_mac.get(mac);
        assert(self@.by_mac.contains_key(mac@) == self.by_mac@.contains_key(mac@));
        r
    }

    fn identify(&self, mac: &str) -> (r: Device)
        ensures
            r@ == self@.identified(mac@),
    {
        let randomized = oui::is_randomized(mac);
        let mut dev = match self.get(mac) {
            Some(d) => d.clone(),
            None => Device {
                mac: mac.to_string(),
                ip: None,
                hostname: None,
                vendor: None,
                randomized: false,
            },
        };
        dev.randomized = randomized;
        if dev.vendor.is_none() {
            dev.vendor = if randomized {
                Some("(randomized MAC)".to_string())
            } else {
                match self.oui.lookup(mac) {
                    Some(v) => Some(v.to_string()),
                    None => None,
                }
            };
        }
        dev
    }

    /// Notes that `ip` was seen with a hardware address, which the neighbour table
    /// says. Tells what to store.
    pub fn observe(&mut self, ip: Ipv4Addr, mac: &str, ts: i64) -> (r: Option<WriteOp>)
        requires
            old(self).wf(),
        ensures
            final(self).wf(),
            match oui::canonical_mac(mac@) {
                Some(m) => final(self)@ == old(self)@.observed(ip, m) && op_view(r) == Some(
                    device_op(old(self)@.sighted(ip, m), ts),
                ),
                None => final(self)@ == old(self)@ && r is None,
            },
    {
        let mac = match oui::normalize(mac) {
            Some(m) => m,
            None => {
                return None;
            },
        };
        let ghost m = mac@;
        let mut dev = self.identify(mac.as_str());
        let pending = take_ip(&mut self.pending_names, ip);
        put_ip(&mut self.ip_to_mac, ip, mac.clone());
        dev.ip = Some(ip);
        if let Some(name) = pending {
            dev.hostname = Some(name);
        }
        let op = persist(&dev, ts);
        let ghost d = dev@;
        assert(d =~= old(self)@.sighted(ip, m));
        self.by_mac.insert(mac, dev);
        proof {
            assert(self@.by_mac =~= old(self)@.by_mac.insert(m, d));
            assert(self@ =~= old(self)@.observed(ip, m));
            lemma_observed_wf(old(self)@, ip, m);
        }
        Some(op)
    }

    /// Notes the host name of a device, which DHCP says. Tells what to store.
    pub fn observe_named(&mut self, mac: &str, hostname: &str, ts: i64) -> (r: Option<WriteOp>)
        requires
            old(self).wf(),
        ensures
            final(self).wf(),
            match (oui::canonical_mac(mac@), hostname_of(hostname@)) {
                (Some(m), Some(name)) => {
                    &&& final(self)@ == old(self)@.named(m, name)
                    &&& op_view(r) == Some(device_op(old(self)@.named(m, name).by_mac[m], ts))
                },
                _ => final(self)@ == old(self)@ && r is None,
            },
    {
        let mac = match oui::normalize(mac) {
            Some(m) => m,
            None => {
                return None;
            },
        };
        let name = match sanitize_hostname(hostname) {
            Some(n) => n,
            None => {
                return None;
            },
        };
        let ghost m = mac@;
        let ghost n = name@;
        let mut dev = self.identify(mac.as_str());
        dev.hostname = Some(name);
        let op = persist(&dev, ts);
        let ghost d = dev@;
        self.by_mac.insert(mac, dev);
        proof {
            assert(self@.by_mac =~= old(self)@.by_mac.insert(m, d));
            assert(self@ =~= old(self)@.named(m, n));
            lemma_shown(hostname@);
            lemma_named_wf(old(self)@, m, n);
        }
        Some(op)
    }

    /// Notes a name that was found for an address, which mDNS or a reverse lookup
    /// says. It is kept until the device of the address is known. Tells what to
    /// store.
    pub fn observe_name_for_ip(&mut self, ip: Ipv4Addr, hostname: &str, ts: i64) -> (r: Option<
        WriteOp,
    >)
        requires
            old(self).wf(),
        ensures
            final(self).wf(),
            final(self)@ == old(self)@.learned(ip, hostname@),
            op_view(r) == old(self)@.learned_op(ip, hostname@, ts),
    {
        let name = match sanitize_hostname(hostname) {
            Some(n) => n,
            None => {
                return None;
            },
        };
        let ghost n = name@;
        proof {
            lemma_shown(hostname@);
            lemma_named_by_ip_wf(self@, ip, n);
        }
        match find_ip(&self.ip_to_mac, ip) {
            Some(i) => {
                let mac = self.ip_to_mac[i].1.clone();
                let ghost m = mac@;
                assert(self@.ip_to_mac.contains_key(ip) && self@.ip_to_mac[ip] == m);
                assert(self@.by_mac.contains_key(m));
                let mut dev = match self.get(mac.as_str()) {
                    Some(d) => d.clone(),
                    None => {
                        return None;
                    },
                };
                if dev.hostname.is_none() {
                    dev.hostname = Some(name);
                }
                let op = persist(&dev, ts);
                let ghost d = dev@;
                self.by_mac.insert(mac, dev);
                proof {
                    assert(self@.by_mac =~= old(self)@.by_mac.insert(m, d));
                    assert(self@ =~= old(self)@.named_by_ip(ip, n));
                }
                Some(op)
            },
            None => {
                put_ip(&mut self.pending_names, ip, name);
                assert(self@ =~= old(self)@.named_by_ip(ip, n));
                None
            },
        }
    }

    /// A query shows that the device which has the address is awake. Tells what to
    /// store.
    pub fn touch_ip(&self, ip: IpAddr, ts: i64) -> (r: Option<WriteOp>)
        requires
            self.wf(),
        ensures
            op_view(r) == self@.touched(ip, ts),
    {
        let v4 = match ip {
            IpAddr::V4(v4) => v4,
            IpAddr::V6(_) => {
                return None;
            },
        };
        match find_ip(&self.ip_to_mac, v4) {
            Some(i) => {
                assert(self@.ip_to_mac.contains_key(v4));
                match self.get(self.ip_to_mac[i].1.as_str()) {
                    Some(d) => Some(persist(d, ts)),
                    None => None,
                }
            },
            None => None,
        }
    }

    /// The addresses of devices that have no name and for which none is kept.
    pub fn ips_needing_names(&self) -> (r: Vec<Ipv4Addr>)
        requires
            self.wf(),
        ensures
            r@.no_duplicates(),
            forall|ip: Ipv4Addr| #[trigger] r@.contains(ip) <==> self@.nameless(ip),
    {
        let ghost p = ip_pairs(self.ip_to_mac@);
        proof {
            table::lemma_table(p);
        }
        let mut out: Vec<Ipv4Addr> = Vec::new();
        let mut i: usize = 0;
        while i < self.ip_to_mac.len()
            invariant
                self.wf(),
                i <= self.ip_to_mac@.len(),
                p == ip_pairs(self.ip_to_mac@),
                table::distinct(p),
                forall|j: int|
                    0 <= j < p.len() ==> table::table(p).contains_key((#[trigger] p[j]).0)
                        && table::table(p)[p[j].0] == p[j].1,
                out@.no_duplicates(),
                forall|k: int|
                    0 <= k < out@.len() ==> self@.nameless(#[trigger] out@[k]) && exists|j: int|
                        0 <= j < i && (#[trigger] p[j]).0 == out@[k],
                forall|j: int|
                    0 <= j < i && self@.nameless((#[trigger] p[j]).0) ==> out@.contains(p[j].0),
            decreases self.ip_to_mac@.len() - i,
        {
            let ip = self.ip_to_mac[i].0;
            let ghost before = out@;
            assert(p[i as int] == (ip, self.ip_to_mac@[i as int].1@));
            assert(self@.ip_to_mac.contains_key(ip));
            let named = match self.get(self.ip_to_mac[i].1.as_str()) {
                Some(d) => d.hostname.is_some(),
                None => false,
            };
            if !named && find_ip(&self.pending_names, ip).is_none() {
                proof {
                    if out@.contains(ip) {
                        let k = choose|k: int| 0 <= k < out@.len() && out@[k] == ip;
                        let j = choose|j: int| 0 <= j < i && (#[trigger] p[j]).0 == out@[k];
                        assert(p[j].0 != p[i as int].0);
                    }
                }
                out.push(ip);
                assert(out@[before.len() as int] == ip);
                assert forall|k: int| 0 <= k < out@.len() implies self@.nameless(
                    #[trigger] out@[k],
                ) && exists|j: int| 0 <= j < i + 1 && (#[trigger] p[j]).0 == out@[k] by {
                    if k < before.len() {
                        assert(out@[k] == before[k]);
                        let j = choose|j: int| 0 <= j < i && (#[trigger] p[j]).0 == before[k];
                        assert(p[j].0 == out@[k]);
                    } else {
                        assert(p[i as int].0 == out@[k]);
                    }
                }
                assert forall|j: int|
                    0 <= j < i + 1 && self@.nameless((#[trigger] p[j]).0) implies out@.contains(
                    p[j].0,
                ) by {
                    if j < i {
                        assert(before.contains(p[j].0));
                        let k = choose|k: int| 0 <= k < before.len() && before[k] == p[j].0;
                        assert(out@[k] == p[j].0);
                    } else {
                        assert(out@[before.len() as int] == p[j].0);
                    }
                }
            }
            i += 1;
        }
        proof {
            assert forall|ip: Ipv4Addr| self@.nameless(ip) implies #[trigger] out@.contains(ip) by {
                let j = choose|j: int| 0 <= j < p.len() && (#[trigger] p[j]).0 == ip;
                assert(self@.nameless(p[j].0));
            }
            assert forall|ip: Ipv4Addr| #[trigger] out@.contains(ip) implies self@.nameless(ip) by {
                let k = choose|k: int| 0 <= k < out@.len() && out@[k] == ip;
                assert(self@.nameless(out@[k]));
            }
        }
        out
    }
}

impl StoreView {
    /// What is stored when a query came from `ip`: the device that has the address,
    /// if one does. Devices are not found by addresses of IPv6.
    pub open spec fn touched(self, ip: IpAddr, ts: i64) -> Option<OpView> {
        match ip {
            IpAddr::V4(v4) => if self.ip_to_mac.contains_key(v4) {
                Some(device_op(self.by_mac[self.ip_to_mac[v4]], ts))
            } else {
                None
            },
            IpAddr::V6(_) => None,
        }
    }
}

proof fn lemma_observed_wf(s: StoreView, ip: Ipv4Addr, mac: Seq<char>)
    requires
        s.wf(),
    ensures
        s.observed(ip, mac).wf(),
{
}

proof fn lemma_named_wf(s: StoreView, mac: Seq<char>, name: Seq<char>)
    requires
        s.wf(),
        shown(name),
    ensures
        s.named(mac, name).wf(),
{
}

proof fn lemma_named_by_ip_wf(s: StoreView, ip: Ipv4Addr, name: Seq<char>)
    requires
        s.wf(),
        shown(name),
    ensures
        s.named_by_ip(ip, name).wf(),
{
}

/// What comes before the first dot of a text.
pub open spec fn first_label(s: Seq<char>) -> Seq<char> {
    s.take(text::find(s, Class::Is('.')))
}

fn up_to_dot(s: &[char]) -> (r: &[char])
    ensures
        r@ == first_label(s@),
{
    assert(s@.skip(0) =~= s@);
    let n: usize = text::scan(s, Class::Is('.'), 0);
    assert(s@.subrange(0, n as int) =~= s@.take(n as int));
    slice_subrange(s, 0, n)
}

/// The text of a name without the dot at its end and without `.local`.
pub open spec fn short_name(labels: Seq<Seq<u8>>) -> Seq<char> {
    let t = text::trim_end(message::name_text(labels), Class::Is('.'));
    match without_suffix(t, ".local"@) {
        Some(s) => s,
        None => t,
    }
}

fn shorten(name: &Name) -> (r: Vec<char>)
    ensures
        r@ == short_name(name@),
{
    let chars = text::chars_of(name.to_ascii().as_str());
    let t = text::strip_end(chars.as_slice(), Class::Is('.'));
    match strip_suffix(t, ".local") {
        Some(s) => slice_to_vec(s),
        None => slice_to_vec(t),
    }
}

/// What a record tells about the name of a device: an address record for a name
/// under `.local` is a device naming itself, and the answer to a reverse lookup is
/// the name that somebody else knows.
pub open spec fn lesson(r: RecordView) -> Option<(Ipv4Addr, Seq<char>)> {
    match message::v4_of(r) {
        Some(ip) => match without_suffix(
            text::trim_end(message::name_text(r.name), Class::Is('.')),
            ".local"@,
        ) {
            Some(name) => Some((ip, name)),
            None => None,
        },
        None => if r.rtype == TYPE_PTR {
            match (reverse_ip(message::name_text(r.name)), message::target(r)) {
                (Some(ip), Some(labels)) => Some((ip, short_name(labels))),
                _ => None,
            }
        } else {
            None
        },
    }
}

fn lesson_of(r: &Record) -> (l: Option<(Ipv4Addr, String)>)
    ensures
        match l {
            Some((ip, name)) => lesson(r@) == Some((ip, name@)),
            None => lesson(r@) is None,
        },
{
    match r.v4() {
        Some(ip) => {
            let chars = text::chars_of(r.name.to_ascii().as_str());
            match strip_suffix(text::strip_end(chars.as_slice(), Class::Is('.')), ".local") {
                Some(name) => Some((ip, text::string_of(name))),
                None => None,
            }
        },
        None => {
            if r.rtype != TYPE_PTR {
                return None;
            }
            match (ptr_name_to_ip(r.name.to_ascii().as_str()), r.target()) {
                (Some(ip), Some(t)) => Some((ip, text::string_of(shorten(&t).as_slice()))),
                _ => None,
            }
        },
    }
}

/// The models of what is stored.
pub open spec fn op_views(ops: Seq<WriteOp>) -> Seq<OpView> {
    ops.map_values(|o: WriteOp| o@)
}

/// Something that may be stored, after other things.
pub open spec fn with_op(ops: Seq<OpView>, op: Option<OpView>) -> Seq<OpView> {
    match op {
        Some(o) => ops.push(o),
        None => ops,
    }
}

impl StoreView {
    /// The devices after one lesson.
    pub open spec fn after_lesson(self, l: Option<(Ipv4Addr, Seq<char>)>) -> StoreView {
        match l {
            Some((ip, raw)) => self.learned(ip, raw),
            None => self,
        }
    }

    /// The devices after everything that records tell.
    pub open spec fn taught(self, rs: Seq<RecordView>) -> StoreView
        decreases rs.len(),
    {
        if rs.len() == 0 {
            self
        } else {
            self.taught(rs.drop_last()).after_lesson(lesson(rs.last()))
        }
    }

    /// What is stored when records are read.
    pub open spec fn taught_ops(self, rs: Seq<RecordView>, ts: i64) -> Seq<OpView>
        decreases rs.len(),
    {
        if rs.len() == 0 {
            seq![]
        } else {
            with_op(
                self.taught_ops(rs.drop_last(), ts),
                match lesson(rs.last()) {
                    Some((ip, raw)) => self.taught(rs.drop_last()).learned_op(ip, raw, ts),
                    None => None,
                },
            )
        }
    }

    /// The devices after `src` advertised names for itself.
    pub open spec fn advertised(self, src: Ipv4Addr, names: Seq<Seq<char>>) -> StoreView
        decreases names.len(),
    {
        if names.len() == 0 {
            self
        } else {
            self.advertised(src, names.drop_last()).learned(src, names.last())
        }
    }

    /// What is stored when `src` advertised names for itself.
    pub open spec fn advertised_ops(
        self,
        src: Ipv4Addr,
        names: Seq<Seq<char>>,
        ts: i64,
    ) -> Seq<OpView>
        decreases names.len(),
    {
        if names.len() == 0 {
            seq![]
        } else {
            with_op(
                self.advertised_ops(src, names.drop_last(), ts),
                self.advertised(src, names.drop_last()).learned_op(src, names.last(), ts),
            )
        }
    }
}

/// The names that address records give to `src`.
pub open spec fn own_names(rs: Seq<RecordView>, src: Ipv4Addr) -> Seq<Seq<char>>
    decreases rs.len(),
{
    if rs.len() == 0 {
        seq![]
    } else if message::v4_of(rs.last()) == Some(src) {
        own_names(rs.drop_last(), src).push(short_name(rs.last().name))
    } else {
        own_names(rs.drop_last(), src)
    }
}

/// Whether a record places a service.
pub open spec fn places_service(r: RecordView) -> bool {
    r.rtype == TYPE_SRV && r.rdata.len() > 0
}

/// The instance name in the first record that places a service.
pub open spec fn service_name(rs: Seq<RecordView>) -> Option<Seq<char>>
    decreases rs.len(),
{
    if rs.len() == 0 {
        None
    } else if places_service(rs[0]) {
        Some(first_label(message::name_text(rs[0].name)))
    } else {
        service_name(rs.drop_first())
    }
}

/// The names that an mDNS message from `src` gives to its sender: those of its own
/// address records, or else the instance name of its first service.
pub open spec fn mdns_names(m: MessageView, src: Ipv4Addr) -> Seq<Seq<char>> {
    let own = own_names(m.answers, src);
    if own.len() > 0 {
        own
    } else {
        match service_name(m.answers) {
            Some(name) => seq![name],
            None => seq![],
        }
    }
}

fn names_in_mdns(msg: &Message, src: Ipv4Addr) -> (r: Vec<String>)
    ensures
        text::strings(r@) == mdns_names(msg@, src),
{
    let mut out: Vec<String> = Vec::new();
    let ghost rs = msg@.answers;
    let mut i: usize = 0;
    assert(rs.take(0) =~= seq![]);
    assert(text::strings(out@) =~= own_names(rs.take(0), src));
    while i < msg.answers.len()
        invariant
            i <= msg.answers@.len(),
            rs == message::records(msg.answers@),
            text::strings(out@) == own_names(rs.take(i as int), src),
        decreases msg.answers@.len() - i,
    {
        let ghost before = text::strings(out@);
        assert(rs.take(i + 1).drop_last() =~= rs.take(i as int));
        assert(rs.take(i + 1).last() == msg.answers@[i as int]@);
        if msg.answers[i].v4() == Some(src) {
            let name = text::string_of(shorten(&msg.answers[i].name).as_slice());
            out.push(name);
            assert(text::strings(out@) =~= before.push(name@));
        }
        i += 1;
    }
    assert(rs.take(i as int) =~= rs);
    if out.len() > 0 {
        return out;
    }
    let mut j: usize = 0;
    assert(rs.skip(0) =~= rs);
    while j < msg.answers.len()
        invariant
            j <= msg.answers@.len(),
            rs == message::records(msg.answers@),
            service_name(rs) == service_name(rs.skip(j as int)),
            out@.len() == 0,
            mdns_names(msg@, src) == (match service_name(rs) {
                Some(name) => seq![name],
                None => seq![],
            }),
        decreases msg.answers@.len() - j,
    {
        assert(rs.skip(j as int)[0] == msg.answers@[j as int]@);
        assert(rs.skip(j as int).drop_first() =~= rs.skip(j + 1));
        if msg.answers[j].rtype == TYPE_SRV && msg.answers[j].rdata.len() > 0 {
            let chars = text::chars_of(msg.answers[j].name.to_ascii().as_str());
            let name = text::string_of(up_to_dot(chars.as_slice()));
            out.push(name);
            assert(text::strings(out@) =~= seq![name@]);
            return out;
        }
        j += 1;
    }
    assert(text::strings(out@) =~= seq![]);
    out
}

impl DeviceStore {
    /// Takes the names of devices from the answers of DNS messages that are handled
    /// anyway. Tells what to store.
    pub fn learn_from_dns(&mut self, msg: &Message, ts: i64) -> (r: Vec<WriteOp>)
        requires
            old(self).wf(),
        ensures
            final(self).wf(),
            final(self)@ == old(self)@.taught(msg@.answers),
            op_views(r@) == old(self)@.taught_ops(msg@.answers, ts),
    {
        let mut out: Vec<WriteOp> = Vec::new();
        let ghost rs = msg@.answers;
        let mut i: usize = 0;
        assert(rs.take(0) =~= seq![]);
        assert(op_views(out@) =~= seq![]);
        while i < msg.answers.len()
            invariant
                i <= msg.answers@.len(),
                rs == message::records(msg.answers@),
                self.wf(),
                self@ == old(self)@.taught(rs.take(i as int)),
                op_views(out@) == old(self)@.taught_ops(rs.take(i as int), ts),
            decreases msg.answers@.len() - i,
        {
            let ghost before = op_views(out@);
            assert(rs.take(i + 1).drop_last() =~= rs.take(i as int));
            assert(rs.take(i + 1).last() == msg.answers@[i as int]@);
            if let Some((ip, name)) = lesson_of(&msg.answers[i]) {
                if let Some(op) = self.observe_name_for_ip(ip, name.as_str(), ts) {
                    out.push(op);
                    assert(op_views(out@) =~= before.push(op@));
                }
            }
            i += 1;
        }
        assert(rs.take(i as int) =~= rs);
        out
    }

    /// Takes the name of a device from an mDNS message that it sent. Tells what to
    /// store.
    pub fn learn_from_mdns(&mut self, src: Ipv4Addr, msg: &Message, ts: i64) -> (r: Vec<WriteOp>)
        requires
            old(self).wf(),
        ensures
            final(self).wf(),
            final(self)@ == old(self)@.advertised(src, mdns_names(msg@, src)),
            op_views(r@) == old(self)@.advertised_ops(src, mdns_names(msg@, src), ts),
    {
        let mut out: Vec<WriteOp> = Vec::new();
        let names = names_in_mdns(msg, src);
        let ghost ns = text::strings(names@);
        let mut i: usize = 0;
        assert(ns.take(0) =~= seq![]);
        assert(op_views(out@) =~= seq![]);
        while i < names.len()
            invariant
                i <= names@.len(),
                ns == text::strings(names@),
                self.wf(),
                self@ == old(self)@.advertised(src, ns.take(i as int)),
                op_views(out@) == old(self)@.advertised_ops(src, ns.take(i as int), ts),
            decreases names@.len() - i,
        {
            let ghost before = op_views(out@);
            assert(ns.take(i + 1).drop_last() =~= ns.take(i as int));
            assert(ns.take(i + 1).last() == names@[i as int]@);
            if let Some(op) = self.observe_name_for_ip(src, names[i].as_str(), ts) {
                out.push(op);
                assert(op_views(out@) =~= before.push(op@));
            }
            i += 1;
        }
        assert(ns.take(i as int) =~= ns);
        out
    }

    /// Reads a datagram that was sent to the mDNS group. Tells what to store.
    pub fn hear_mdns(&mut self, src: IpAddr, pkt: &[u8], ts: i64) -> (r: Vec<WriteOp>)
        requires
            old(self).wf(),
        ensures
            final(self).wf(),
            match (src, message::decoded(pkt@)) {
                (IpAddr::V4(ip), Some(m)) => {
                    &&& final(self)@ == old(self)@.advertised(ip, mdns_names(m, ip))
                    &&& op_views(r@) == old(self)@.advertised_ops(ip, mdns_names(m, ip), ts)
                },
                _ => final(self)@ == old(self)@ && r@.len() == 0,
            },
    {
        match (src, Message::from_vec(pkt)) {
            (IpAddr::V4(ip), Some(msg)) => self.learn_from_mdns(ip, &msg, ts),
            _ => Vec::new(),
        }
    }

    /// Reads a datagram that was sent to the DHCP server port. Tells what to store.
    pub fn hear_dhcp(&mut self, pkt: &[u8], ts: i64) -> (r: Option<WriteOp>)
        requires
            old(self).wf(),
        ensures
            final(self).wf(),
            match dhcp_request(pkt@) {
                Some((mac, Some(raw))) => match (oui::canonical_mac(mac), hostname_of(raw)) {
                    (Some(m), Some(name)) => {
                        &&& final(self)@ == old(self)@.named(m, name)
                        &&& op_view(r) == Some(device_op(old(self)@.named(m, name).by_mac[m], ts))
                    },
                    _ => final(self)@ == old(self)@ && r is None,
                },
                _ => final(self)@ == old(self)@ && r is None,
            },
    {
        match parse_dhcp(pkt) {
            Some((mac, Some(name))) => self.observe_named(mac.as_str(), name.as_str(), ts),
            _ => None,
        }
    }
}

/// The labels of the name that a reverse lookup of `ip` asks for.
pub open spec fn reverse_labels(ip: Ipv4Addr) -> Seq<Seq<u8>> {
    seq![
        digits(ip.octet(3)),
        digits(ip.octet(2)),
        digits(ip.octet(1)),
        digits(ip.octet(0)),
        bytes_of("in-addr"@),
        bytes_of("arpa"@),
    ]
}

/// ASCII text as bytes.
pub open spec fn bytes_of(s: Seq<char>) -> Seq<u8> {
    s.map_values(|c: char| c as u8)
}

/// The decimal digits of an octet, as bytes.
pub open spec fn digits(o: int) -> Seq<u8> {
    bytes_of(number::decimal(o))
}

/// The question that asks for the name of an address.
pub open spec fn reverse_question(id: u16, ip: Ipv4Addr) -> MessageView {
    MessageView {
        metadata: message::Metadata {
            recursion_desired: true,
            ..message::fresh(id, false, OP_QUERY)
        },
        queries: seq![
            message::QuestionView {
                name: reverse_labels(ip),
                qtype: TYPE_PTR,
                qclass: CLASS_IN,
            },
        ],
        ..message::bare(message::fresh(id, false, OP_QUERY))
    }
}

/// `hickory_proto::op::Message::query`: the identifier of a new query. It is picked
/// at random, so nothing is said of it.
#[verifier::external_body]
fn fresh_id() -> (r: u16) {
    op::Message::query().metadata.id
}

/// The name that the answer to a reverse lookup gives: the first label of the first
/// pointer.
pub open spec fn pointed_name(rs: Seq<RecordView>) -> Option<Seq<char>>
    decreases rs.len(),
{
    if rs.len() == 0 {
        None
    } else if rs[0].rtype == TYPE_PTR && message::target(rs[0]) is Some {
        Some(first_label(short_name(message::target(rs[0])->0)))
    } else {
        pointed_name(rs.drop_first())
    }
}

/// Reads the name that the answer to a reverse lookup gives.
pub fn name_in_reply(msg: &Message) -> (r: Option<String>)
    ensures
        db::opt(r) == pointed_name(msg@.answers),
{
    let ghost rs = msg@.answers;
    let mut j: usize = 0;
    assert(rs.skip(0) =~= rs);
    while j < msg.answers.len()
        invariant
            j <= msg.answers@.len(),
            rs == message::records(msg.answers@),
            pointed_name(rs) == pointed_name(rs.skip(j as int)),
            rs == msg@.answers,
        decreases msg.answers@.len() - j,
    {
        assert(rs.skip(j as int)[0] == msg.answers@[j as int]@);
        assert(rs.skip(j as int).drop_first() =~= rs.skip(j + 1));
        if msg.answers[j].rtype == TYPE_PTR {
            if let Some(t) = msg.answers[j].target() {
                let chars = shorten(&t);
                return Some(text::string_of(up_to_dot(chars.as_slice())));
            }
        }
        j += 1;
    }
    None
}

fn text_bytes(s: &str) -> (r: Vec<u8>)
    ensures
        r@ == bytes_of(s@),
{
    let chars = text::chars_of(s);
    let mut out: Vec<u8> = Vec::new();
    let mut i: usize = 0;
    while i < chars.len()
        invariant
            i <= chars@.len(),
            out@.len() == i,
            forall|j: int| 0 <= j < i ==> #[trigger] out@[j] == chars@[j] as u8,
        decreases chars@.len() - i,
    {
        out.push(#[verifier::truncate] (chars[i] as u8));
        i += 1;
    }
    assert(out@ =~= bytes_of(s@));
    out
}

fn octet_label(o: u8) -> (r: Vec<u8>)
    ensures
        r@ == digits(o as int),
{
    let mut t = String::new();
    number::push_number(&mut t, o as u64, 10);
    assert(t@ =~= number::decimal(o as int));
    text_bytes(t.as_str())
}

/// The question that asks for the name of an address.
pub fn reverse_message(id: u16, ip: Ipv4Addr) -> (r: Message)
    ensures
        r@ == reverse_question(id, ip),
{
    let o = ip.octets();
    let mut labels: Vec<Vec<u8>> = Vec::new();
    labels.push(octet_label(o[3]));
    labels.push(octet_label(o[2]));
    labels.push(octet_label(o[1]));
    labels.push(octet_label(o[0]));
    labels.push(text_bytes("in-addr"));
    labels.push(text_bytes("arpa"));
    let name = Name { labels };
    assert(name@ =~= reverse_labels(ip));
    let mut msg = Message::new(id, false, OP_QUERY);
    msg.metadata.recursion_desired = true;
    msg.queries.push(Question { name, qtype: TYPE_PTR, qclass: CLASS_IN });
    assert(msg@ =~= reverse_question(id, ip));
    msg
}

/// The datagram that asks for the name of an address, under some identifier.
pub fn reverse_request(ip: Ipv4Addr) -> (r: Option<Vec<u8>>)
    ensures
        exists|id: u16|
            match r {
                Some(v) => #[trigger] message::encoded(reverse_question(id, ip)) == Some(v@),
                None => message::encoded(reverse_question(id, ip)) is None,
            },
{
    let id: u16 = fresh_id();
    let r = reverse_message(id, ip).to_vec();
    assert(match r {
        Some(v) => message::encoded(reverse_question(id, ip)) == Some(v@),
        None => message::encoded(reverse_question(id, ip)) is None,
    });
    r
}

/// Reads the name that a datagram gives in answer to a reverse lookup.
pub fn reverse_reply(pkt: &[u8]) -> (r: Option<String>)
    ensures
        db::opt(r) == (match message::decoded(pkt@) {
            Some(m) => pointed_name(m.answers),
            None => None,
        }),
{
    match Message::from_vec(pkt) {
        Some(msg) => name_in_reply(&msg),
        None => None,
    }
}

/// Who is asked for the names of devices: the gateway, which knows what it leased,
/// or the given server where there is none.
pub fn reverse_server(gateway: Option<Ipv4Addr>, upstream: SocketAddr) -> (r: SocketAddr)
    ensures
        r == (match gateway {
            Some(gw) => (SocketAddr { ip: IpAddr::V4(gw), port: 53 }),
            None => upstream,
        }),
{
    match gateway {
        Some(gw) => SocketAddr { ip: IpAddr::V4(gw), port: 53 },
        None => upstream,
    }
}

/// How often the name of one address is asked for.
pub const MAX_ATTEMPTS: u8 = 3;

/// How often the name of each address was asked for in vain. Most devices have no
/// name there, so the asking comes to an end.
pub struct Attempts {
    tries: Vec<(Ipv4Addr, u8)>,
}

impl Attempts {
    /// How often each address was asked for.
    pub closed spec fn view(&self) -> Map<Ipv4Addr, u8> {
        table::table(self.tries@)
    }

    /// No address is counted twice, and none was asked for too often.
    pub closed spec fn wf(&self) -> bool {
        &&& table::distinct(self.tries@)
        &&& forall|ip: Ipv4Addr| #[trigger] self@.contains_key(ip) ==> self@[ip] <= MAX_ATTEMPTS
    }

    /// How often an address was asked for.
    pub open spec fn count(&self, ip: Ipv4Addr) -> int {
        if self@.contains_key(ip) {
            self@[ip] as int
        } else {
            0
        }
    }

    /// Nothing was asked for yet.
    pub fn new() -> (r: Attempts)
        ensures
            r.wf(),
            r@ == Map::<Ipv4Addr, u8>::empty(),
    {
        Attempts { tries: Vec::new() }
    }

    fn find(&self, ip: Ipv4Addr) -> (r: Option<usize>)
        requires
            self.wf(),
        ensures
            match r {
                Some(i) => i < self.tries@.len() && self.tries@[i as int].0 == ip
                    && self@.contains_key(ip) && self@[ip] == self.tries@[i as int].1,
                None => !self@.contains_key(ip),
            },
    {
        proof {
            table::lemma_table(self.tries@);
        }
        let mut i: usize = 0;
        while i < self.tries.len()
            invariant
                i <= self.tries@.len(),
                forall|j: int|
                    0 <= j < self.tries@.len() ==> self@.contains_key((#[trigger] self.tries@[j]).0)
                        && self@[self.tries@[j].0] == self.tries@[j].1,
                forall|j: int| 0 <= j < i ==> (#[trigger] self.tries@[j]).0 != ip,
            decreases self.tries@.len() - i,
        {
            if self.tries[i].0 == ip {
                return Some(i);
            }
            i += 1;
        }
        None
    }

    /// Tells whether an address may be asked for once more, and counts it.
    pub fn next(&mut self, ip: Ipv4Addr) -> (r: bool)
        requires
            old(self).wf(),
        ensures
            final(self).wf(),
            r == (old(self).count(ip) < MAX_ATTEMPTS),
            r == (old(self).count(ip) < 3),
            final(self)@ == (if r {
                old(self)@.insert(ip, (old(self).count(ip) + 1) as u8)
            } else {
                old(self)@
            }),
    {
        let ghost p = self.tries@;
        match self.find(ip) {
            Some(i) => {
                let n: u8 = self.tries[i].1;
                if n >= MAX_ATTEMPTS {
                    return false;
                }
                self.tries[i] = (ip, n + 1);
                proof {
                    table::lemma_update(p, i as int, (n + 1) as u8);
                    assert(self.tries@ =~= p.update(i as int, (ip, (n + 1) as u8)));
                }
                true
            },
            None => {
                self.tries.push((ip, 1));
                proof {
                    table::lemma_push(p, ip, 1u8);
                }
                true
            },
        }
    }

    /// Forgets that an address was asked for, since its name is known now.
    pub fn forget(&mut self, ip: Ipv4Addr)
        requires
            old(self).wf(),
        ensures
            final(self).wf(),
            final(self)@ == old(self)@.remove(ip),
    {
        let ghost p = self.tries@;
        match self.find(ip) {
            Some(i) => {
                self.tries.swap_remove(i);
                proof {
                    table::lemma_swap_remove(p, i as int);
                    assert(self.tries@ =~= p.update(i as int, p.last()).drop_last());
                }
            },
            None => {
                assert(self@.remove(ip) =~= self@);
            },
        }
    }
}

/// A name that was learned for an address before its device was known is the name
/// of the device once the neighbour table tells which it is.
pub proof fn a_pending_name_finds_its_device(
    s: StoreView,
    ip: Ipv4Addr,
    raw: Seq<char>,
    name: Seq<char>,
    mac: Seq<char>,
)
    requires
        !s.ip_to_mac.contains_key(ip),
        hostname_of(raw) == Some(name),
    ensures
        s.learned(ip, raw).observed(ip, mac).by_mac[mac].hostname == Some(name),
        s.learned(ip, raw).observed(ip, mac).by_mac[mac].ip == Some(ip),
        !s.learned(ip, raw).observed(ip, mac).pending.contains_key(ip),
{
}

/// What is learned for an address never takes the name from a device, nor changes
/// anything else that is known of it.
pub proof fn a_learned_name_overwrites_nothing(
    s: StoreView,
    ip: Ipv4Addr,
    raw: Seq<char>,
    mac: Seq<char>,
)
    requires
        s.wf(),
        s.by_mac.contains_key(mac),
    ensures
        s.learned(ip, raw).by_mac.contains_key(mac),
        s.by_mac[mac].hostname is Some ==> s.learned(ip, raw).by_mac[mac] == s.by_mac[mac],
        s.learned(ip, raw).by_mac[mac] == (DeviceView {
            hostname: s.learned(ip, raw).by_mac[mac].hostname,
            ..s.by_mac[mac]
        }),
{
}

/// The same holds of everything that the answers of a message tell.
pub proof fn a_message_overwrites_no_name(s: StoreView, rs: Seq<RecordView>, mac: Seq<char>)
    requires
        s.wf(),
        s.by_mac.contains_key(mac),
        s.by_mac[mac].hostname is Some,
    ensures
        s.taught(rs).wf(),
        s.taught(rs).by_mac.contains_key(mac),
        s.taught(rs).by_mac[mac] == s.by_mac[mac],
    decreases rs.len(),
{
    if rs.len() > 0 {
        a_message_overwrites_no_name(s, rs.drop_last(), mac);
        if lesson(rs.last()) is Some {
            let (ip, raw) = lesson(rs.last())->0;
            let t = s.taught(rs.drop_last());
            a_learned_name_overwrites_nothing(t, ip, raw, mac);
            lemma_shown(raw);
            if hostname_of(raw) is Some {
                lemma_named_by_ip_wf(t, ip, hostname_of(raw)->0);
            }
        }
    }
}

/// A made-up hardware address is marked as one, and no vendor is guessed for it.
pub proof fn a_made_up_address_gets_no_vendor(s: StoreView, ip: Ipv4Addr, mac: Seq<char>)
    requires
        !s.by_mac.contains_key(mac),
        oui::randomized(mac),
    ensures
        s.observed(ip, mac).by_mac[mac].randomized,
        s.observed(ip, mac).by_mac[mac].vendor == Some("(randomized MAC)"@),
{
}

/// Once a name was learned for an address, it is asked for no more.
pub proof fn a_learned_name_is_asked_for_no_more(
    s: StoreView,
    ip: Ipv4Addr,
    raw: Seq<char>,
)
    requires
        hostname_of(raw) is Some,
    ensures
        !s.learned(ip, raw).nameless(ip),
{
}

proof fn lemma_label(t: Seq<char>)
    requires
        forall|i: int|
            0 <= i < t.len() ==> 0 <= t[i] as int <= 127 && message::plain_byte(
                #[trigger] t[i] as u8,
                i == 0,
            ),
    ensures
        message::label_text(bytes_of(t)) == t,
    decreases t.len(),
{
    let b = bytes_of(t);
    if t.len() > 0 {
        let u = t.drop_last();
        assert forall|i: int| 0 <= i < u.len() implies 0 <= u[i] as int <= 127 && message::plain_byte(
            #[trigger] u[i] as u8,
            i == 0,
        ) by {
            assert(u[i] == t[i]);
        }
        lemma_label(u);
        assert(b.drop_last() =~= bytes_of(u));
        let c = t[t.len() - 1];
        assert(message::plain_byte(c as u8, t.len() == 1));
        assert(c as int <= 127);
        assert(message::byte_text(b.last(), t.len() == 1) =~= seq![c]);
        assert(message::label_text(b) =~= t);
    }
}

proof fn lemma_octet_label(o: int)
    requires
        0 <= o <= 255,
    ensures
        message::label_text(digits(o)) == number::decimal(o),
        number::unsigned(number::decimal(o), 10, 255) == Some(o),
        forall|i: int|
            0 <= i < number::decimal(o).len() ==> '0' <= #[trigger] number::decimal(o)[i] <= '9',
{
    number::a_written_number_reads_back(o, 255);
    let t = number::decimal(o);
    assert forall|i: int| 0 <= i < t.len() implies 0 <= t[i] as int <= 127 && message::plain_byte(
        #[trigger] t[i] as u8,
        i == 0,
    ) by {
        assert(number::digit(t[i], 10) >= 0);
    }
    lemma_label(t);
}

/// The decimal octets of an address in reverse order, between dots.
spec fn reverse_base(ip: Ipv4Addr) -> Seq<char> {
    number::decimal(ip.octet(3)).push('.') + (number::decimal(ip.octet(2)).push('.') + (
    number::decimal(ip.octet(1)).push('.') + number::decimal(ip.octet(0))))
}

proof fn lemma_reverse_text(ip: Ipv4Addr)
    ensures
        message::name_text(reverse_labels(ip)) == (reverse_base(ip) + ".in-addr.arpa"@).push('.'),
{
    let l = reverse_labels(ip);
    lemma_octet_label(ip.octet(0));
    lemma_octet_label(ip.octet(1));
    lemma_octet_label(ip.octet(2));
    lemma_octet_label(ip.octet(3));
    reveal_strlit("in-addr");
    reveal_strlit("arpa");
    reveal_strlit(".in-addr.arpa");
    lemma_label("in-addr"@);
    lemma_label("arpa"@);
    assert(l.drop_last() =~= l.take(5));
    assert(l.take(5).drop_last() =~= l.take(4));
    assert(l.take(4).drop_last() =~= l.take(3));
    assert(l.take(3).drop_last() =~= l.take(2));
    assert(l.take(2).drop_last() =~= l.take(1));
    assert(l.take(1).drop_last() =~= seq![]);
    assert(message::dotted(seq![]) =~= seq![]);
    assert(message::dotted(l.take(1)) =~= number::decimal(ip.octet(3)).push('.'));
    assert(message::dotted(l.take(2)) == message::dotted(l.take(1)) + number::decimal(
        ip.octet(2),
    ).push('.'));
    assert(message::dotted(l.take(3)) == message::dotted(l.take(2)) + number::decimal(
        ip.octet(1),
    ).push('.'));
    assert(message::dotted(l.take(4)) == message::dotted(l.take(3)) + number::decimal(
        ip.octet(0),
    ).push('.'));
    assert(message::dotted(l.take(5)) == message::dotted(l.take(4)) + "in-addr"@.push('.'));
    assert(message::dotted(l) == message::dotted(l.take(5)) + "arpa"@.push('.'));
    assert(message::dotted(l.take(4)) =~= reverse_base(ip).push('.'));
    assert(message::dotted(l) =~= (reverse_base(ip) + ".in-addr.arpa"@).push('.'));
}

proof fn lemma_lower_parts(a: Seq<char>, b: Seq<char>)
    requires
        text::lower(a) == a,
        text::lower(b) == b,
    ensures
        text::lower(a + b) == a + b,
{
    assert forall|i: int| 0 <= i < (a + b).len() implies text::lower_char(#[trigger] (a + b)[i])
        == (a + b)[i] by {
        if i < a.len() {
            assert(text::lower(a)[i] == a[i]);
        } else {
            assert(text::lower(b)[i - a.len()] == b[i - a.len()]);
        }
    }
    assert(text::lower(a + b) =~= a + b);
}

proof fn lemma_lower_octet(o: int)
    requires
        0 <= o <= 255,
    ensures
        text::lower(number::decimal(o)) == number::decimal(o),
        text::lower(number::decimal(o).push('.')) == number::decimal(o).push('.'),
{
    lemma_octet_label(o);
    assert(text::lower(number::decimal(o)) =~= number::decimal(o));
    assert(text::lower(number::decimal(o).push('.')) =~= number::decimal(o).push('.'));
}

proof fn lemma_reverse_split(ip: Ipv4Addr)
    ensures
        text::split(reverse_base(ip), Class::Is('.')) == seq![
            number::decimal(ip.octet(3)),
            number::decimal(ip.octet(2)),
            number::decimal(ip.octet(1)),
            number::decimal(ip.octet(0)),
        ],
{
    let a = number::decimal(ip.octet(0));
    let b = number::decimal(ip.octet(1));
    let c = number::decimal(ip.octet(2));
    let d = number::decimal(ip.octet(3));
    lemma_octet_label(ip.octet(0));
    lemma_octet_label(ip.octet(1));
    lemma_octet_label(ip.octet(2));
    lemma_octet_label(ip.octet(3));
    text::lemma_split_at(d, '.', c.push('.') + (b.push('.') + a));
    text::lemma_split_at(c, '.', b.push('.') + a);
    text::lemma_split_at(b, '.', a);
    text::lemma_split_none(a, '.');
    assert(seq![d] + (seq![c] + (seq![b] + seq![a])) =~= seq![d, c, b, a]);
}

/// The name that a reverse lookup asks for is read back as its address.
pub proof fn a_reverse_name_is_about_its_address(ip: Ipv4Addr)
    ensures
        reverse_ip(message::name_text(reverse_labels(ip))) == Some(ip),
{
    let base = reverse_base(ip);
    let suffix = ".in-addr.arpa"@;
    let t = base + suffix;
    let n = message::name_text(reverse_labels(ip));
    lemma_reverse_text(ip);
    reveal_strlit(".in-addr.arpa");
    assert(n.drop_last() =~= t);
    assert(t.last() == 'a');
    assert(text::trim_end(t, Class::Is('.')) == t);
    assert(text::trim_end(n, Class::Is('.')) == t);
    assert(text::lower(t) == t) by {
        lemma_lower_octet(ip.octet(0));
        lemma_lower_octet(ip.octet(1));
        lemma_lower_octet(ip.octet(2));
        lemma_lower_octet(ip.octet(3));
        let a = number::decimal(ip.octet(0));
        let b = number::decimal(ip.octet(1)).push('.');
        let c = number::decimal(ip.octet(2)).push('.');
        let d = number::decimal(ip.octet(3)).push('.');
        lemma_lower_parts(b, a);
        lemma_lower_parts(c, b + a);
        lemma_lower_parts(d, c + (b + a));
        assert(text::lower(suffix) =~= suffix);
        lemma_lower_parts(base, suffix);
    }
    assert(t.skip(t.len() - suffix.len()) =~= suffix);
    assert(t.take(t.len() - suffix.len()) =~= base);
    lemma_reverse_split(ip);
    lemma_octet_label(ip.octet(0));
    lemma_octet_label(ip.octet(1));
    lemma_octet_label(ip.octet(2));
    lemma_octet_label(ip.octet(3));
    let bits = ip.bits;
    assert(bits / 0x100_0000 * 0x100_0000 + bits / 0x1_0000 % 256 * 0x1_0000 + bits / 256 % 256
        * 256 + bits % 256 == bits) by (bit_vector);
}

/// A device is stored again after this many seconds, though nothing has changed.
pub const HEARTBEAT_SECS: i64 = 60;

/// What was last stored of a device.
struct Stored {
    ip: Option<String>,
    hostname: Option<String>,
    vendor: Option<String>,
    randomized: bool,
    ts: i64,
}

/// The model of what was last stored of a device.
#[verifier::ext_equal]
pub struct StoredView {
    pub ip: Option<Seq<char>>,
    pub hostname: Option<Seq<char>>,
    pub vendor: Option<Seq<char>>,
    pub randomized: bool,
    pub ts: i64,
}

impl Stored {
    spec fn view(&self) -> StoredView {
        StoredView {
            ip: db::opt(self.ip),
            hostname: db::opt(self.hostname),
            vendor: db::opt(self.vendor),
            randomized: self.randomized,
            ts: self.ts,
        }
    }
}

/// Spares the disk: a device is stored when something about it has changed, and
/// otherwise only once in a while.
pub struct WriteGate {
    stored: StringHashMap<Stored>,
}

/// Whether something about a device has changed, or it was stored long ago.
pub open spec fn worth_storing(last: StoredView, next: StoredView) -> bool {
    ||| last.ip != next.ip
    ||| last.hostname != next.hostname
    ||| last.vendor != next.vendor
    ||| last.randomized != next.randomized
    ||| next.ts >= last.ts + HEARTBEAT_SECS
}

/// Whether what was last stored of the devices lets a device pass.
pub open spec fn passes(m: Map<Seq<char>, StoredView>, mac: Seq<char>, next: StoredView) -> bool {
    !m.contains_key(mac) || worth_storing(m[mac], next)
}

fn same_text(a: &Option<String>, b: &Option<String>) -> (r: bool)
    ensures
        r == (db::opt(*a) == db::opt(*b)),
{
    match (a, b) {
        (Some(s), Some(t)) => text::is_text(
            text::chars_of(s.as_str()).as_slice(),
            t.as_str(),
        ),
        (None, None) => true,
        _ => false,
    }
}

impl WriteGate {
    /// What was last stored of each device, by hardware address.
    pub closed spec fn view(&self) -> Map<Seq<char>, StoredView> {
        self.stored@.map_values(|s: Stored| s@)
    }

    /// Nothing was stored yet.
    pub fn new() -> (r: WriteGate)
        ensures
            r@ == Map::<Seq<char>, StoredView>::empty(),
    {
        let r = WriteGate { stored: StringHashMap::new() };
        assert(r@ =~= Map::empty());
        r
    }

    /// Takes note of a device that the database holds already, so that it is neither
    /// stored again at the next start nor taken for a new one.
    pub fn hydrate(
        &mut self,
        mac: &str,
        ip: Option<String>,
        hostname: Option<String>,
        vendor: Option<String>,
        randomized: bool,
        ts: i64,
    )
        ensures
            final(self)@ == old(self)@.insert(
                mac@,
                StoredView {
                    ip: db::opt(ip),
                    hostname: db::opt(hostname),
                    vendor: db::opt(vendor),
                    randomized,
                    ts,
                },
            ),
    {
        let s = Stored { ip, hostname, vendor, randomized, ts };
        let ghost v = s@;
        self.stored.insert(mac.to_string(), s);
        assert(self@ =~= old(self)@.insert(mac@, v));
    }

    /// Tells whether a device was stored before.
    pub fn knows(&self, mac: &str) -> (r: bool)
        ensures
            r == self@.contains_key(mac@),
    {
        let r = self.stored.contains_key(mac);
        assert(self@.contains_key(mac@) == self.stored@.contains_key(mac@));
        r
    }

    /// Tells whether something is to be stored, and takes note of it if it is. Only
    /// devices are ever held back.
    pub fn lets_pass(&mut self, op: &WriteOp) -> (r: bool)
        ensures
            match op@ {
                OpView::Device { mac, ip, hostname, vendor, randomized, ts } => {
                    let next = StoredView { ip, hostname, vendor, randomized, ts };
                    &&& r == passes(old(self)@, mac, next)
                    &&& final(self)@ == (if r {
                        old(self)@.insert(mac, next)
                    } else {
                        old(self)@
                    })
                },
                _ => r && final(self)@ == old(self)@,
            },
    {
        match op {
            WriteOp::Device { mac, ip, hostname, vendor, randomized, ts } => {
                let pass = match self.stored.get(mac.as_str()) {
                    Some(last) => {
                        assert(self@.contains_key(mac@) && self@[mac@] == last@);
                        !same_text(&last.ip, ip) || !same_text(&last.hostname, hostname)
                            || !same_text(&last.vendor, vendor) || last.randomized != *randomized
                            || *ts as i128 >= last.ts as i128 + HEARTBEAT_SECS as i128
                    },
                    None => {
                        assert(!self@.contains_key(mac@));
                        true
                    },
                };
                if pass {
                    self.hydrate(
                        mac.as_str(),
                        clone_text(ip),
                        clone_text(hostname),
                        clone_text(vendor),
                        *randomized,
                        *ts,
                    );
                }
                pass
            },
            _ => true,
        }
    }
}

/// A device of which nothing has changed is stored at most once a minute.
pub proof fn an_unchanged_device_is_stored_once_a_minute(
    m: Map<Seq<char>, StoredView>,
    mac: Seq<char>,
    next: StoredView,
    later: i64,
)
    requires
        later < next.ts + HEARTBEAT_SECS,
    ensures
        !passes(m.insert(mac, next), mac, (StoredView { ts: later, ..next })),
{
}

/// A change is stored at once.
pub proof fn a_change_is_stored_at_once(
    m: Map<Seq<char>, StoredView>,
    mac: Seq<char>,
    last: StoredView,
    next: StoredView,
)
    requires
        (StoredView { ts: last.ts, ..next }) != last,
    ensures
        passes(m.insert(mac, last), mac, next),
{
}

} // verus!
