//! What holds of what is known about devices: where it comes from and what it tells.

use crate::addr::{IpAddr, Ipv4Addr};
use crate::db::OpView;
use crate::devices;
use crate::devices::{DeviceView, StoreView, StoredView};
use crate::dns::message;
use crate::dns::message::{MessageView, RecordView};
use crate::number;
use crate::oui;
use crate::text;
use crate::text::Class;
use vstd::prelude::*;

verus! {

/// The characters of a hostname.
pub open spec fn may_stand_in_a_hostname(c: char) -> bool {
    'a' <= c <= 'z' || 'A' <= c <= 'Z' || '0' <= c <= '9' || c == '-' || c == '_' || c == '.'
}

/// A text that is trimmed already is taken as a hostname if and only if it has 1 to 64
/// letters, digits, hyphens, underscores and dots, and is no address. Its letters become
/// small ones, and white space around it and a dot at its end make no difference.
pub proof fn what_is_taken_as_a_hostname(s: Seq<char>)
    requires
        s.len() > 0,
        !text::is_white(s[0]),
        !text::is_white(s.last()),
        s.last() != '.',
    ensures
        devices::hostname_of(s) == (if s.len() <= 64 && (forall|i: int|
            0 <= i < s.len() ==> may_stand_in_a_hostname(#[trigger] s[i])) && IpAddr::written_by(
            s,
        ) is None {
            Some(text::lower(s))
        } else {
            None
        }),
        devices::hostname_of(s.push('.')) == devices::hostname_of(s),
        devices::hostname_of(s.push(' ')) == devices::hostname_of(s),
        devices::hostname_of(seq![' '] + s) == devices::hostname_of(s),
{
    reveal_with_fuel(text::trim_end, 2);
    reveal_with_fuel(text::trim_start, 2);
    text::lemma_trim_none(s, Class::White);
    assert(text::trim_end(s, Class::Is('.')) == s);
    assert(s.len() <= 64 && (forall|i: int|
        0 <= i < s.len() ==> may_stand_in_a_hostname(#[trigger] s[i])) && IpAddr::written_by(s) is None
        <==> devices::is_hostname(s)) by {
        if forall|i: int| 0 <= i < s.len() ==> may_stand_in_a_hostname(#[trigger] s[i]) {
            assert forall|i: int| 0 <= i < s.len() implies devices::host_char(#[trigger] s[i]) by {
                assert(may_stand_in_a_hostname(s[i]));
            }
        }
        if devices::is_hostname(s) {
            assert forall|i: int| 0 <= i < s.len() implies may_stand_in_a_hostname(
                #[trigger] s[i],
            ) by {
                assert(devices::host_char(s[i]));
            }
        }
    }
    let dot = s.push('.');
    assert(!text::is_white('.'));
    text::lemma_trim_none(dot, Class::White);
    assert(dot.drop_last() =~= s);
    let after = s.push(' ');
    assert(text::is_white(' '));
    assert(after.drop_last() =~= s);
    assert(text::trim_start(after, Class::White) == after);
    assert(text::trim_end(after, Class::White) == s);
    let before = seq![' '] + s;
    assert(before.drop_first() =~= s);
    assert(text::trim_start(before, Class::White) == s);
}

/// Where a sighting leaves everything else as it was.
pub open spec fn others_stay(a: StoreView, b: StoreView, mac: Seq<char>) -> bool {
    &&& b.vendors == a.vendors
    &&& forall|m: Seq<char>|
        m != mac ==> (#[trigger] b.by_mac.contains_key(m) <==> a.by_mac.contains_key(m))
    &&& forall|m: Seq<char>|
        m != mac && #[trigger] a.by_mac.contains_key(m) ==> b.by_mac[m] == a.by_mac[m]
}

/// What is known of a device by its hardware address: one that was made up has no vendor,
/// and for another the vendor that was known stays or is looked up.
pub open spec fn is_identified(s: StoreView, mac: Seq<char>, d: DeviceView) -> bool {
    let known = s.by_mac.contains_key(mac);
    &&& known || d.mac == mac
    &&& known ==> d.mac == s.by_mac[mac].mac
    &&& d.randomized == oui::randomized(mac)
    &&& known && s.by_mac[mac].vendor is Some ==> d.vendor == s.by_mac[mac].vendor
    &&& !(known && s.by_mac[mac].vendor is Some) ==> d.vendor == (if oui::randomized(mac) {
        Some("(randomized MAC)"@)
    } else {
        oui::vendor_of(s.vendors, mac)
    })
}

/// A sighting gives a device its address, and a name that was waiting for that address.
/// Nothing else is known of it that was not known before, and no other device changes.
pub proof fn a_sighting_gives_a_device_its_address(
    s: StoreView,
    ip: Ipv4Addr,
    mac: Seq<char>,
)
    ensures
        ({
            let t = s.observed(ip, mac);
            let d = t.by_mac[mac];
            &&& t.by_mac.contains_key(mac)
            &&& d == s.sighted(ip, mac)
            &&& is_identified(s, mac, d)
            &&& d.ip == Some(ip)
            &&& s.pending.contains_key(ip) ==> d.hostname == Some(s.pending[ip])
            &&& !s.pending.contains_key(ip) && s.by_mac.contains_key(mac) ==> d.hostname
                == s.by_mac[mac].hostname
            &&& !s.pending.contains_key(ip) && !s.by_mac.contains_key(mac) ==> d.hostname is None
            &&& others_stay(s, t, mac)
            &&& t.ip_to_mac.contains_key(ip) && t.ip_to_mac[ip] == mac
            &&& forall|a: Ipv4Addr|
                a != ip ==> (#[trigger] t.ip_to_mac.contains_key(a) <==> s.ip_to_mac.contains_key(
                    a,
                )) && (s.ip_to_mac.contains_key(a) ==> t.ip_to_mac[a] == s.ip_to_mac[a])
            &&& forall|a: Ipv4Addr|
                (#[trigger] t.pending.contains_key(a) <==> s.pending.contains_key(a) && a != ip) && (
                t.pending.contains_key(a) ==> t.pending[a] == s.pending[a])
        }),
{
}

/// A device that tells its own name has that name from then on, and stays where it is.
pub proof fn a_device_that_tells_its_name_has_it(s: StoreView, mac: Seq<char>, name: Seq<char>)
    ensures
        ({
            let t = s.named(mac, name);
            let d = t.by_mac[mac];
            &&& t.by_mac.contains_key(mac)
            &&& is_identified(s, mac, d)
            &&& d.hostname == Some(name)
            &&& s.by_mac.contains_key(mac) ==> d.ip == s.by_mac[mac].ip
            &&& !s.by_mac.contains_key(mac) ==> d.ip is None
            &&& others_stay(s, t, mac)
            &&& t.ip_to_mac == s.ip_to_mac
            &&& t.pending == s.pending
        }),
{
}

/// A name that is learned for an address goes to the device that has the address, if it
/// has no name yet. If no device has it, the name waits for one.
pub proof fn a_learned_name_goes_to_its_address(
    s: StoreView,
    ip: Ipv4Addr,
    raw: Seq<char>,
    name: Seq<char>,
    ts: i64,
)
    requires
        devices::hostname_of(raw) == Some(name),
    ensures
        ({
            let t = s.learned(ip, raw);
            let mac = s.ip_to_mac[ip];
            &&& s.ip_to_mac.contains_key(ip) ==> {
                &&& t.by_mac.contains_key(mac)
                &&& t.by_mac[mac].hostname == Some(
                    if s.by_mac[mac].hostname is Some {
                        s.by_mac[mac].hostname->0
                    } else {
                        name
                    },
                )
                &&& t.by_mac[mac].mac == s.by_mac[mac].mac
                &&& t.by_mac[mac].ip == s.by_mac[mac].ip
                &&& t.by_mac[mac].vendor == s.by_mac[mac].vendor
                &&& t.by_mac[mac].randomized == s.by_mac[mac].randomized
                &&& others_stay(s, t, mac)
                &&& t.pending == s.pending
                &&& s.learned_op(ip, raw, ts) matches Some(op) && is_told(op, t.by_mac[mac], ts)
            }
            &&& !s.ip_to_mac.contains_key(ip) ==> {
                &&& t.by_mac == s.by_mac
                &&& t.pending.contains_key(ip)
                &&& t.pending[ip] == name
                &&& forall|a: Ipv4Addr|
                    a != ip ==> (#[trigger] t.pending.contains_key(a) <==> s.pending.contains_key(
                        a,
                    )) && (s.pending.contains_key(a) ==> t.pending[a] == s.pending[a])
                &&& s.learned_op(ip, raw, ts) is None
            }
            &&& t.ip_to_mac == s.ip_to_mac
        }),
{
}

/// What is no hostname teaches nothing.
pub proof fn what_is_no_hostname_teaches_nothing(
    s: StoreView,
    ip: Ipv4Addr,
    raw: Seq<char>,
    ts: i64,
)
    requires
        devices::hostname_of(raw) is None,
    ensures
        s.learned(ip, raw) == s,
        s.learned_op(ip, raw, ts) is None,
{
}

/// What is stored of a device is what is known of it, and when.
pub open spec fn is_told(op: OpView, d: DeviceView, ts: i64) -> bool {
    op matches OpView::Device { mac, ip, hostname, vendor, randomized, ts: at } && {
        &&& mac == d.mac
        &&& ip == (match d.ip {
            Some(a) => Some(a.text()),
            None => None,
        })
        &&& hostname == d.hostname
        &&& vendor == d.vendor
        &&& randomized == d.randomized
        &&& at == ts
    }
}

/// A device is stored as it is known, whoever asks for it.
pub proof fn a_device_is_stored_as_it_is_known(s: StoreView, d: DeviceView, ip: IpAddr, ts: i64)
    ensures
        is_told(devices::device_op(d, ts), d, ts),
        match ip {
            IpAddr::V4(a) => {
                &&& s.touched(ip, ts) is Some <==> s.ip_to_mac.contains_key(a)
                &&& s.touched(ip, ts) matches Some(op) ==> is_told(
                    op,
                    s.by_mac[s.ip_to_mac[a]],
                    ts,
                )
            },
            IpAddr::V6(_) => s.touched(ip, ts) is None,
        },
{
}

/// A device is asked for its name if and only if it has an address, no name, and no name
/// is waiting.
pub proof fn a_device_without_a_name_is_asked_for_it(s: StoreView, ip: Ipv4Addr)
    ensures
        s.nameless(ip) <==> s.ip_to_mac.contains_key(ip) && s.by_mac[s.ip_to_mac[ip]].hostname is None
            && !s.pending.contains_key(ip),
{
}

/// An address that a `.local` name has teaches the name without `.local`.
pub proof fn a_local_address_teaches_its_name(r: RecordView, host: Seq<char>)
    requires
        r.rtype == 1,
        r.rdata.len() == 4,
        message::name_text(r.name) == host + ".local."@,
    ensures
        devices::lesson(r) matches Some((ip, name)) && name == host && ip.octet(0) == r.rdata[0]
            && ip.octet(1) == r.rdata[1] && ip.octet(2) == r.rdata[2] && ip.octet(3) == r.rdata[3],
{
    lemma_local(host);
    crate::laws::replies::lemma_octets(r);
}

proof fn lemma_local(host: Seq<char>)
    ensures
        devices::without_suffix(
            text::trim_end(host + ".local."@, Class::Is('.')),
            ".local"@,
        ) == Some(host),
{
    reveal_strlit(".local.");
    reveal_strlit(".local");
    reveal_with_fuel(text::trim_end, 2);
    let full = host + ".local."@;
    let bare = host + ".local"@;
    assert(full.drop_last() =~= bare);
    assert(bare.last() == 'l');
    assert(text::trim_end(full, Class::Is('.')) == bare);
    assert(bare.skip(bare.len() - ".local"@.len()) =~= ".local"@);
    assert(bare.take(bare.len() - ".local"@.len()) =~= host);
}

/// The reverse name of an address, and where it points, teach the name of the address.
pub proof fn a_reverse_name_teaches_where_it_points(
    r: RecordView,
    ip: Ipv4Addr,
    labels: Seq<Seq<u8>>,
)
    requires
        r.rtype == 12,
        r.name == devices::reverse_labels(ip),
        message::name_fits(labels),
        r.rdata == message::name_wire(labels),
    ensures
        devices::lesson(r) matches Some((a, name)) && a == ip && name == devices::short_name(labels),
{
    devices::a_reverse_name_is_about_its_address(ip);
    crate::laws::replies::a_name_on_the_wire_reads_back(labels);
}

/// Other records teach nothing.
pub proof fn other_records_teach_nothing(r: RecordView)
    requires
        r.rtype != 1,
        r.rtype != 12,
    ensures
        devices::lesson(r) is None,
{
}

/// The name that a reverse lookup gives is what stands before `.local.`, or the whole name
/// without the dot at its end.
pub proof fn a_short_name_has_no_local(labels: Seq<Seq<u8>>, host: Seq<char>)
    requires
        host.len() > 0,
        host.last() != '.',
    ensures
        message::name_text(labels) == host + ".local."@ ==> devices::short_name(labels) == host,
        message::name_text(labels) == host.push('.') && !text::ends_with(host, ".local"@)
            ==> devices::short_name(labels) == host,
{
    lemma_local(host);
    reveal_with_fuel(text::trim_end, 2);
    assert(host.push('.').drop_last() =~= host);
}

/// Records are learned from in order.
pub proof fn records_are_learned_from_in_order(
    s: StoreView,
    rs: Seq<RecordView>,
    r: RecordView,
    ip: Ipv4Addr,
    raw: Seq<char>,
    ts: i64,
)
    ensures
        s.taught(seq![]) == s,
        s.taught_ops(seq![], ts).len() == 0,
        devices::lesson(r) == Some((ip, raw)) ==> s.taught(rs.push(r)) == s.taught(rs).learned(
            ip,
            raw,
        ) && s.taught_ops(rs.push(r), ts) == s.taught_ops(rs, ts) + (match s.taught(
            rs,
        ).learned_op(ip, raw, ts) {
            Some(op) => seq![op],
            None => seq![],
        }),
        devices::lesson(r) is None ==> s.taught(rs.push(r)) == s.taught(rs) && s.taught_ops(
            rs.push(r),
            ts,
        ) == s.taught_ops(rs, ts),
{
    assert(rs.push(r).drop_last() =~= rs);
    match devices::lesson(r) {
        Some((ip, raw)) => {
            match s.taught(rs).learned_op(ip, raw, ts) {
                Some(op) => {
                    assert(s.taught_ops(rs, ts).push(op) =~= s.taught_ops(rs, ts) + seq![op]);
                },
                None => {
                    assert(s.taught_ops(rs, ts) + seq![] =~= s.taught_ops(rs, ts));
                },
            }
        },
        None => {},
    }
}

/// What a device announces for its own address is its name, every such name in order. Only
/// if there is none the name of the first service that it places counts.
pub proof fn a_device_announces_its_own_name(m: MessageView, src: Ipv4Addr)
    ensures
        ({
            let own = m.answers.filter(|r: RecordView| message::v4_of(r) == Some(src));
            &&& own.len() > 0 ==> devices::mdns_names(m, src) == own.map_values(
                |r: RecordView| devices::short_name(r.name),
            )
            &&& own.len() == 0 ==> devices::mdns_names(m, src).len() <= 1
            &&& own.len() == 0 && m.answers.len() > 0 && m.answers[0].rtype == 33
                && m.answers[0].rdata.len() > 0 ==> {
                let name = message::name_text(m.answers[0].name);
                let first = devices::mdns_names(m, src)[0];
                &&& devices::mdns_names(m, src).len() == 1
                &&& first.is_prefix_of(name)
                &&& !first.contains('.')
                &&& first.len() < name.len() ==> name[first.len() as int] == '.'
            }
        }),
{
    lemma_own_names(m.answers, src);
    let own = m.answers.filter(|r: RecordView| message::v4_of(r) == Some(src));
    if own.len() == 0 && m.answers.len() > 0 && m.answers[0].rtype == 33
        && m.answers[0].rdata.len() > 0 {
        let name = message::name_text(m.answers[0].name);
        text::lemma_find(name, Class::Is('.'));
        let first = devices::mdns_names(m, src)[0];
        assert(first == name.take(text::find(name, Class::Is('.'))));
        assert forall|i: int| 0 <= i < first.len() implies first[i] != '.' by {
            assert(first[i] == name[i]);
            assert(!text::member(Class::Is('.'), name[i]));
        }
    }
}

proof fn lemma_own_names(rs: Seq<RecordView>, src: Ipv4Addr)
    ensures
        devices::own_names(rs, src) == rs.filter(
            |r: RecordView| message::v4_of(r) == Some(src),
        ).map_values(|r: RecordView| devices::short_name(r.name)),
    decreases rs.len(),
{
    reveal(Seq::filter);
    let kept = rs.filter(|r: RecordView| message::v4_of(r) == Some(src));
    if rs.len() > 0 {
        lemma_own_names(rs.drop_last(), src);
    }
    assert(devices::own_names(rs, src) =~= kept.map_values(
        |r: RecordView| devices::short_name(r.name),
    ));
}

/// The names of a message are learned in order.
pub proof fn announced_names_are_learned_in_order(
    s: StoreView,
    src: Ipv4Addr,
    names: Seq<Seq<char>>,
    name: Seq<char>,
    ts: i64,
)
    ensures
        s.advertised(src, seq![]) == s,
        s.advertised_ops(src, seq![], ts).len() == 0,
        s.advertised(src, names.push(name)) == s.advertised(src, names).learned(src, name),
        s.advertised_ops(src, names.push(name), ts) == s.advertised_ops(src, names, ts) + (
        match s.advertised(src, names).learned_op(src, name, ts) {
            Some(op) => seq![op],
            None => seq![],
        }),
{
    assert(names.push(name).drop_last() =~= names);
    let before = s.advertised_ops(src, names, ts);
    match s.advertised(src, names).learned_op(src, name, ts) {
        Some(op) => {
            assert(before.push(op) =~= before + seq![op]);
        },
        None => {
            assert(before + seq![] =~= before);
        },
    }
}

/// A question for the name of an address asks for a pointer, in the class of the internet,
/// under the reverse name of the address, and leaves the work to the server.
pub proof fn a_reverse_question_asks_for_a_pointer(id: u16, ip: Ipv4Addr)
    ensures
        ({
            let m = devices::reverse_question(id, ip);
            &&& m.metadata.id == id
            &&& !m.metadata.response
            &&& m.metadata.op_code == 0
            &&& m.metadata.recursion_desired
            &&& !m.metadata.truncation
            &&& m.metadata.response_code == 0
            &&& m.queries.len() == 1
            &&& m.queries[0].qtype == 12
            &&& m.queries[0].qclass == 1
            &&& devices::reverse_ip(message::name_text(m.queries[0].name)) == Some(ip)
            &&& m.answers.len() == 0
            &&& m.authorities.len() == 0
            &&& m.additionals.len() == 0
            &&& m.edns is None
        }),
{
    devices::a_reverse_name_is_about_its_address(ip);
}

/// The name that is taken from a reply to it is the first label of where the first pointer
/// points. What comes before is passed over.
pub proof fn the_first_pointer_names_the_device(
    r: RecordView,
    rs: Seq<RecordView>,
    labels: Seq<Seq<u8>>,
)
    ensures
        devices::pointed_name(seq![]) is None,
        r.rtype != 12 ==> devices::pointed_name(seq![r] + rs) == devices::pointed_name(rs),
        r.rtype == 12 && message::name_fits(labels) && r.rdata == message::name_wire(labels)
            ==> devices::pointed_name(seq![r] + rs) == Some(
            devices::short_name(labels).take(
                text::find(devices::short_name(labels), Class::Is('.')),
            ),
        ),
{
    assert((seq![r] + rs).drop_first() =~= rs);
    if message::name_fits(labels) {
        crate::laws::replies::a_name_on_the_wire_reads_back(labels);
    }
}

/// A DHCP request tells the hardware address that stands in it, and the name in the first
/// option, if that is option 12 and the last one.
pub proof fn a_dhcp_request_tells_address_and_name(pkt: Seq<u8>)
    requires
        pkt.len() > 241,
        pkt[0] == 1,
        6 <= pkt[2] <= 16,
        pkt[236] == 0x63,
        pkt[237] == 0x82,
        pkt[238] == 0x53,
        pkt[239] == 0x63,
        pkt[240] == 12,
        242 + pkt[241] < pkt.len(),
        pkt[242 + pkt[241]] == 255,
        vstd::utf8::valid_utf8(pkt.subrange(242, 242 + pkt[241])),
    ensures
        ({
            let mac = devices::hex_bytes(pkt.subrange(28, 34));
            match oui::canonical_mac(mac) {
                Some(m) => devices::dhcp_request(pkt) == Some(
                    (m, Some(vstd::utf8::decode_utf8(pkt.subrange(242, 242 + pkt[241])))),
                ),
                None => devices::dhcp_request(pkt) is None,
            }
        }),
{
    assert(pkt.subrange(236, 240) =~= seq![0x63u8, 0x82u8, 0x53u8, 0x63u8]);
    reveal_with_fuel(devices::option_hostname, 3);
}

/// Padding and other options before the name make no difference.
pub proof fn other_dhcp_options_are_passed_over(pkt: Seq<u8>, i: int, found: Option<Seq<char>>)
    requires
        0 <= i < pkt.len(),
    ensures
        pkt[i] == 0 ==> devices::option_hostname(pkt, i, found) == devices::option_hostname(
            pkt,
            i + 1,
            found,
        ),
        pkt[i] == 255 ==> devices::option_hostname(pkt, i, found) == found,
        pkt[i] != 0 && pkt[i] != 255 && pkt[i] != 12 && i + 1 < pkt.len() && i + 2 + pkt[i + 1]
            <= pkt.len() ==> devices::option_hostname(pkt, i, found) == devices::option_hostname(
            pkt,
            i + 2 + pkt[i + 1],
            found,
        ),
{
}

/// What is too short, no request, or has an odd hardware address tells nothing.
pub proof fn other_datagrams_are_no_dhcp_request(pkt: Seq<u8>)
    requires
        pkt.len() < 240 || pkt[0] != 1 || pkt[2] == 0 || pkt[2] > 16,
    ensures
        devices::dhcp_request(pkt) is None,
{
}

/// The bytes of a hardware address are written in pairs of hexadecimal digits, with colons
/// between them.
pub proof fn bytes_are_written_in_pairs_of_digits(b: Seq<u8>, x: u8)
    ensures
        devices::hex_bytes(seq![x]) == seq![
            number::digit_char(x as int / 16),
            number::digit_char(x as int % 16),
        ],
        b.len() > 0 ==> devices::hex_bytes(b.push(x)) == devices::hex_bytes(b) + seq![
            ':',
            number::digit_char(x as int / 16),
            number::digit_char(x as int % 16),
        ],
{
    reveal_with_fuel(number::hex_padded, 3);
    assert(x as int / 16 % 16 == x as int / 16);
    assert(number::hex_padded(x as int, 2) =~= seq![
        number::digit_char(x as int / 16),
        number::digit_char(x as int % 16),
    ]);
    assert(b.push(x).drop_last() =~= b);
    if b.len() > 0 {
        assert(devices::hex_bytes(b.push(x)) =~= devices::hex_bytes(b) + seq![
            ':',
            number::digit_char(x as int / 16),
            number::digit_char(x as int % 16),
        ]);
    }
}

/// A device is stored again if and only if something about it changed, or a minute went by,
/// or it was never stored.
pub proof fn a_device_is_stored_again_after_a_minute(
    m: Map<Seq<char>, StoredView>,
    mac: Seq<char>,
    next: StoredView,
)
    ensures
        devices::passes(m, mac, next) <==> !m.contains_key(mac) || m[mac].ip != next.ip
            || m[mac].hostname != next.hostname || m[mac].vendor != next.vendor || m[mac].randomized
            != next.randomized || next.ts - m[mac].ts >= 60,
{
}

/// The digits of a hardware address, whatever stands between them.
pub proof fn an_address_is_its_hexadecimal_digits(mac: Seq<char>)
    ensures
        oui::hex_digits(mac) == mac.filter(|c: char| is_hexadecimal(c)),
        oui::canonical_mac(mac) is Some <==> {
            let h = mac.filter(|c: char| is_hexadecimal(c));
            h.len() == 12 && exists|i: int| 0 <= i < 12 && #[trigger] h[i] != '0'
        },
        oui::canonical_mac(mac) matches Some(m) ==> {
            let h = mac.filter(|c: char| is_hexadecimal(c));
            &&& m.len() == 17
            &&& forall|k: int| 0 <= k < 6 ==> #[trigger] m[3 * k] == text::lower_char(h[2 * k])
            &&& forall|k: int|
                0 <= k < 6 ==> #[trigger] m[3 * k + 1] == text::lower_char(h[2 * k + 1])
            &&& forall|k: int| 0 <= k < 5 ==> #[trigger] m[3 * k + 2] == ':'
        },
{
    lemma_hex_digits(mac);
    let h = oui::hex_digits(mac);
    if h.len() == 12 {
        let l = text::lower(h);
        let m = oui::colons(l);
        assert forall|k: int| 0 <= k < 6 implies #[trigger] m[3 * k] == text::lower_char(h[2 * k]) by {
            assert(k == 0 || k == 1 || k == 2 || k == 3 || k == 4 || k == 5);
        }
        assert forall|k: int| 0 <= k < 6 implies #[trigger] m[3 * k + 1] == text::lower_char(
            h[2 * k + 1],
        ) by {
            assert(k == 0 || k == 1 || k == 2 || k == 3 || k == 4 || k == 5);
        }
        assert forall|k: int| 0 <= k < 5 implies #[trigger] m[3 * k + 2] == ':' by {
            assert(k == 0 || k == 1 || k == 2 || k == 3 || k == 4);
        }
    }
}

/// A hexadecimal digit.
pub open spec fn is_hexadecimal(c: char) -> bool {
    '0' <= c <= '9' || 'a' <= c <= 'f' || 'A' <= c <= 'F'
}

proof fn lemma_hex_digits(s: Seq<char>)
    ensures
        oui::hex_digits(s) == s.filter(|c: char| is_hexadecimal(c)),
    decreases s.len(),
{
    reveal(Seq::filter);
    if s.len() > 0 {
        lemma_hex_digits(s.drop_last());
    }
}

/// An address was made up if and only if its second digit says so: 2, 3, 6, 7, a, b, e or f.
pub proof fn the_second_digit_tells_a_made_up_address(mac: Seq<char>)
    ensures
        oui::randomized(mac) <==> {
            let h = mac.filter(|c: char| is_hexadecimal(c));
            h.len() >= 2 && (h[1] == '2' || h[1] == '3' || h[1] == '6' || h[1] == '7' || h[1] == 'a'
                || h[1] == 'b' || h[1] == 'e' || h[1] == 'f' || h[1] == 'A' || h[1] == 'B' || h[1]
                == 'E' || h[1] == 'F')
        },
{
    lemma_hex_digits(mac);
    let h = oui::hex_digits(mac);
    if h.len() >= 2 {
        let d = number::digit(h[1], 16);
        lemma_filtered(mac, 0);
        lemma_filtered(mac, 1);
        let hi = number::digit(h[0], 16);
        assert(0 <= d < 16 && 0 <= hi < 16);
        assert((hi * 16 + d) / 2 == hi * 8 + d / 2);
    }
}

proof fn lemma_filtered(s: Seq<char>, i: int)
    requires
        0 <= i < s.filter(|c: char| is_hexadecimal(c)).len(),
    ensures
        is_hexadecimal(s.filter(|c: char| is_hexadecimal(c))[i]),
    decreases s.len(),
{
    reveal(Seq::filter);
    if s.len() > 0 {
        let most = s.drop_last().filter(|c: char| is_hexadecimal(c));
        if i < most.len() {
            lemma_filtered(s.drop_last(), i);
        }
    }
}

/// The vendor of an address is found by its first six digits, in any case.
pub proof fn a_vendor_is_known_by_six_digits(m: Map<Seq<char>, Seq<char>>, mac: Seq<char>)
    ensures
        ({
            let h = text::upper(mac.filter(|c: char| is_hexadecimal(c)));
            &&& h.len() < 6 ==> oui::vendor_of(m, mac) is None
            &&& h.len() >= 6 ==> oui::vendor_of(m, mac) == (if m.contains_key(h.take(6)) {
                Some(m[h.take(6)])
            } else {
                None
            })
        }),
{
    lemma_hex_digits(mac);
}

/// A row of a table of vendors: its second field tells the digits, its third the vendor.
/// What was known before is not overwritten.
pub proof fn a_table_of_vendors_adds_what_is_new(
    m: Map<Seq<char>, Seq<char>>,
    lines: Seq<Seq<char>>,
    line: Seq<char>,
    key: Seq<char>,
    org: Seq<char>,
)
    ensures
        oui::supplemented(m, seq![]) == m,
        oui::csv_row(line) is None ==> oui::supplemented(m, lines.push(line)) == oui::supplemented(
            m,
            lines,
        ) && oui::row_count(lines.push(line)) == oui::row_count(lines),
        oui::csv_row(line) == Some((key, org)) ==> {
            let before = oui::supplemented(m, lines);
            let after = oui::supplemented(m, lines.push(line));
            &&& after.contains_key(key)
            &&& before.contains_key(key) ==> after == before
            &&& !before.contains_key(key) ==> after == before.insert(key, org)
            &&& oui::row_count(lines.push(line)) == oui::row_count(lines) + 1
        },
        oui::csv_row(line) matches Some((k, o)) ==> {
            let f = text::split(line, Class::Is(','));
            &&& f.len() >= 3
            &&& k.len() == 6
            &&& k == text::upper(f[1].filter(|c: char| is_hexadecimal(c)))
            &&& o.len() > 0
            &&& o == text::trim(
                text::trim(text::trim(f[2], Class::White), Class::Is('"')),
                Class::White,
            )
        },
{
    assert(lines.push(line).drop_last() =~= lines);
    let f = text::split(line, Class::Is(','));
    if f.len() >= 3 {
        lemma_hex_digits(f[1]);
    }
}

/// A name option gives the name that stands in it, and a later one overrides it. What is no
/// text, or does not fit in the datagram, gives none.
pub proof fn a_name_option_gives_its_text(pkt: Seq<u8>, i: int, found: Option<Seq<char>>)
    requires
        0 <= i < pkt.len(),
        pkt[i] == 12,
    ensures
        i + 1 < pkt.len() && i + 2 + pkt[i + 1] <= pkt.len() ==> {
            let value = pkt.subrange(i + 2, i + 2 + pkt[i + 1]);
            devices::option_hostname(pkt, i, found) == devices::option_hostname(
                pkt,
                i + 2 + pkt[i + 1],
                if vstd::utf8::valid_utf8(value) {
                    Some(vstd::utf8::decode_utf8(value))
                } else {
                    found
                },
            )
        },
        i + 1 >= pkt.len() || i + 2 + pkt[i + 1] > pkt.len() ==> devices::option_hostname(
            pkt,
            i,
            found,
        ) == found,
{
}

/// The service that counts is the first that is placed.
pub proof fn the_first_service_counts(r: RecordView, rs: Seq<RecordView>)
    ensures
        devices::service_name(seq![]) is None,
        r.rtype == 33 && r.rdata.len() > 0 ==> devices::service_name(seq![r] + rs) == Some(
            message::name_text(r.name).take(
                text::find(message::name_text(r.name), Class::Is('.')),
            ),
        ),
        r.rtype != 33 ==> devices::service_name(seq![r] + rs) == devices::service_name(rs),
{
    assert((seq![r] + rs).drop_first() =~= rs);
}

} // verus!
