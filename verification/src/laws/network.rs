//! What holds of what is read about the network of this machine, and of what is measured.

use crate::addr;
use crate::addr::Ipv4Addr;
use crate::db::OpView;
use crate::monitor;
use crate::monitor::Seen;
use crate::netinfo;
use crate::netinfo::{ArpView, CountersView, Memory, Subnet};
use crate::number;
use crate::oui;
use crate::text;
use crate::text::Class;
use vstd::prelude::*;

verus! {

/// The kernel writes an address as one number, its first byte last.
pub proof fn the_kernel_writes_the_first_byte_last(s: Seq<char>, n: int)
    requires
        number::unsigned(s, 16, 0xffff_ffff) == Some(n),
        0 <= n <= 0xffff_ffff,
    ensures
        netinfo::reversed_hex(s) matches Some(ip) && ip.octet(0) == n % 256 && ip.octet(1) == n / 256
            % 256 && ip.octet(2) == n / 0x1_0000 % 256 && ip.octet(3) == n / 0x100_0000,
{
    let a = n % 256;
    let b = n / 256 % 256;
    let c = n / 0x1_0000 % 256;
    let d = n / 0x100_0000;
    assert(0 <= a < 256 && 0 <= b < 256 && 0 <= c < 256 && 0 <= d < 256);
    let ip = netinfo::reversed_hex(s)->0;
    assert(ip.bits == a * 0x100_0000 + b * 0x1_0000 + c * 256 + d);
    lemma_octets(ip, a, b, c, d);
}

proof fn lemma_octets(ip: Ipv4Addr, a: int, b: int, c: int, d: int)
    requires
        0 <= a < 256,
        0 <= b < 256,
        0 <= c < 256,
        0 <= d < 256,
        ip.bits == a * 0x100_0000 + b * 0x1_0000 + c * 256 + d,
    ensures
        ip.octet(0) == a,
        ip.octet(1) == b,
        ip.octet(2) == c,
        ip.octet(3) == d,
{
    let n = ip.bits as int;
    assert(n / 256 == a * 0x1_0000 + b * 256 + c);
    assert(n / 0x1_0000 == a * 256 + b);
    assert(n / 0x100_0000 == a);
}

/// The way out is the first row that leads everywhere and names a gateway.
pub proof fn the_way_out_is_the_first_default_row(
    row: Seq<char>,
    rows: Seq<Seq<char>>,
)
    ensures
        netinfo::default_route_of(seq![]) is None,
        netinfo::default_route_of(seq![row] + rows) == (if netinfo::default_route_in(row) is Some {
            netinfo::default_route_in(row)
        } else {
            netinfo::default_route_of(rows)
        }),
        netinfo::default_route_in(row) is Some <==> {
            let f = text::fields(row);
            &&& f.len() >= 8
            &&& f[1] == "00000000"@
            &&& netinfo::reversed_hex(f[2]) matches Some(ip) && ip.bits != 0
        },
        netinfo::default_route_in(row) matches Some((iface, gateway)) ==> iface == text::fields(
            row,
        )[0] && Some(gateway) == netinfo::reversed_hex(text::fields(row)[2]),
{
    assert((seq![row] + rows).drop_first() =~= rows);
}

/// A row tells a network of an interface if it names the interface, leads to somewhere, and
/// needs no gateway. Its second field is the network, its eighth the mask.
pub proof fn a_row_tells_a_network_of_its_interface(row: Seq<char>, iface: Seq<char>)
    ensures
        netinfo::on_link(row, iface) is Some <==> {
            let f = text::fields(row);
            &&& f.len() >= 8
            &&& f[0] == iface
            &&& f[1] != "00000000"@
            &&& f[2] == "00000000"@
            &&& netinfo::reversed_hex(f[7]) is Some
            &&& netinfo::reversed_hex(f[1]) matches Some(ip) && !(ip.octet(0) == 169 && ip.octet(1)
                == 254) && !(224 <= ip.octet(0) <= 239)
        },
        netinfo::on_link(row, iface) matches Some(s) ==> {
            let f = text::fields(row);
            &&& Some(s.network) == netinfo::reversed_hex(f[1])
            &&& s.prefix_len == netinfo::ones(netinfo::reversed_hex(f[7])->0.bits as int)
        },
{
    let f = text::fields(row);
    vstd::arithmetic::power2::lemma2_to64();
    if let Some(mask) = netinfo::reversed_hex(f[7]) {
        lemma_ones_bound(mask.bits as int, 32);
    }
}

/// How many bits of a number are set: those of its half, and one more if it is odd.
pub proof fn bits_are_counted_one_by_one(n: int)
    requires
        n >= 0,
    ensures
        netinfo::ones(0) == 0,
        netinfo::ones(2 * n) == netinfo::ones(n),
        netinfo::ones(2 * n + 1) == netinfo::ones(n) + 1,
{
    assert((2 * n) / 2 == n && (2 * n) % 2 == 0);
    assert((2 * n + 1) / 2 == n && (2 * n + 1) % 2 == 1);
}

proof fn lemma_ones_bound(n: int, k: nat)
    requires
        0 <= n < vstd::arithmetic::power2::pow2(k),
    ensures
        0 <= netinfo::ones(n) <= k,
    decreases k,
{
    vstd::arithmetic::power2::lemma2_to64();
    if n > 0 {
        if k == 0 {
            assert(n < 1);
        } else {
            vstd::arithmetic::power2::lemma_pow2_unfold(k);
            lemma_ones_bound(n / 2, (k - 1) as nat);
        }
    }
}

/// The network that a row tells is no larger than any that a row tells, and smaller than
/// those of the rows before it.
pub open spec fn is_smallest(rows: Seq<Seq<char>>, iface: Seq<char>, i: int, s: Subnet) -> bool {
    &&& 0 <= i < rows.len()
    &&& netinfo::on_link(rows[i], iface) == Some(s)
    &&& forall|j: int|
        0 <= j < rows.len() && netinfo::on_link(#[trigger] rows[j], iface) is Some
            ==> netinfo::on_link(rows[j], iface)->0.prefix_len <= s.prefix_len
    &&& forall|j: int|
        0 <= j < i && netinfo::on_link(#[trigger] rows[j], iface) is Some ==> netinfo::on_link(
            rows[j],
            iface,
        )->0.prefix_len < s.prefix_len
}

/// The LAN is the smallest network that some row tells, and the first of those.
pub proof fn the_lan_is_the_smallest_network(rows: Seq<Seq<char>>, iface: Seq<char>)
    ensures
        netinfo::lan_of(rows, iface) is None ==> forall|i: int|
            0 <= i < rows.len() ==> netinfo::on_link(#[trigger] rows[i], iface) is None,
        netinfo::lan_of(rows, iface) matches Some(s) ==> exists|i: int|
            #[trigger] is_smallest(rows, iface, i, s),
    decreases rows.len(),
{
    if rows.len() > 0 {
        let most = rows.drop_last();
        let last = rows.len() - 1;
        the_lan_is_the_smallest_network(most, iface);
        let told = netinfo::on_link(rows[last], iface);
        assert forall|j: int| 0 <= j < last implies #[trigger] rows[j] == most[j] by {}
        match netinfo::lan_of(most, iface) {
            None => {
                if told is Some {
                    assert forall|j: int|
                        0 <= j < rows.len() && netinfo::on_link(#[trigger] rows[j], iface) is Some implies j
                        == last by {
                        if j < last {
                            assert(netinfo::on_link(most[j], iface) is None);
                        }
                    }
                    assert(is_smallest(rows, iface, last, told->0));
                } else {
                    assert forall|j: int| 0 <= j < rows.len() implies netinfo::on_link(
                        #[trigger] rows[j],
                        iface,
                    ) is None by {
                        if j < last {
                            assert(netinfo::on_link(most[j], iface) is None);
                        }
                    }
                }
            },
            Some(b) => {
                let i = choose|i: int| #[trigger] is_smallest(most, iface, i, b);
                assert forall|j: int|
                    0 <= j < last && netinfo::on_link(#[trigger] rows[j], iface) is Some implies netinfo::on_link(
                    rows[j],
                    iface,
                )->0.prefix_len <= b.prefix_len by {
                    assert(netinfo::on_link(most[j], iface) is Some);
                }
                if told is Some && told->0.prefix_len > b.prefix_len {
                    assert(is_smallest(rows, iface, last, told->0));
                } else {
                    assert forall|j: int|
                        0 <= j < i && netinfo::on_link(#[trigger] rows[j], iface) is Some implies netinfo::on_link(
                        rows[j],
                        iface,
                    )->0.prefix_len < b.prefix_len by {
                        assert(netinfo::on_link(most[j], iface) is Some);
                    }
                    assert(is_smallest(rows, iface, i, b));
                }
            },
        }
    }
}

/// A neighbour is told by a row of six fields or more whose flags are not zero: its first
/// field is the address, its fourth the hardware address, its sixth the interface.
pub proof fn a_row_tells_a_neighbour(row: Seq<char>, rows: Seq<Seq<char>>)
    ensures
        netinfo::neighbour(row) is Some <==> {
            let f = text::fields(row);
            &&& f.len() >= 6
            &&& f[2] != "0x0"@
            &&& addr::ipv4(f[0]) is Some
            &&& oui::canonical_mac(f[3]) is Some
        },
        netinfo::neighbour(row) matches Some(e) ==> {
            let f = text::fields(row);
            &&& e.ip.bits == addr::ipv4(f[0])->0 as u32
            &&& Some(e.mac) == oui::canonical_mac(f[3])
            &&& e.iface == f[5]
        },
        netinfo::neighbours(seq![]).len() == 0,
        netinfo::neighbours(rows.push(row)) == netinfo::neighbours(rows) + (match netinfo::neighbour(
            row,
        ) {
            Some(e) => seq![e],
            None => seq![],
        }),
{
    assert(rows.push(row).drop_last() =~= rows);
    let before = netinfo::neighbours(rows);
    match netinfo::neighbour(row) {
        Some(e) => {
            assert(before.push(e) =~= before + seq![e]);
        },
        None => {
            assert(before + seq![] =~= before);
        },
    }
}

/// A neighbour counts if it is on the interface and in the network that are asked for.
pub proof fn a_neighbour_counts_where_it_is_asked_for(
    e: ArpView,
    iface: Option<Seq<char>>,
    subnet: Option<Subnet>,
)
    ensures
        netinfo::is_local(e, None, None),
        iface matches Some(i) ==> (netinfo::is_local(e, iface, None) <==> e.iface == i),
        subnet matches Some(s) ==> (netinfo::is_local(e, None, subnet) <==> e.ip.lies_in(
            s.network,
            s.prefix_len,
        )),
        netinfo::is_local(e, iface, subnet) <==> netinfo::is_local(e, iface, None)
            && netinfo::is_local(e, None, subnet),
{
}

/// The counters of an interface: its name stands before the colon, and after it what was
/// received, then what was sent, each with bytes, packets, errors and drops.
pub proof fn a_row_tells_the_counters_of_its_interface(row: Seq<char>, rows: Seq<Seq<char>>)
    ensures
        ({
            let i = text::find(row, Class::Is(':'));
            let f = text::fields(row.skip(i + 1));
            let name = text::trim(row.take(i), Class::White);
            &&& netinfo::counters_in(row) is Some <==> i < row.len() && f.len() >= 16 && name
                != "lo"@
            &&& netinfo::counters_in(row) matches Some(c) ==> {
                &&& c.iface == name
                &&& c.rx_bytes == netinfo::counter(f[0])
                &&& c.rx_packets == netinfo::counter(f[1])
                &&& c.rx_errors == netinfo::counter(f[2])
                &&& c.rx_dropped == netinfo::counter(f[3])
                &&& c.tx_bytes == netinfo::counter(f[8])
                &&& c.tx_packets == netinfo::counter(f[9])
                &&& c.tx_errors == netinfo::counter(f[10])
                &&& c.tx_dropped == netinfo::counter(f[11])
            }
        }),
        netinfo::counters(seq![]).len() == 0,
        netinfo::counters(rows.push(row)) == netinfo::counters(rows) + (match netinfo::counters_in(
            row,
        ) {
            Some(c) => seq![c],
            None => seq![],
        }),
{
    assert(rows.push(row).drop_last() =~= rows);
    text::lemma_find(row, Class::Is(':'));
    let before = netinfo::counters(rows);
    match netinfo::counters_in(row) {
        Some(c) => {
            assert(before.push(c) =~= before + seq![c]);
        },
        None => {
            assert(before + seq![] =~= before);
        },
    }
}

/// A counter that was written is read back. What is no number counts as zero.
pub proof fn a_counter_reads_back(n: u64, s: Seq<char>)
    ensures
        netinfo::counter(number::decimal(n as int)) == n,
        number::unsigned(s, 10, 0xffff_ffff_ffff_ffff) is None ==> netinfo::counter(s) == 0,
{
    number::a_written_number_reads_back(n as int, u64::MAX as int);
}

/// The memory of the machine is what the last row of each name says. Other rows say
/// nothing about it.
pub proof fn the_memory_is_what_its_rows_say(
    rows: Seq<Seq<char>>,
    row: Seq<char>,
    key: Seq<char>,
    rest: Seq<char>,
)
    requires
        row == key + seq![':'] + rest,
        !key.contains(':'),
    ensures
        netinfo::memory(seq![]) == (Memory { total_kb: 0, available_kb: 0 }),
        ({
            let before = netinfo::memory(rows);
            let after = netinfo::memory(rows.push(row));
            let f = text::fields(rest);
            let kb = if f.len() == 0 {
                0
            } else {
                netinfo::counter(f[0])
            };
            &&& key == "MemTotal"@ ==> after.total_kb == kb && after.available_kb
                == before.available_kb
            &&& key == "MemAvailable"@ ==> after.available_kb == kb && after.total_kb
                == before.total_kb
            &&& key != "MemTotal"@ && key != "MemAvailable"@ ==> after == before
        }),
{
    assert(rows.push(row).drop_last() =~= rows);
    assert forall|j: int| 0 <= j < key.len() implies !text::member(
        Class::Is(':'),
        #[trigger] row[j],
    ) by {
        assert(row[j] == key[j]);
        if row[j] == ':' {
            assert(key.contains(':'));
        }
    }
    text::lemma_find_unique(row, Class::Is(':'), key.len() as int);
    assert(row.take(key.len() as int) =~= key);
    assert(row.skip(key.len() as int + 1) =~= rest);
    reveal_strlit("MemTotal");
    reveal_strlit("MemAvailable");
    assert("MemTotal"@.len() != "MemAvailable"@.len());
}

/// A rate is the bits of a second, rounded down: no more than were counted, and less than
/// one short.
pub proof fn a_rate_is_bits_by_seconds(bytes: u64, nanos: u64)
    requires
        nanos > 0,
    ensures
        ({
            let r = monitor::bits_per_second(bytes as int, nanos as int);
            &&& 0 <= r
            &&& r * nanos <= bytes * 8 * 1_000_000_000
            &&& r < i64::MAX ==> bytes * 8 * 1_000_000_000 < (r + 1) * nanos
        }),
{
    let b = bytes * 8_000_000_000;
    let n = nanos as int;
    let q = b / n;
    assert(q * n <= b < (q + 1) * n && 0 <= q) by (nonlinear_arith)
        requires
            q == b / n,
            n > 0,
            b >= 0,
    ;
    let r = monitor::bits_per_second(bytes as int, nanos as int);
    assert(r * n <= q * n) by (nonlinear_arith)
        requires
            r <= q,
            n > 0,
    ;
}

/// A sample tells when and of which interface it is, the counters as they stand, and the
/// rate of each since the last look.
pub proof fn a_sample_tells_what_was_counted(seen: Seen, c: CountersView, now: u64, ts: i64)
    requires
        seen.at < now,
        c.rx_bytes <= i64::MAX,
        c.tx_bytes <= i64::MAX,
    ensures
        monitor::sample_of(seen, c, now, ts) matches OpView::Iface {
            ts: at,
            iface,
            rx_bytes,
            tx_bytes,
            rx_bps,
            tx_bps,
        } && {
            let nanos = now - seen.at;
            &&& at == ts
            &&& iface == c.iface
            &&& rx_bytes == c.rx_bytes
            &&& tx_bytes == c.tx_bytes
            &&& c.rx_bytes < seen.rx_bytes ==> rx_bps == 0
            &&& c.tx_bytes < seen.tx_bytes ==> tx_bps == 0
            &&& c.rx_bytes >= seen.rx_bytes ==> rx_bps == monitor::bits_per_second(
                c.rx_bytes - seen.rx_bytes,
                nanos,
            )
            &&& c.tx_bytes >= seen.tx_bytes ==> tx_bps == monitor::bits_per_second(
                c.tx_bytes - seen.tx_bytes,
                nanos,
            )
        },
{
    let n = now - seen.at;
    assert(0int * 8_000_000_000 / n == 0) by (nonlinear_arith)
        requires
            n > 0,
    ;
}

/// The first look at an interface only remembers it. Each later look measures it against
/// the look before, and is remembered in its turn.
pub proof fn an_interface_is_measured_from_look_to_look(
    m: Map<Seq<char>, Seen>,
    cs: Seq<CountersView>,
    c: CountersView,
    now: u64,
    ts: i64,
)
    ensures
        monitor::samples(m, seq![], now, ts).len() == 0,
        ({
            let before = monitor::looked_all(m, cs, now);
            let after = monitor::looked_all(m, cs.push(c), now);
            let known = before.contains_key(c.iface) && before[c.iface].at < now;
            &&& monitor::samples(m, cs.push(c), now, ts) == monitor::samples(m, cs, now, ts) + (
            if known {
                seq![monitor::sample_of(before[c.iface], c, now, ts)]
            } else {
                seq![]
            })
            &&& known || !before.contains_key(c.iface) ==> {
                &&& after.contains_key(c.iface)
                &&& after[c.iface].rx_bytes == c.rx_bytes
                &&& after[c.iface].tx_bytes == c.tx_bytes
                &&& after[c.iface].at == now
            }
            &&& !known && before.contains_key(c.iface) ==> after == before
            &&& forall|i: Seq<char>|
                i != c.iface ==> (#[trigger] after.contains_key(i) <==> before.contains_key(i)) && (
                before.contains_key(i) ==> after[i] == before[i])
        }),
{
    assert(cs.push(c).drop_last() =~= cs);
    let rest = monitor::samples(m, cs, now, ts);
    let before = monitor::looked_all(m, cs, now);
    if before.contains_key(c.iface) && before[c.iface].at < now {
        let s = monitor::sample_of(before[c.iface], c, now, ts);
        assert(rest.push(s) =~= rest + seq![s]);
    } else {
        assert(rest + seq![] =~= rest);
    }
}

/// The round trips that were measured are stored, that to the gateway first, each under its
/// own name.
pub proof fn round_trips_are_stored_by_name(g: Option<u64>, u: Option<u64>, ts: i64)
    ensures
        ({
            let ops = monitor::latencies(g, u, ts);
            let first = if g is Some {
                1int
            } else {
                0
            };
            &&& ops.len() == first + (if u is Some {
                1int
            } else {
                0
            })
            &&& g matches Some(n) ==> ops[0] == (OpView::Latency {
                ts,
                target: "gateway"@,
                nanos: n,
            })
            &&& u matches Some(n) ==> ops[first] == (OpView::Latency {
                ts,
                target: "upstream"@,
                nanos: n,
            })
        }),
{
}

/// A network that is written with its prefix is read as it is written, bits of the host
/// included. It fails for the first thing that is wrong: no slash, a bad address, a bad
/// prefix, or one over 32.
pub proof fn what_is_wrong_with_a_network_is_said(s: Seq<char>)
    ensures
        ({
            let i = text::find(s, Class::Is('/'));
            let address = addr::ipv4(text::trim(s.take(i), Class::White));
            let prefix = number::unsigned(text::trim(s.skip(i + 1), Class::White), 10, 255);
            match netinfo::subnet_of(s) {
                Ok(n) => {
                    &&& s.contains('/')
                    &&& address matches Some(a) && n.network.bits == a as u32
                    &&& prefix matches Some(p) && n.prefix_len == p && p <= 32
                },
                Err(netinfo::SubnetErrorView::NoPrefix(given)) => given == s && !s.contains('/'),
                Err(netinfo::SubnetErrorView::BadAddress(given)) => {
                    &&& s.contains('/')
                    &&& given == s.take(i)
                    &&& address is None
                },
                Err(netinfo::SubnetErrorView::BadPrefix(given)) => {
                    &&& s.contains('/')
                    &&& given == s.skip(i + 1)
                    &&& address is Some
                    &&& prefix is None
                },
                Err(netinfo::SubnetErrorView::PrefixTooLong(p)) => {
                    &&& s.contains('/')
                    &&& address is Some
                    &&& prefix == Some(p as int)
                    &&& p > 32
                },
            }
        }),
{
    let i = text::find(s, Class::Is('/'));
    text::lemma_find(s, Class::Is('/'));
    if i < s.len() {
        assert(s[i] == '/');
        let t = text::trim(s.skip(i + 1), Class::White);
        if number::unsigned(t, 10, 255) is Some {
            lemma_unsigned_bound(t);
        }
    } else if s.contains('/') {
        let j = s.index_of('/');
        assert(!text::member(Class::Is('/'), s[j]));
    }
}

proof fn lemma_unsigned_bound(s: Seq<char>)
    requires
        number::unsigned(s, 10, 255) is Some,
    ensures
        0 <= number::unsigned(s, 10, 255)->0 <= 255,
{
    let t = if s.len() > 0 && s[0] == '+' {
        s.drop_first()
    } else {
        s
    };
    number::lemma_value_grows(t, 10, t.len() as int);
    assert(t.take(t.len() as int) =~= t);
}

/// The hosts of a network are all its addresses but the first and the last, in order. None
/// are gone through of a network that is wider than /16 or has no room for a host.
pub proof fn hosts_are_gone_through_in_order(s: Subnet, i: int)
    requires
        s.wf(),
    ensures
        s.prefix_len < 16 || s.prefix_len > 30 ==> netinfo::hosts_of(s).len() == 0,
        16 <= s.prefix_len <= 30 ==> netinfo::hosts_of(s).len()
            == vstd::arithmetic::power2::pow2((32 - s.prefix_len) as nat) - 2,
        0 <= i < netinfo::hosts_of(s).len() - 1 ==> netinfo::hosts_of(s)[i + 1].bits
            == netinfo::hosts_of(s)[i].bits + 1,
{
    vstd::arithmetic::power2::lemma2_to64();
    if 16 <= s.prefix_len <= 30 {
        vstd::arithmetic::power2::lemma_pow2_strictly_increases(1, (32 - s.prefix_len) as nat);
        if 0 <= i < netinfo::hosts_of(s).len() - 1 {
            netinfo::hosts_lie_in_their_network(s, i);
            netinfo::hosts_lie_in_their_network(s, i + 1);
            lemma_host(s, i);
            lemma_host(s, i + 1);
        }
    }
}

proof fn lemma_host(s: Subnet, i: int)
    requires
        16 <= s.prefix_len <= 30,
        0 <= i < netinfo::hosts_of(s).len(),
    ensures
        netinfo::hosts_of(s)[i].bits == s.base() + 1 + i,
{
    let n = (32 - s.prefix_len) as nat;
    vstd::arithmetic::power2::lemma2_to64();
    netinfo::lemma_base_fits(s.network.bits as int, s.size(), n);
}

/// The rows of a table come after its heading.
pub proof fn rows_come_after_the_heading(s: Seq<char>, n: int, i: int)
    requires
        0 <= n <= text::lines(s).len(),
        0 <= i < text::lines(s).len() - n,
    ensures
        netinfo::rows(s, n).len() == text::lines(s).len() - n,
        netinfo::rows(s, n)[i] == text::lines(s)[n + i],
        text::lines(s).len() > 0 ==> oui::body_lines(s) == text::lines(s).skip(1),
{
    assert(text::lines(s).drop_first() =~= text::lines(s).skip(1));
}

} // verus!
