//! What holds of addresses and of how they are written.

use crate::addr;
use crate::addr::{IpAddr, Ipv4Addr, Ipv6Addr};
use crate::number;
use crate::text;
use crate::text::Class;
use vstd::prelude::*;

verus! {

/// The bytes of an address make up the address, the first one worth most.
pub proof fn bytes_make_up_an_address(ip: Ipv4Addr)
    ensures
        forall|i: int| 0 <= i < 4 ==> 0 <= #[trigger] ip.octet(i) <= 255,
        ip.bits == ip.octet(0) * 0x100_0000 + ip.octet(1) * 0x1_0000 + ip.octet(2) * 256 + ip.octet(
            3,
        ),
{
    let n = ip.bits as int;
    assert(n / 0x100_0000 == n / 0x1_0000 / 256);
    assert(n / 0x1_0000 == n / 256 / 256);
}

/// A run of zeros goes on as far as there are zeros.
pub proof fn a_run_ends_where_the_zeros_end(g: Seq<int>, i: int)
    requires
        0 <= i <= g.len(),
    ensures
        ({
            let n = addr::zero_run(g, i);
            &&& 0 <= n <= g.len() - i
            &&& forall|j: int| i <= j < i + n ==> #[trigger] g[j] == 0
            &&& i + n < g.len() ==> g[i + n] != 0
        }),
    decreases g.len() - i,
{
    if i < g.len() && g[i] == 0 {
        a_run_ends_where_the_zeros_end(g, i + 1);
    }
}

/// The run of zeros that is left out is the longest, and of several the first.
pub proof fn the_longest_run_is_the_first_of_its_length(g: Seq<int>, i: int)
    requires
        0 <= i <= g.len(),
    ensures
        ({
            let (at, n) = addr::longest_run(g, i);
            &&& i <= at <= g.len()
            &&& n == addr::zero_run(g, at)
            &&& forall|j: int| i <= j < g.len() ==> #[trigger] addr::zero_run(g, j) <= n
            &&& forall|j: int| i <= j < at ==> #[trigger] addr::zero_run(g, j) < n
        }),
    decreases g.len() - i,
{
    if i < g.len() {
        the_longest_run_is_the_first_of_its_length(g, i + 1);
        a_run_ends_where_the_zeros_end(g, i);
    }
}

/// What a group is written as: hexadecimal digits that read back.
proof fn lemma_written(n: int)
    requires
        n >= 0,
    ensures
        number::written(n, 16).len() > 0,
        number::all_digits(number::written(n, 16), 16),
        number::value(number::written(n, 16), 16) == n,
        forall|i: int|
            0 <= i < number::written(n, 16).len() ==> #[trigger] number::written(n, 16)[i] != ':'
                && number::written(n, 16)[i] != '.',
    decreases n,
{
    let w = number::written(n, 16);
    reveal_with_fuel(number::value, 2);
    if n < 16 {
        assert(w =~= seq![number::digit_char(n)]);
        assert(w.drop_last() =~= seq![]);
        assert(number::digit(number::digit_char(n), 16) == n);
    } else {
        let rest = number::written(n / 16, 16);
        lemma_written(n / 16);
        let d = n % 16;
        assert(w == rest.push(number::digit_char(d)));
        assert(w.drop_last() =~= rest);
        assert(number::digit(number::digit_char(d), 16) == d);
        assert forall|i: int| 0 <= i < w.len() implies number::digit(#[trigger] w[i], 16) >= 0 by {
            if i < rest.len() {
                assert(w[i] == rest[i]);
            }
        }
        assert forall|i: int| 0 <= i < w.len() implies #[trigger] w[i] != ':' && w[i] != '.' by {
            if i < rest.len() {
                assert(w[i] == rest[i]);
            }
        }
    }
}

/// A group of an address reads back.
proof fn lemma_group(n: int)
    requires
        0 <= n <= 0xffff,
    ensures
        addr::group_value(number::written(n, 16)) == Some(n),
        addr::ipv4(number::written(n, 16)) is None,
{
    let w = number::written(n, 16);
    lemma_written(n);
    reveal_with_fuel(number::written, 5);
    assert(w.len() <= 4);
    text::lemma_split_none(w, '.');
}

/// The groups of an address.
spec fn are_groups(g: Seq<int>) -> bool {
    forall|i: int| 0 <= i < g.len() ==> 0 <= #[trigger] g[i] <= 0xffff
}

proof fn lemma_joined_first(a: int, rest: Seq<int>)
    requires
        rest.len() > 0,
    ensures
        addr::joined(seq![a] + rest) == number::written(a, 16).push(':') + addr::joined(rest),
    decreases rest.len(),
{
    let all = seq![a] + rest;
    assert(all.drop_last() =~= seq![a] + rest.drop_last());
    assert(all.last() == rest.last());
    if rest.len() == 1 {
        assert(all.drop_last() =~= seq![a]);
        assert(addr::joined(seq![a]) == number::written(a, 16));
        assert(addr::joined(rest) == number::written(rest[0], 16));
        assert(addr::joined(all) =~= number::written(a, 16).push(':') + addr::joined(rest));
    } else {
        lemma_joined_first(a, rest.drop_last());
        assert(addr::joined(all) =~= number::written(a, 16).push(':') + addr::joined(rest));
    }
}

proof fn lemma_split_joined(g: Seq<int>)
    requires
        g.len() > 0,
        are_groups(g),
    ensures
        text::split(addr::joined(g), Class::Is(':')) == g.map_values(|n: int| number::written(n, 16)),
        addr::joined(g).len() > 0,
    decreases g.len(),
{
    let parts = g.map_values(|n: int| number::written(n, 16));
    lemma_written(g[0]);
    if g.len() == 1 {
        text::lemma_split_none(addr::joined(g), ':');
        assert(text::split(addr::joined(g), Class::Is(':')) =~= parts);
    } else {
        let rest = g.drop_first();
        assert(g =~= seq![g[0]] + rest);
        assert forall|i: int| 0 <= i < rest.len() implies 0 <= #[trigger] rest[i] <= 0xffff by {
            assert(rest[i] == g[i + 1]);
        }
        lemma_split_joined(rest);
        lemma_joined_first(g[0], rest);
        text::lemma_split_at(number::written(g[0], 16), ':', addr::joined(rest));
        assert(text::split(addr::joined(g), Class::Is(':')) =~= parts);
    }
}

proof fn lemma_part_groups(g: Seq<int>, v4_tail: bool)
    requires
        are_groups(g),
    ensures
        addr::part_groups(g.map_values(|n: int| number::written(n, 16)), v4_tail) == Some(g),
    decreases g.len(),
{
    let parts = g.map_values(|n: int| number::written(n, 16));
    if g.len() == 0 {
        assert(g =~= seq![]);
    } else {
        let most = g.drop_last();
        assert forall|i: int| 0 <= i < most.len() implies 0 <= #[trigger] most[i] <= 0xffff by {
            assert(most[i] == g[i]);
        }
        lemma_part_groups(most, false);
        assert(parts.drop_last() =~= most.map_values(|n: int| number::written(n, 16)));
        assert(0 <= g[g.len() - 1] <= 0xffff);
        lemma_group(g.last());
        assert(parts.last() == number::written(g.last(), 16));
        assert(most.push(g.last()) =~= g);
    }
}

proof fn lemma_side_groups(g: Seq<int>, v4_tail: bool)
    requires
        are_groups(g),
    ensures
        addr::side_groups(addr::joined(g), v4_tail) == Some(g),
{
    if g.len() == 0 {
        assert(g =~= seq![]);
    } else {
        lemma_split_joined(g);
        lemma_part_groups(g, v4_tail);
    }
}

/// Colons stand alone, and neither first nor last.
spec fn colons_stand_alone(s: Seq<char>) -> bool {
    forall|i: int| 0 <= i < s.len() && #[trigger] s[i] == ':' ==> 0 < i < s.len() - 1 && s[i + 1] != ':'
}

proof fn lemma_joined_colons(g: Seq<int>)
    requires
        are_groups(g),
    ensures
        colons_stand_alone(addr::joined(g)),
    decreases g.len(),
{
    let s = addr::joined(g);
    if g.len() == 1 {
        lemma_written(g[0]);
        assert forall|i: int| 0 <= i < s.len() implies #[trigger] s[i] != ':' by {
            assert(number::written(g[0], 16)[i] != ':');
        }
    } else if g.len() > 1 {
        let most = g.drop_last();
        let head = addr::joined(most);
        let tail = number::written(g.last(), 16);
        assert forall|i: int| 0 <= i < most.len() implies 0 <= #[trigger] most[i] <= 0xffff by {
            assert(most[i] == g[i]);
        }
        lemma_joined_colons(most);
        lemma_split_joined(most);
        assert(0 <= g[g.len() - 1]);
        lemma_written(g.last());
        assert(s == head + seq![':'] + tail);
        let n = head.len() as int;
        assert forall|i: int| 0 <= i < s.len() && #[trigger] s[i] == ':' implies 0 < i < s.len() - 1
            && s[i + 1] != ':' by {
            if i < n {
                assert(head[i] == ':');
                assert(s[i + 1] == head[i + 1]);
            } else if i == n {
                assert(s[i + 1] == tail[0]);
            } else {
                assert(s[i] == tail[i - n - 1]);
            }
        }
    }
}

proof fn lemma_no_double_colon(s: Seq<char>)
    requires
        forall|i: int| 0 <= i < s.len() - 1 && #[trigger] s[i] == ':' ==> s[i + 1] != ':',
    ensures
        addr::double_colon(s) < 0,
    decreases s.len(),
{
    if s.len() >= 2 {
        let rest = s.drop_first();
        assert forall|i: int| 0 <= i < rest.len() - 1 && #[trigger] rest[i] == ':' implies rest[i + 1]
            != ':' by {
            assert(s[i + 1] == ':');
        }
        lemma_no_double_colon(rest);
        if s[0] == ':' {
            assert(s[1] != ':');
        }
    }
}

proof fn lemma_double_colon_at(a: Seq<char>, b: Seq<char>)
    requires
        forall|i: int|
            0 <= i < a.len() && #[trigger] a[i] == ':' ==> i < a.len() - 1 && a[i + 1] != ':',
    ensures
        addr::double_colon(a + seq![':', ':'] + b) == a.len(),
    decreases a.len(),
{
    let s = a + seq![':', ':'] + b;
    if a.len() == 0 {
        assert(s[0] == ':' && s[1] == ':');
    } else {
        let rest = a.drop_first();
        assert(s[0] == a[0]);
        if a[0] == ':' {
            assert(s[1] == a[1]);
        }
        assert forall|i: int| 0 <= i < rest.len() && #[trigger] rest[i] == ':' implies i < rest.len()
            - 1 && rest[i + 1] != ':' by {
            assert(a[i + 1] == ':');
        }
        lemma_double_colon_at(rest, b);
        assert(s.drop_first() =~= rest + seq![':', ':'] + b);
    }
}

/// The groups of an address make it up, the first one worth most.
pub proof fn groups_make_up_an_address(ip: Ipv6Addr)
    ensures
        ip.groups().len() == 8,
        forall|i: int| 0 <= i < 8 ==> 0 <= #[trigger] ip.groups()[i] <= 0xffff,
        addr::from_groups(ip.groups()) == ip.bits,
{
    let n = ip.bits as int;
    let q1 = n / 0x1_0000;
    let q2 = q1 / 0x1_0000;
    let q3 = q2 / 0x1_0000;
    let q4 = q3 / 0x1_0000;
    let q5 = q4 / 0x1_0000;
    let q6 = q5 / 0x1_0000;
    let q7 = q6 / 0x1_0000;
    assert(q2 == n / 0x1_0000_0000);
    assert(q3 == n / 0x1_0000_0000_0000);
    assert(q4 == n / 0x1_0000_0000_0000_0000);
    assert(q5 == n / 0x1_0000_0000_0000_0000_0000);
    assert(q6 == n / 0x1_0000_0000_0000_0000_0000_0000);
    assert(q7 == n / 0x1_0000_0000_0000_0000_0000_0000_0000);
    let g = ip.groups();
    assert(g[0] == q7 && g[1] == q6 % 0x1_0000 && g[2] == q5 % 0x1_0000 && g[3] == q4 % 0x1_0000);
    assert(g[4] == q3 % 0x1_0000 && g[5] == q2 % 0x1_0000 && g[6] == q1 % 0x1_0000 && g[7] == n
        % 0x1_0000);
    assert(n == q1 * 0x1_0000 + g[7]);
    assert(q1 == q2 * 0x1_0000 + g[6]);
    assert(q2 == q3 * 0x1_0000 + g[5]);
    assert(q3 == q4 * 0x1_0000 + g[4]);
    assert(q4 == q5 * 0x1_0000 + g[3]);
    assert(q5 == q6 * 0x1_0000 + g[2]);
    assert(q6 == q7 * 0x1_0000 + g[1]);
    assert(0 <= q7 <= 0xffff);
}

/// Groups with their longest run left out read back.
proof fn lemma_shortened(g: Seq<int>, at: int, n: int)
    requires
        g.len() == 8,
        are_groups(g),
        0 <= at,
        1 < n,
        at + n <= 8,
        forall|j: int| at <= j < at + n ==> #[trigger] g[j] == 0,
    ensures
        addr::ipv6_groups(
            addr::joined(g.take(at)) + seq![':', ':'] + addr::joined(g.skip(at + n)),
        ) == Some(g),
{
    let h = g.take(at);
    let t = g.skip(at + n);
    let a = addr::joined(h);
    let b = addr::joined(t);
    let s = a + seq![':', ':'] + b;
    assert forall|i: int| 0 <= i < h.len() implies 0 <= #[trigger] h[i] <= 0xffff by {
        assert(h[i] == g[i]);
    }
    assert forall|i: int| 0 <= i < t.len() implies 0 <= #[trigger] t[i] <= 0xffff by {
        assert(t[i] == g[at + n + i]);
    }
    lemma_joined_colons(h);
    lemma_double_colon_at(a, b);
    lemma_side_groups(h, false);
    lemma_side_groups(t, true);
    let i = addr::double_colon(s);
    assert(i == a.len());
    assert(s.take(i) =~= a);
    assert(s.skip(i + 2) =~= b);
    let zeros = Seq::new((8 - h.len() - t.len()) as nat, |j: int| 0int);
    assert(h + zeros + t =~= g);
}

/// Groups that are written out read back.
proof fn lemma_written_out(g: Seq<int>)
    requires
        g.len() == 8,
        are_groups(g),
    ensures
        addr::ipv6_groups(addr::joined(g)) == Some(g),
{
    let s = addr::joined(g);
    lemma_joined_colons(g);
    assert forall|i: int| 0 <= i < s.len() - 1 && #[trigger] s[i] == ':' implies s[i + 1] != ':' by {}
    lemma_no_double_colon(s);
    lemma_side_groups(g, true);
}

/// The group before a mapped address.
proof fn lemma_ffff()
    ensures
        addr::group_value(seq!['f', 'f', 'f', 'f']) == Some(0xffffint),
{
    let one = seq!['f'];
    let two = seq!['f', 'f'];
    let three = seq!['f', 'f', 'f'];
    let four = seq!['f', 'f', 'f', 'f'];
    assert(one.drop_last() =~= seq![]);
    assert(two.drop_last() =~= one);
    assert(three.drop_last() =~= two);
    assert(four.drop_last() =~= three);
    assert(number::value(one.drop_last(), 16) == 0);
    assert(number::value(one, 16) == 15);
    assert(number::value(two, 16) == 255);
    assert(number::value(three, 16) == 4095);
    assert(number::value(four, 16) == 0xffff);
}

/// The groups that end in an address of IPv4.
proof fn lemma_mapped_groups(t: Seq<char>, bits: int)
    requires
        addr::ipv4(t) == Some(bits),
    ensures
        addr::part_groups(seq![seq!['f', 'f', 'f', 'f'], t], true) == Some(
            seq![0xffffint, bits / 0x1_0000, bits % 0x1_0000],
        ),
{
    let word = seq!['f', 'f', 'f', 'f'];
    let parts = seq![word, t];
    lemma_ffff();
    assert(parts.drop_last() =~= seq![word]);
    assert(seq![word].drop_last() =~= seq![]);
    assert(addr::part_groups(seq![word].drop_last(), false) == Some(Seq::<int>::empty()));
    assert(Seq::<int>::empty().push(0xffffint) =~= seq![0xffffint]);
    assert(addr::part_groups(seq![word], false) == Some(seq![0xffffint]));
    assert(seq![0xffffint].push(bits / 0x1_0000).push(bits % 0x1_0000) =~= seq![
        0xffffint,
        bits / 0x1_0000,
        bits % 0x1_0000,
    ]);
}

/// An address that is mapped from IPv4 reads back.
proof fn lemma_mapped(ip: Ipv6Addr, v4: Ipv4Addr)
    requires
        ip.mapped_v4() == Some(v4),
    ensures
        addr::ipv6(ip.text()) == Some(ip.bits as int),
{
    let t = v4.text();
    let word = seq!['f', 'f', 'f', 'f'];
    let tail = word.push(':') + t;
    let s = ip.text();
    let bits = v4.bits as int;
    addr::lemma_ipv4_text(v4);
    addr::an_ipv4_address_reads_back(v4);
    assert(s =~= Seq::<char>::empty() + seq![':', ':'] + tail);
    lemma_double_colon_at(seq![], tail);
    assert(s.take(0) =~= seq![]);
    assert(s.skip(2) =~= tail);
    text::lemma_split_at(word, ':', t);
    text::lemma_split_none(t, ':');
    assert(text::split(tail, Class::Is(':')) =~= seq![word, t]);
    lemma_mapped_groups(t, bits);
    let groups = seq![0xffffint, bits / 0x1_0000, bits % 0x1_0000];
    assert(addr::side_groups(tail, true) == Some(groups));
    let g = Seq::<int>::empty() + Seq::new(5, |j: int| 0int) + groups;
    assert(addr::ipv6_groups(s) == Some(g));
    assert(g =~= seq![0int, 0, 0, 0, 0, 0xffff, bits / 0x1_0000, bits % 0x1_0000]);
    assert(addr::from_groups(g) == 0xffff * 0x1_0000_0000 + bits);
    assert(ip.bits == 0xffff * 0x1_0000_0000 + bits);
}

/// An IPv6 address that was written is read back.
pub proof fn an_ipv6_address_reads_back(ip: Ipv6Addr)
    ensures
        addr::ipv6(ip.text()) == Some(ip.bits as int),
{
    let g = ip.groups();
    groups_make_up_an_address(ip);
    match ip.mapped_v4() {
        Some(v4) => {
            lemma_mapped(ip, v4);
        },
        None => {
            let (at, n) = addr::longest_run(g, 0);
            the_longest_run_is_the_first_of_its_length(g, 0);
            a_run_ends_where_the_zeros_end(g, at);
            if n > 1 {
                lemma_shortened(g, at, n);
            } else {
                lemma_written_out(g);
            }
        },
    }
}

/// An address that was written is read back, of whichever family it is.
pub proof fn an_address_reads_back(ip: IpAddr)
    ensures
        IpAddr::written_by(ip.text()) == Some(ip),
{
    match ip {
        IpAddr::V4(a) => {
            addr::an_ipv4_address_reads_back(a);
        },
        IpAddr::V6(a) => {
            an_ipv6_address_reads_back(a);
            lemma_no_ipv4(a);
        },
    }
}

/// What holds a colon before any dot is no address of IPv4.
proof fn lemma_colon_first(s: Seq<char>, i: int)
    requires
        0 <= i < s.len(),
        s[i] == ':',
        forall|j: int| 0 <= j < i ==> #[trigger] s[j] != '.',
    ensures
        addr::ipv4(s) is None,
{
    let k = Class::Is('.');
    let f = text::find(s, k);
    text::lemma_find(s, k);
    let p = text::split(s, k);
    if f < s.len() {
        assert(s[f] == '.');
        assert(i < f);
        assert(p[0] == s.take(f));
        assert(p[0][i] == ':');
        assert(number::digit(p[0][i], 10) < 0);
        assert(!number::all_digits(p[0], 10));
    }
}

proof fn lemma_no_ipv4(a: Ipv6Addr)
    ensures
        addr::ipv4(a.text()) is None,
{
    let g = a.groups();
    let s = a.text();
    groups_make_up_an_address(a);
    match a.mapped_v4() {
        Some(v4) => {
            assert(s[0] == ':');
            lemma_colon_first(s, 0);
        },
        None => {
            let (at, n) = addr::longest_run(g, 0);
            the_longest_run_is_the_first_of_its_length(g, 0);
            a_run_ends_where_the_zeros_end(g, at);
            if n > 1 {
                let h = g.take(at);
                assert forall|i: int| 0 <= i < h.len() implies 0 <= #[trigger] h[i] <= 0xffff by {
                    assert(h[i] == g[i]);
                }
                lemma_joined_has_no_dot(h);
                let m = addr::joined(h).len() as int;
                assert(s[m] == ':');
                assert forall|j: int| 0 <= j < m implies #[trigger] s[j] != '.' by {
                    assert(s[j] == addr::joined(h)[j]);
                }
                lemma_colon_first(s, m);
            } else {
                lemma_joined_has_no_dot(g);
                text::lemma_split_none(s, '.');
            }
        },
    }
}

proof fn lemma_joined_has_no_dot(g: Seq<int>)
    requires
        are_groups(g),
    ensures
        forall|i: int| 0 <= i < addr::joined(g).len() ==> #[trigger] addr::joined(g)[i] != '.',
    decreases g.len(),
{
    let s = addr::joined(g);
    if g.len() == 1 {
        lemma_written(g[0]);
    } else if g.len() > 1 {
        let most = g.drop_last();
        assert forall|i: int| 0 <= i < most.len() implies 0 <= #[trigger] most[i] <= 0xffff by {
            assert(most[i] == g[i]);
        }
        lemma_joined_has_no_dot(most);
        assert(0 <= g[g.len() - 1]);
        lemma_written(g.last());
        let head = addr::joined(most);
        let tail = number::written(g.last(), 16);
        assert forall|i: int| 0 <= i < s.len() implies #[trigger] s[i] != '.' by {
            if i < head.len() {
                assert(s[i] == head[i]);
            } else if i > head.len() {
                assert(s[i] == tail[i - head.len() - 1]);
            }
        }
    }
}

/// An IPv6 address is written in groups of hexadecimal digits, with two colons for the first
/// of the longest runs of zeros, if it is longer than one group. One that is mapped from
/// IPv4 ends in that address.
pub proof fn how_an_ipv6_address_is_written(ip: Ipv6Addr, at: int, n: int)
    requires
        0 <= at,
        0 <= n,
        at + n <= 8,
        n == addr::zero_run(ip.groups(), at),
        forall|j: int| 0 <= j < 8 ==> #[trigger] addr::zero_run(ip.groups(), j) <= n,
        forall|j: int| 0 <= j < at ==> #[trigger] addr::zero_run(ip.groups(), j) < n,
    ensures
        ip.mapped_v4() is None && n >= 2 ==> ip.text() == addr::joined(ip.groups().take(at)) + seq![
            ':',
            ':',
        ] + addr::joined(ip.groups().skip(at + n)),
        ip.mapped_v4() is None && n < 2 ==> ip.text() == addr::joined(ip.groups()),
        ip.mapped_v4() is Some <==> 0xffff_0000_0000 <= ip.bits <= 0xffff_ffff_ffff,
        ip.mapped_v4() matches Some(v4) ==> v4.bits == ip.bits - 0xffff_0000_0000 && ip.text()
            == seq![':', ':', 'f', 'f', 'f', 'f', ':'] + v4.text(),
{
    let g = ip.groups();
    let (first, longest) = addr::longest_run(g, 0);
    the_longest_run_is_the_first_of_its_length(g, 0);
    if n >= 2 {
        a_run_ends_where_the_zeros_end(g, at);
        if first < at {
            assert(addr::zero_run(g, first) < n);
        } else if at < first {
            assert(addr::zero_run(g, at) < longest);
            assert(first < 8 ==> addr::zero_run(g, first) <= n);
        }
        assert(addr::zero_run(g, at) <= longest);
    } else if longest > 1 {
        assert(addr::zero_run(g, first) <= n);
    }
}

/// Groups are joined with a colon between each and the next.
pub proof fn groups_are_joined_in_order(g: Seq<int>, n: int)
    ensures
        addr::joined(seq![]).len() == 0,
        addr::joined(seq![n]) == number::written(n, 16),
        g.len() > 0 ==> addr::joined(g.push(n)) == addr::joined(g) + seq![':'] + number::written(
            n,
            16,
        ),
{
    assert(g.push(n).drop_last() =~= g);
}

} // verus!
