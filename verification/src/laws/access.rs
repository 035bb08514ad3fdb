//! What holds of who may ask: which addresses a rule admits, and how rules are written.

use crate::addr::{IpAddr, Ipv4Addr, Ipv6Addr};
use crate::dns::acl;
use crate::dns::acl::{CidrError, Rule};
use crate::number;
use crate::text;
use crate::text::Class;
use vstd::prelude::*;

verus! {

/// The ranges of IPv4 that stand for a LAN: 10/8, 172.16/12, 192.168/16, 169.254/16 and
/// 100.64/10.
pub open spec fn in_a_lan_range(bits: int) -> bool {
    ||| 0x0a00_0000 <= bits <= 0x0aff_ffff
    ||| 0xac10_0000 <= bits <= 0xac1f_ffff
    ||| 0xc0a8_0000 <= bits <= 0xc0a8_ffff
    ||| 0xa9fe_0000 <= bits <= 0xa9fe_ffff
    ||| 0x6440_0000 <= bits <= 0x647f_ffff
}

/// The clients that are served unless something else is said: this machine, 127/8 and ::1,
/// and the ranges of a LAN, in IPv6 fc00::/7, fe80::/10 and what is mapped from IPv4.
pub proof fn the_lan_is_these_ranges(ip: IpAddr)
    ensures
        acl::admitted(seq![], ip) <==> match ip {
            IpAddr::V4(a) => in_a_lan_range(a.bits as int) || 0x7f00_0000 <= a.bits <= 0x7fff_ffff,
            IpAddr::V6(a) => {
                ||| a.bits == 1
                ||| 0xfc00_0000_0000_0000_0000_0000_0000_0000 <= a.bits
                    <= 0xfdff_ffff_ffff_ffff_ffff_ffff_ffff_ffff
                ||| 0xfe80_0000_0000_0000_0000_0000_0000_0000 <= a.bits
                    <= 0xfebf_ffff_ffff_ffff_ffff_ffff_ffff_ffff
                ||| 0xffff_0000_0000 <= a.bits <= 0xffff_ffff_ffff && in_a_lan_range(
                    a.bits - 0xffff_0000_0000,
                )
            },
        },
{
    match ip {
        IpAddr::V4(a) => {
            lemma_lan_v4(a);
        },
        IpAddr::V6(a) => {
            match a.mapped_v4() {
                Some(v4) => {
                    assert(v4.bits == a.bits - 0xffff_0000_0000);
                    lemma_lan_v4(v4);
                },
                None => {},
            }
        },
    }
}

proof fn lemma_lan_v4(a: Ipv4Addr)
    ensures
        acl::local_v4(a) <==> in_a_lan_range(a.bits as int),
        a.loopback() <==> 0x7f00_0000 <= a.bits <= 0x7fff_ffff,
{
    let b = a.bits as int;
    assert(a.octet(0) == b / 0x100_0000);
    assert(a.octet(1) == b / 0x1_0000 - 256 * (b / 0x100_0000));
}

/// Each rule admits what it says: this machine, the LAN and this machine, everything, or
/// the addresses of its own family that start as its network does. Without rules the LAN
/// is served, and with rules exactly what one of them admits.
pub proof fn a_rule_admits_what_it_says(ip: IpAddr, rules: Seq<Rule>, i: int)
    ensures
        Rule::Any.admits(ip),
        Rule::Loopback.admits(ip) <==> ip.loopback(),
        Rule::Private.admits(ip) <==> acl::admitted(seq![], ip),
        0 <= i < rules.len() && rules[i].admits(ip) ==> acl::admitted(rules, ip),
        rules.len() > 0 && acl::admitted(rules, ip) ==> exists|k: int|
            0 <= k < rules.len() && (#[trigger] rules[k]).admits(ip),
{
}

/// A network of IPv4 admits exactly the addresses from the first that starts as it does to
/// the last.
pub proof fn a_network_is_a_range_of_addresses(ip: Ipv4Addr, network: Ipv4Addr, prefix: u8)
    requires
        prefix <= 32,
    ensures
        ({
            let size = vstd::arithmetic::power2::pow2((32 - prefix) as nat) as int;
            let first = network.bits - network.bits as int % size;
            (Rule::V4 { network, prefix }).admits(IpAddr::V4(ip)) <==> first <= ip.bits < first + size
        }),
        forall|a: Ipv6Addr| !#[trigger] (Rule::V4 { network, prefix }).admits(IpAddr::V6(a)),
{
    let size = vstd::arithmetic::power2::pow2((32 - prefix) as nat) as int;
    vstd::arithmetic::power2::lemma_pow2_pos((32 - prefix) as nat);
    lemma_block(ip.bits as int, network.bits as int, size);
}

/// A network of IPv6 does as well.
pub proof fn a_network_of_ipv6_is_a_range_of_addresses(
    ip: Ipv6Addr,
    network: Ipv6Addr,
    prefix: u8,
)
    requires
        prefix <= 128,
    ensures
        ({
            let size = vstd::arithmetic::power2::pow2((128 - prefix) as nat) as int;
            let first = network.bits - network.bits as int % size;
            (Rule::V6 { network, prefix }).admits(IpAddr::V6(ip)) <==> first <= ip.bits < first + size
        }),
        forall|a: Ipv4Addr| !#[trigger] (Rule::V6 { network, prefix }).admits(IpAddr::V4(a)),
{
    let size = vstd::arithmetic::power2::pow2((128 - prefix) as nat) as int;
    vstd::arithmetic::power2::lemma_pow2_pos((128 - prefix) as nat);
    lemma_block(ip.bits as int, network.bits as int, size);
}

/// Two numbers have the same quotient if they lie in the same block.
proof fn lemma_block(a: int, b: int, size: int)
    requires
        size > 0,
        a >= 0,
        b >= 0,
    ensures
        a / size == b / size <==> b - b % size <= a < b - b % size + size,
{
    vstd::arithmetic::div_mod::lemma_fundamental_div_mod(a, size);
    vstd::arithmetic::div_mod::lemma_fundamental_div_mod(b, size);
    let qa = a / size;
    let qb = b / size;
    assert(0 <= a % size < size && 0 <= b % size < size) by (nonlinear_arith)
        requires
            size > 0,
    ;
    assert(a == size * qa + a % size && b == size * qb + b % size);
    if qa < qb {
        assert(size * qa + size <= size * qb) by (nonlinear_arith)
            requires
                qa < qb,
                size > 0,
        ;
    } else if qa > qb {
        assert(size * qb + size <= size * qa) by (nonlinear_arith)
            requires
                qb < qa,
                size > 0,
        ;
    }
}

/// The words for rules, in any case and with spaces around them.
pub proof fn the_words_for_rules(entry: Seq<char>)
    ensures
        ({
            let word = text::lower(text::trim(entry, Class::White));
            &&& word == "loopback"@ || word == "localhost"@ ==> acl::rule_of(entry) == Ok::<
                Rule,
                CidrError,
            >(Rule::Loopback)
            &&& word == "private"@ || word == "lan"@ ==> acl::rule_of(entry) == Ok::<
                Rule,
                CidrError,
            >(Rule::Private)
            &&& word == "any"@ || word == "all"@ || word == "0.0.0.0/0"@ ==> acl::rule_of(entry)
                == Ok::<Rule, CidrError>(Rule::Any)
            &&& acl::rule_of(entry) == Ok::<Rule, CidrError>(Rule::Any) ==> word == "any"@ || word
                == "all"@ || word == "0.0.0.0/0"@
        }),
{
    let word = text::lower(text::trim(entry, Class::White));
    reveal_strlit("loopback");
    reveal_strlit("localhost");
    reveal_strlit("private");
    reveal_strlit("lan");
    reveal_strlit("any");
    reveal_strlit("all");
    reveal_strlit("0.0.0.0/0");
    assert("loopback"@[1] != "private"@[1] && "loopback"@.len() != "lan"@.len());
    assert("localhost"@.len() == 9 && "private"@.len() == 7 && "lan"@.len() == 3);
    assert("any"@[0] == 'a' && "all"@[0] == 'a' && "lan"@[0] == 'l' && "0.0.0.0/0"@[0] == '0');
    assert("localhost"@[0] == 'l');
}

/// A network that is written out is read as that network. This does not hold of 0.0.0.0/0,
/// which stands for everything.
pub proof fn a_written_network_is_a_rule(network: Ipv4Addr, prefix: u8)
    requires
        prefix <= 32,
        network.text() + seq!['/'] + number::decimal(prefix as int) != "0.0.0.0/0"@,
    ensures
        acl::rule_of(network.text() + seq!['/'] + number::decimal(prefix as int)) == Ok::<
            Rule,
            CidrError,
        >((Rule::V4 { network, prefix })),
{
    let a = network.text();
    let p = number::decimal(prefix as int);
    let s = a + seq!['/'] + p;
    crate::addr::lemma_ipv4_text(network);
    crate::addr::an_ipv4_address_reads_back(network);
    number::a_written_number_reads_back(prefix as int, 255);
    assert forall|i: int| 0 <= i < s.len() implies '0' <= #[trigger] s[i] <= '9' || s[i] == '.'
        || s[i] == '/' by {
        if i > a.len() {
            assert(number::digit(p[i - a.len() - 1], 10) >= 0);
        } else if i < a.len() {
            assert(s[i] == a[i]);
        }
    }
    assert('0' <= s[0] <= '9') by {
        assert(s[0] == a[0]);
    }
    assert(s.last() == p[p.len() - 1]);
    assert(number::digit(p[p.len() - 1], 10) >= 0);
    text::lemma_trim_none(s, Class::White);
    assert(text::lower(s) =~= s);
    reveal_strlit("loopback");
    reveal_strlit("localhost");
    reveal_strlit("private");
    reveal_strlit("lan");
    reveal_strlit("any");
    reveal_strlit("all");
    assert forall|j: int| 0 <= j < a.len() implies !text::member(Class::Is('/'), #[trigger] s[j]) by {
        assert(s[j] == a[j]);
    }
    text::lemma_find_unique(s, Class::Is('/'), a.len() as int);
    assert(s.take(a.len() as int) =~= a);
    assert(s.skip(a.len() as int + 1) =~= p);
    text::lemma_trim_none(a, Class::White);
    assert(number::digit(p[0], 10) >= 0);
    text::lemma_trim_none(p, Class::White);
}

/// What is no word for a rule and holds no slash is refused for that.
pub proof fn a_bare_address_is_no_rule(entry: Seq<char>)
    requires
        acl::rule_of(entry) is Ok,
    ensures
        ({
            let word = text::lower(text::trim(entry, Class::White));
            word.contains('/') || word == "loopback"@ || word == "localhost"@ || word
                == "private"@ || word == "lan"@ || word == "any"@ || word == "all"@
        }),
        acl::rule_of(entry) matches Ok(rule) && rule.wf(),
{
    let word = text::lower(text::trim(entry, Class::White));
    let i = text::find(word, Class::Is('/'));
    text::lemma_find(word, Class::Is('/'));
    if i < word.len() {
        assert(word[i] == '/');
    }
    reveal_strlit("0.0.0.0/0");
    if word == "0.0.0.0/0"@ {
        assert(word[7] == '/');
    }
}

/// What is wrong with a network that is no rule: it has no slash, or no number below 256
/// after it, or no address before it, or a prefix that is longer than the address.
pub proof fn what_is_wrong_with_a_rule_is_said(s: Seq<char>)
    ensures
        ({
            let i = text::find(s, Class::Is('/'));
            let address = IpAddr::written_by(text::trim(s.take(i), Class::White));
            let prefix = number::unsigned(text::trim(s.skip(i + 1), Class::White), 10, 255);
            match acl::cidr(s) {
                Err(CidrError::NoPrefix) => !s.contains('/'),
                Err(CidrError::BadPrefix) => s.contains('/') && prefix is None,
                Err(CidrError::BadAddress) => s.contains('/') && prefix is Some && address is None,
                Err(CidrError::PrefixTooLong) => s.contains('/') && prefix is Some && (address matches Some(
                    a,
                ) && prefix->0 as u8 > (if a is V4 {
                    32u8
                } else {
                    128u8
                })),
                Ok(Rule::V4 { network, prefix: p }) => address == Some(IpAddr::V4(network)) && prefix
                    is Some && p == prefix->0 as u8 && p <= 32,
                Ok(Rule::V6 { network, prefix: p }) => address == Some(IpAddr::V6(network)) && prefix
                    is Some && p == prefix->0 as u8 && p <= 128,
                Ok(_) => false,
            }
        }),
{
    let i = text::find(s, Class::Is('/'));
    text::lemma_find(s, Class::Is('/'));
    if i < s.len() {
        assert(s[i] == '/');
    } else if s.contains('/') {
        let j = s.index_of('/');
        assert(!text::member(Class::Is('/'), s[j]));
    }
}

/// An address with its port is written with a colon between them, one of IPv6 in brackets.
pub proof fn a_port_follows_its_address(a: crate::addr::SocketAddr)
    ensures
        a.ip matches IpAddr::V4(v4) ==> a.text() == v4.text() + seq![':'] + number::decimal(
            a.port as int,
        ),
        a.ip matches IpAddr::V6(v6) ==> a.text() == seq!['['] + v6.text() + seq![']', ':']
            + number::decimal(a.port as int),
{
}

} // verus!
