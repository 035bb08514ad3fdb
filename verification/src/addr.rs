//! Internet addresses, and the text that people and files write for them.

use crate::number;
use crate::text;
use crate::text::Class;
use vstd::prelude::*;
use vstd::slice::slice_subrange;

verus! {

/// An IPv4 address, as the number that its four octets write in base 256.
#[derive(Clone, Copy, Debug, PartialEq, Eq, Hash, Structural)]
pub struct Ipv4Addr {
    pub bits: u32,
}

/// An IPv6 address, as the number that its eight groups write in base 65536.
#[derive(Clone, Copy, Debug, PartialEq, Eq, Hash, Structural)]
pub struct Ipv6Addr {
    pub bits: u128,
}

/// An internet address of either family.
#[derive(Clone, Copy, Debug, PartialEq, Eq, Hash, Structural)]
pub enum IpAddr {
    V4(Ipv4Addr),
    V6(Ipv6Addr),
}

/// An internet address and a port.
#[derive(Clone, Copy, Debug, PartialEq, Eq, Hash, Structural)]
pub struct SocketAddr {
    pub ip: IpAddr,
    pub port: u16,
}

/// The first `len` bits of two numbers of `width` bits agree.
pub open spec fn same_prefix(a: nat, b: nat, len: nat, width: nat) -> bool {
    a / vstd::arithmetic::power2::pow2((width - len) as nat) == b / vstd::arithmetic::power2::pow2((width - len) as nat)
}

impl Ipv4Addr {
    /// The octet at position `i`, 0 being the first one written.
    pub open spec fn octet(self, i: int) -> int {
        if i == 0 {
            self.bits as int / 0x100_0000
        } else if i == 1 {
            self.bits as int / 0x1_0000 % 256
        } else if i == 2 {
            self.bits as int / 256 % 256
        } else {
            self.bits as int % 256
        }
    }

    /// The address with the four given octets.
    pub fn new(a: u8, b: u8, c: u8, d: u8) -> (r: Ipv4Addr)
        ensures
            r.bits == a * 0x100_0000 + b * 0x1_0000 + c * 256 + d,
            r.octet(0) == a,
            r.octet(1) == b,
            r.octet(2) == c,
            r.octet(3) == d,
    {
        let bits: u32 = a as u32 * 0x100_0000 + b as u32 * 0x1_0000 + c as u32 * 256 + d as u32;
        assert(bits / 0x100_0000 == a && bits / 0x1_0000 % 256 == b && bits / 256 % 256 == c && bits
            % 256 == d) by (bit_vector)
            requires
                bits == a as u32 * 0x100_0000 + b as u32 * 0x1_0000 + c as u32 * 256 + d as u32,
        ;
        Ipv4Addr { bits }
    }

    /// The four octets.
    pub fn octets(&self) -> (r: [u8; 4])
        ensures
            forall|i: int| 0 <= i < 4 ==> #[trigger] r@[i] == self.octet(i),
    {
        [
            (self.bits / 0x100_0000) as u8,
            (self.bits / 0x1_0000 % 256) as u8,
            (self.bits / 256 % 256) as u8,
            (self.bits % 256) as u8,
        ]
    }

    /// 127.0.0.0/8.
    pub open spec fn loopback(self) -> bool {
        self.octet(0) == 127
    }

    /// 10.0.0.0/8, 172.16.0.0/12 and 192.168.0.0/16.
    pub open spec fn private(self) -> bool {
        ||| self.octet(0) == 10
        ||| self.octet(0) == 172 && 16 <= self.octet(1) <= 31
        ||| self.octet(0) == 192 && self.octet(1) == 168
    }

    /// 169.254.0.0/16.
    pub open spec fn link_local(self) -> bool {
        self.octet(0) == 169 && self.octet(1) == 254
    }

    /// 100.64.0.0/10, the range of carrier-grade address translation.
    pub open spec fn shared(self) -> bool {
        self.octet(0) == 100 && 64 <= self.octet(1) < 128
    }

    /// 224.0.0.0/4.
    pub open spec fn multicast(self) -> bool {
        224 <= self.octet(0) <= 239
    }

    /// Tells whether the address names the machine itself.
    pub fn is_loopback(&self) -> (r: bool)
        ensures
            r == self.loopback(),
    {
        self.bits / 0x100_0000 == 127
    }

    /// Tells whether the address belongs to one of the three private ranges.
    pub fn is_private(&self) -> (r: bool)
        ensures
            r == self.private(),
    {
        let a: u32 = self.bits / 0x100_0000;
        let b: u32 = self.bits / 0x1_0000 % 256;
        a == 10 || (a == 172 && 16 <= b && b <= 31) || (a == 192 && b == 168)
    }

    /// Tells whether the address is one that a host gives itself.
    pub fn is_link_local(&self) -> (r: bool)
        ensures
            r == self.link_local(),
    {
        self.bits / 0x100_0000 == 169 && self.bits / 0x1_0000 % 256 == 254
    }

    /// Tells whether the address belongs to the shared range of carriers.
    pub fn is_shared(&self) -> (r: bool)
        ensures
            r == self.shared(),
    {
        let b: u32 = self.bits / 0x1_0000 % 256;
        self.bits / 0x100_0000 == 100 && 64 <= b && b < 128
    }

    /// Tells whether the address names a group of hosts.
    pub fn is_multicast(&self) -> (r: bool)
        ensures
            r == self.multicast(),
    {
        let a: u32 = self.bits / 0x100_0000;
        224 <= a && a <= 239
    }

    /// Tells whether the address is 0.0.0.0.
    pub fn is_unspecified(&self) -> (r: bool)
        ensures
            r == (self.bits == 0),
    {
        self.bits == 0
    }

    /// Whether the address lies in the network `network`/`prefix`.
    pub open spec fn lies_in(self, network: Ipv4Addr, prefix: u8) -> bool {
        same_prefix(self.bits as nat, network.bits as nat, prefix as nat, 32)
    }

    /// Tells whether the address lies in the network `network`/`prefix`.
    pub fn is_in(&self, network: Ipv4Addr, prefix: u8) -> (r: bool)
        requires
            prefix <= 32,
        ensures
            r == self.lies_in(network, prefix),
    {
        if prefix == 0 {
            proof {
                vstd::arithmetic::power2::lemma2_to64();
                vstd::arithmetic::div_mod::lemma_basic_div(self.bits as int, vstd::arithmetic::power2::pow2(32) as int);
                vstd::arithmetic::div_mod::lemma_basic_div(network.bits as int, vstd::arithmetic::power2::pow2(32) as int);
            }
            return true;
        }
        let shift: u32 = 32 - prefix as u32;
        proof {
            vstd::bits::lemma_u32_shr_is_div(self.bits, shift);
            vstd::bits::lemma_u32_shr_is_div(network.bits, shift);
        }
        self.bits >> shift == network.bits >> shift
    }

    /// The address in dotted decimal.
    pub open spec fn text(self) -> Seq<char> {
        number::decimal(self.octet(0)) + seq!['.'] + number::decimal(self.octet(1)) + seq!['.']
            + number::decimal(self.octet(2)) + seq!['.'] + number::decimal(self.octet(3))
    }

    /// Appends the address in dotted decimal to a text.
    pub fn push_text(&self, out: &mut String)
        ensures
            final(out)@ == old(out)@ + self.text(),
    {
        number::push_number(out, (self.bits / 0x100_0000) as u64, 10);
        out.push('.');
        number::push_number(out, (self.bits / 0x1_0000 % 256) as u64, 10);
        out.push('.');
        number::push_number(out, (self.bits / 256 % 256) as u64, 10);
        out.push('.');
        number::push_number(out, (self.bits % 256) as u64, 10);
        assert(out@ =~= old(out)@ + self.text());
    }

    /// The address in dotted decimal.
    pub fn to_text(&self) -> (r: String)
        ensures
            r@ == self.text(),
    {
        let mut out = String::new();
        self.push_text(&mut out);
        assert(out@ =~= self.text());
        out
    }

    /// Reads an address in dotted decimal.
    pub fn parse(s: &[char]) -> (r: Option<Ipv4Addr>)
        ensures
            match ipv4(s@) {
                Some(bits) => r == Some(Ipv4Addr { bits: bits as u32 }),
                None => r is None,
            },
            r matches Some(a) ==> ipv4(s@) == Some(a.bits as int),
    {
        let parts = text::parts_of(s, Class::Is('.'));
        assert(text::texts(parts@).len() == parts@.len());
        if parts.len() != 4 {
            return None;
        }
        assert forall|i: int| 0 <= i < 4 implies text::texts(parts@)[i] == #[trigger] parts@[i]@ by {}
        match (
            read_octet(parts[0].as_slice()),
            read_octet(parts[1].as_slice()),
            read_octet(parts[2].as_slice()),
            read_octet(parts[3].as_slice()),
        ) {
            (Some(a), Some(b), Some(c), Some(d)) => Some(Ipv4Addr::new(a, b, c, d)),
            _ => None,
        }
    }
}

/// An octet in decimal: one to three digits, no leading zero, at most 255.
pub open spec fn octet_value(s: Seq<char>) -> Option<int> {
    if s.len() > 3 || (s.len() > 1 && s[0] == '0') {
        None
    } else {
        number::digits_value(s, 10, 255)
    }
}

fn read_octet(s: &[char]) -> (r: Option<u8>)
    ensures
        match octet_value(s@) {
            Some(v) => r == Some(v as u8),
            None => r is None,
        },
        r matches Some(v) ==> octet_value(s@) == Some(v as int),
{
    if s.len() > 3 || (s.len() > 1 && s[0] == '0') {
        return None;
    }
    match number::read_digits(s, 10, 255) {
        Some(v) => Some(v as u8),
        None => None,
    }
}

/// The address that `s` writes in dotted decimal: four octets.
pub open spec fn ipv4(s: Seq<char>) -> Option<int> {
    let p = text::split(s, Class::Is('.'));
    if p.len() == 4 {
        match (octet_value(p[0]), octet_value(p[1]), octet_value(p[2]), octet_value(p[3])) {
            (Some(a), Some(b), Some(c), Some(d)) => Some(
                a * 0x100_0000 + b * 0x1_0000 + c * 256 + d,
            ),
            _ => None,
        }
    } else {
        None
    }
}

impl Ipv6Addr {
    /// The group of sixteen bits at position `i`, 0 being the first one written.
    pub open spec fn segment(self, i: int) -> int {
        if i == 0 {
            self.bits as int / 0x1_0000_0000_0000_0000_0000_0000_0000
        } else if i == 1 {
            self.bits as int / 0x1_0000_0000_0000_0000_0000_0000 % 0x1_0000
        } else if i == 2 {
            self.bits as int / 0x1_0000_0000_0000_0000_0000 % 0x1_0000
        } else if i == 3 {
            self.bits as int / 0x1_0000_0000_0000_0000 % 0x1_0000
        } else if i == 4 {
            self.bits as int / 0x1_0000_0000_0000 % 0x1_0000
        } else if i == 5 {
            self.bits as int / 0x1_0000_0000 % 0x1_0000
        } else if i == 6 {
            self.bits as int / 0x1_0000 % 0x1_0000
        } else {
            self.bits as int % 0x1_0000
        }
    }

    /// The eight groups.
    pub open spec fn groups(self) -> Seq<int> {
        Seq::new(8, |i: int| self.segment(i))
    }

    /// The eight groups.
    pub fn segments(&self) -> (r: [u16; 8])
        ensures
            forall|i: int| 0 <= i < 8 ==> #[trigger] r@[i] == self.segment(i),
    {
        [
            (self.bits / 0x1_0000_0000_0000_0000_0000_0000_0000 % 0x1_0000) as u16,
            (self.bits / 0x1_0000_0000_0000_0000_0000_0000 % 0x1_0000) as u16,
            (self.bits / 0x1_0000_0000_0000_0000_0000 % 0x1_0000) as u16,
            (self.bits / 0x1_0000_0000_0000_0000 % 0x1_0000) as u16,
            (self.bits / 0x1_0000_0000_0000 % 0x1_0000) as u16,
            (self.bits / 0x1_0000_0000 % 0x1_0000) as u16,
            (self.bits / 0x1_0000 % 0x1_0000) as u16,
            (self.bits % 0x1_0000) as u16,
        ]
    }

    /// The address `::1`.
    pub open spec fn loopback(self) -> bool {
        self.bits == 1
    }

    /// Tells whether the address names the machine itself.
    pub fn is_loopback(&self) -> (r: bool)
        ensures
            r == self.loopback(),
    {
        self.bits == 1
    }

    /// fc00::/7, the unique local range.
    pub open spec fn unique_local(self) -> bool {
        0xfc00 <= self.segment(0) <= 0xfdff
    }

    /// fe80::/10, the link-local range.
    pub open spec fn link_local(self) -> bool {
        0xfe80 <= self.segment(0) <= 0xfebf
    }

    /// The IPv4 address that an address in ::ffff:0:0/96 stands for.
    pub open spec fn mapped_v4(self) -> Option<Ipv4Addr> {
        if self.bits as int / 0x1_0000_0000 == 0xffff {
            Some(Ipv4Addr { bits: (self.bits as int % 0x1_0000_0000) as u32 })
        } else {
            None
        }
    }

    /// The IPv4 address that an address in ::ffff:0:0/96 stands for.
    pub fn to_ipv4_mapped(&self) -> (r: Option<Ipv4Addr>)
        ensures
            r == self.mapped_v4(),
    {
        if self.bits / 0x1_0000_0000 == 0xffff {
            Some(Ipv4Addr { bits: (self.bits % 0x1_0000_0000) as u32 })
        } else {
            None
        }
    }

    /// Whether the address lies in the network `network`/`prefix`.
    pub open spec fn lies_in(self, network: Ipv6Addr, prefix: u8) -> bool {
        same_prefix(self.bits as nat, network.bits as nat, prefix as nat, 128)
    }

    /// Tells whether the address lies in the network `network`/`prefix`.
    pub fn is_in(&self, network: Ipv6Addr, prefix: u8) -> (r: bool)
        requires
            prefix <= 128,
        ensures
            r == self.lies_in(network, prefix),
    {
        if prefix == 0 {
            proof {
                lemma_pow2_128();
                vstd::arithmetic::div_mod::lemma_basic_div(self.bits as int, vstd::arithmetic::power2::pow2(128) as int);
                vstd::arithmetic::div_mod::lemma_basic_div(network.bits as int, vstd::arithmetic::power2::pow2(128) as int);
            }
            return true;
        }
        let shift: u128 = 128 - prefix as u128;
        proof {
            vstd::bits::lemma_u128_shr_is_div(self.bits, shift);
            vstd::bits::lemma_u128_shr_is_div(network.bits, shift);
        }
        self.bits >> shift == network.bits >> shift
    }
}

proof fn lemma_pow2_128()
    ensures
        vstd::arithmetic::power2::pow2(128) == 0x1_0000_0000_0000_0000_0000_0000_0000_0000,
{
    vstd::arithmetic::power2::lemma2_to64();
    vstd::arithmetic::power2::lemma_pow2_adds(64, 64);
    assert(0x1_0000_0000_0000_0000nat * 0x1_0000_0000_0000_0000nat
        == 0x1_0000_0000_0000_0000_0000_0000_0000_0000nat) by (nonlinear_arith);
}

/// A group of an address: one to four hexadecimal digits.
pub open spec fn group_value(s: Seq<char>) -> Option<int> {
    if s.len() > 4 {
        None
    } else {
        number::digits_value(s, 16, 0xffff)
    }
}

fn read_group(s: &[char]) -> (r: Option<u16>)
    ensures
        match group_value(s@) {
            Some(v) => r == Some(v as u16),
            None => r is None,
        },
        r matches Some(v) ==> group_value(s@) == Some(v as int),
{
    if s.len() > 4 {
        return None;
    }
    match number::read_digits(s, 16, 0xffff) {
        Some(v) => Some(v as u16),
        None => None,
    }
}

/// The groups that the parts between colons write. The last part may be an IPv4
/// address where `v4_tail` says so; it then stands for two groups.
pub open spec fn part_groups(parts: Seq<Seq<char>>, v4_tail: bool) -> Option<Seq<int>>
    decreases parts.len(),
{
    if parts.len() == 0 {
        Some(seq![])
    } else {
        match part_groups(parts.drop_last(), false) {
            None => None,
            Some(head) => {
                if v4_tail && ipv4(parts.last()) is Some {
                    let v4 = ipv4(parts.last())->0;
                    Some(head.push(v4 / 0x1_0000).push(v4 % 0x1_0000))
                } else {
                    match group_value(parts.last()) {
                        None => None,
                        Some(g) => Some(head.push(g)),
                    }
                }
            },
        }
    }
}

/// The groups that a side of a double colon, or a whole address without one, writes.
pub open spec fn side_groups(s: Seq<char>, v4_tail: bool) -> Option<Seq<int>> {
    if s.len() == 0 {
        Some(seq![])
    } else {
        part_groups(text::split(s, Class::Is(':')), v4_tail)
    }
}

/// The index of the first double colon of `s`, or -1.
pub open spec fn double_colon(s: Seq<char>) -> int
    decreases s.len(),
{
    if s.len() < 2 {
        -1
    } else if s[0] == ':' && s[1] == ':' {
        0
    } else {
        let i = double_colon(s.drop_first());
        if i < 0 {
            -1
        } else {
            i + 1
        }
    }
}

/// The eight groups that `s` writes: eight groups between colons, the last two of
/// which may be in dotted decimal, or fewer with one double colon for the zeros
/// that are missing.
pub open spec fn ipv6_groups(s: Seq<char>) -> Option<Seq<int>> {
    let i = double_colon(s);
    if i < 0 {
        match side_groups(s, true) {
            Some(g) => if g.len() == 8 {
                Some(g)
            } else {
                None
            },
            None => None,
        }
    } else {
        match (side_groups(s.take(i), false), side_groups(s.skip(i + 2), true)) {
            (Some(h), Some(t)) => if h.len() + t.len() <= 7 {
                Some(h + Seq::new((8 - h.len() - t.len()) as nat, |j: int| 0int) + t)
            } else {
                None
            },
            _ => None,
        }
    }
}

/// The number that eight groups write in base 65536.
pub open spec fn from_groups(g: Seq<int>) -> int {
    g[0] * 0x1_0000_0000_0000_0000_0000_0000_0000 + g[1] * 0x1_0000_0000_0000_0000_0000_0000 + g[2] * 0x1_0000_0000_0000_0000_0000 + g[3] * 0x1_0000_0000_0000_0000 + g[4] * 0x1_0000_0000_0000 + g[5] * 0x1_0000_0000 + g[6] * 0x1_0000 + g[7]
}

/// The address that `s` writes in the notation of IPv6.
pub open spec fn ipv6(s: Seq<char>) -> Option<int> {
    match ipv6_groups(s) {
        Some(g) => Some(from_groups(g)),
        None => None,
    }
}

/// The groups of a vector as numbers.
spec fn as_ints(v: Seq<u16>) -> Seq<int> {
    v.map_values(|g: u16| g as int)
}

fn read_side(s: &[char], v4_tail: bool) -> (r: Option<Vec<u16>>)
    ensures
        match r {
            Some(v) => side_groups(s@, v4_tail) == Some(as_ints(v@)),
            None => side_groups(s@, v4_tail) is None,
        },
{
    let mut out: Vec<u16> = Vec::new();
    if s.len() == 0 {
        assert(as_ints(out@) =~= seq![]);
        return Some(out);
    }
    let parts = text::parts_of(s, Class::Is(':'));
    let ghost p = text::texts(parts@);
    let n: usize = parts.len();
    let mut i: usize = 0;
    assert(as_ints(out@) =~= seq![]);
    assert(p.take(0) =~= seq![]);
    while i < n
        invariant
            i <= n == parts@.len(),
            p == text::texts(parts@),
            p == text::split(s@, Class::Is(':')),
            s@.len() > 0,
            part_groups(p.take(i as int), v4_tail && i == n) == Some(as_ints(out@)),
        decreases n - i,
    {
        assert(p.take(i + 1).drop_last() =~= p.take(i as int));
        assert(p.take(i + 1).last() == parts@[i as int]@);
        let ghost before = out@;
        let last = v4_tail && i == n - 1;
        let v4 = if last {
            Ipv4Addr::parse(parts[i].as_slice())
        } else {
            None
        };
        match v4 {
            Some(a) => {
                out.push((a.bits / 0x1_0000) as u16);
                out.push((a.bits % 0x1_0000) as u16);
                proof {
                    assert(as_ints(out@) =~= as_ints(before).push(a.bits as int / 0x1_0000).push(
                        a.bits as int % 0x1_0000,
                    ));
                }
            },
            None => {
                match read_group(parts[i].as_slice()) {
                    Some(g) => {
                        out.push(g);
                        assert(as_ints(out@) =~= as_ints(before).push(g as int));
                    },
                    None => {
                        proof {
                            assert(part_groups(p.take(i + 1), last) is None);
                            lemma_groups_fail(p, v4_tail, i + 1);
                        }
                        return None;
                    },
                }
            },
        }
        i += 1;
    }
    assert(p.take(n as int) =~= p);
    Some(out)
}

/// A text whose first parts write no groups writes none.
proof fn lemma_groups_fail(p: Seq<Seq<char>>, v4_tail: bool, n: int)
    requires
        0 <= n <= p.len(),
        part_groups(p.take(n), v4_tail && n == p.len()) is None,
    ensures
        part_groups(p, v4_tail) is None,
    decreases p.len(),
{
    if n == p.len() {
        assert(p.take(n) =~= p);
    } else {
        assert(p.drop_last().take(n) =~= p.take(n));
        lemma_groups_fail(p.drop_last(), false, n);
    }
}

/// What characterises the first double colon.
proof fn lemma_double_colon(s: Seq<char>)
    ensures
        -1 <= double_colon(s),
        double_colon(s) >= 0 ==> double_colon(s) + 2 <= s.len(),
    decreases s.len(),
{
    if s.len() >= 2 {
        lemma_double_colon(s.drop_first());
    }
}

fn find_double_colon(s: &[char]) -> (r: Option<usize>)
    ensures
        match r {
            Some(i) => i == double_colon(s@),
            None => double_colon(s@) < 0,
        },
{
    let mut i: usize = 0;
    assert(s@.skip(0) =~= s@);
    while i < s.len() && s.len() - i >= 2
        invariant
            i <= s@.len(),
            double_colon(s@) == (if double_colon(s@.skip(i as int)) < 0 {
                -1
            } else {
                i + double_colon(s@.skip(i as int))
            }),
        decreases s@.len() - i,
    {
        if s[i] == ':' && s[i + 1] == ':' {
            return Some(i);
        }
        assert(s@.skip(i as int).drop_first() =~= s@.skip(i + 1));
        proof {
            lemma_double_colon(s@.skip(i + 1));
        }
        i += 1;
    }
    None
}

impl Ipv6Addr {
    /// Reads an address in the notation of IPv6.
    pub fn parse(s: &[char]) -> (r: Option<Ipv6Addr>)
        ensures
            match r {
                Some(a) => ipv6(s@) == Some(a.bits as int),
                None => ipv6(s@) is None,
            },
    {
        let ghost want = ipv6_groups(s@);
        let g: Vec<u16> = match find_double_colon(s) {
            None => {
                match read_side(s, true) {
                    Some(g) => {
                        if g.len() != 8 {
                            return None;
                        }
                        g
                    },
                    None => {
                        return None;
                    },
                }
            },
            Some(i) => {
                proof {
                    lemma_double_colon(s@);
                }
                let n: usize = s.len();
                let left = slice_subrange(s, 0, i);
                let right = slice_subrange(s, i + 2, n);
                assert(left@ =~= s@.take(i as int));
                assert(right@ =~= s@.skip(i + 2));
                match (read_side(left, false), read_side(right, true)) {
                    (Some(h), Some(t)) => {
                        if h.len() > 7 || t.len() > 7 || h.len() + t.len() > 7 {
                            return None;
                        }
                        let mut g = h;
                        let n: usize = g.len();
                        assert(as_ints(g@) =~= as_ints(h@) + Seq::new(0, |j: int| 0int));
                        while g.len() < 8 - t.len()
                            invariant
                                n + t@.len() <= 7,
                                n <= g@.len() <= 8 - t@.len(),
                                as_ints(g@) == as_ints(h@) + Seq::new(
                                    (g@.len() - n) as nat,
                                    |j: int| 0int,
                                ),
                                n == h@.len(),
                            decreases 8 - g@.len(),
                        {
                            let ghost before = g@;
                            g.push(0);
                            assert(as_ints(g@) =~= as_ints(before).push(0));
                            assert(as_ints(g@) =~= as_ints(h@) + Seq::new(
                                (g@.len() - n) as nat,
                                |j: int| 0int,
                            ));
                        }
                        let ghost zeros = g@;
                        let mut j: usize = 0;
                        while j < t.len()
                            invariant
                                j <= t@.len() <= 7,
                                g@ =~= zeros + t@.take(j as int),
                                zeros.len() + t@.len() == 8,
                            decreases t@.len() - j,
                        {
                            g.push(t[j]);
                            j += 1;
                        }
                        proof {
                            assert(t@.take(j as int) =~= t@);
                            assert(as_ints(g@) =~= as_ints(zeros) + as_ints(t@));
                        }
                        g
                    },
                    _ => {
                        return None;
                    },
                }
            },
        };
        assert(want == Some(as_ints(g@)));
        let bits: u128 = g[0] as u128 * 0x1_0000_0000_0000_0000_0000_0000_0000 + g[1] as u128 * 0x1_0000_0000_0000_0000_0000_0000 + g[2] as u128 * 0x1_0000_0000_0000_0000_0000 + g[3] as u128 * 0x1_0000_0000_0000_0000 + g[4] as u128 * 0x1_0000_0000_0000 + g[5] as u128 * 0x1_0000_0000 + g[6] as u128 * 0x1_0000 + g[7] as u128;
        assert(bits == from_groups(as_ints(g@)));
        Some(Ipv6Addr { bits })
    }
}

/// The number of zeros in `g` from position `i` on, without a gap.
pub open spec fn zero_run(g: Seq<int>, i: int) -> int
    decreases g.len() - i,
{
    if 0 <= i < g.len() && g[i] == 0 {
        1 + zero_run(g, i + 1)
    } else {
        0
    }
}

/// The start and the length of the longest run of zeros in `g` from position `i`
/// on; of several, the first.
pub open spec fn longest_run(g: Seq<int>, i: int) -> (int, int)
    decreases g.len() - i,
{
    if i >= g.len() {
        (i, 0)
    } else {
        let later = longest_run(g, i + 1);
        if zero_run(g, i) >= later.1 {
            (i, zero_run(g, i))
        } else {
            later
        }
    }
}

/// Groups in hexadecimal between colons.
pub open spec fn joined(g: Seq<int>) -> Seq<char>
    decreases g.len(),
{
    if g.len() == 0 {
        seq![]
    } else if g.len() == 1 {
        number::written(g[0], 16)
    } else {
        joined(g.drop_last()) + seq![':'] + number::written(g.last(), 16)
    }
}

proof fn lemma_zero_run(g: Seq<int>, i: int)
    requires
        0 <= i <= g.len(),
    ensures
        0 <= zero_run(g, i) <= g.len() - i,
    decreases g.len() - i,
{
    if i < g.len() && g[i] == 0 {
        lemma_zero_run(g, i + 1);
    }
}

proof fn lemma_longest_run(g: Seq<int>, i: int)
    requires
        0 <= i <= g.len(),
    ensures
        i <= longest_run(g, i).0,
        0 <= longest_run(g, i).1,
        longest_run(g, i).0 + longest_run(g, i).1 <= g.len(),
    decreases g.len() - i,
{
    if i < g.len() {
        lemma_longest_run(g, i + 1);
        lemma_zero_run(g, i);
    }
}

fn push_joined(out: &mut String, g: &[u16; 8], from: usize, to: usize)
    requires
        from <= to <= 8,
    ensures
        final(out)@ == old(out)@ + joined(as_ints(g@).subrange(from as int, to as int)),
{
    let mut i: usize = from;
    let ghost a = as_ints(g@);
    assert(a.subrange(from as int, from as int) =~= seq![]);
    assert(out@ =~= old(out)@ + joined(a.subrange(from as int, i as int)));
    while i < to
        invariant
            from <= i <= to <= 8,
            a == as_ints(g@),
            out@ == old(out)@ + joined(a.subrange(from as int, i as int)),
        decreases to - i,
    {
        let ghost before = out@;
        if i > from {
            out.push(':');
        }
        number::push_number(out, g[i] as u64, 16);
        i += 1;
        proof {
            let d = a.subrange(from as int, i as int);
            assert(d.drop_last() =~= a.subrange(from as int, i - 1));
            assert(d.last() == g@[i - 1]);
            assert(out@ =~= old(out)@ + joined(d));
        }
    }
}

impl Ipv6Addr {
    /// The address in the recommended notation: hexadecimal groups without leading
    /// zeros, the longest run of two or more zero groups as a double colon, and an
    /// address that stands for an IPv4 address with that one in dotted decimal.
    pub open spec fn text(self) -> Seq<char> {
        let g = self.groups();
        let run = longest_run(g, 0);
        match self.mapped_v4() {
            Some(v4) => seq![':', ':', 'f', 'f', 'f', 'f', ':'] + v4.text(),
            None => if run.1 > 1 {
                joined(g.take(run.0)) + seq![':', ':'] + joined(g.skip(run.0 + run.1))
            } else {
                joined(g)
            },
        }
    }

    /// Appends the address to a text.
    pub fn push_text(&self, out: &mut String)
        ensures
            final(out)@ == old(out)@ + self.text(),
    {
        if let Some(v4) = self.to_ipv4_mapped() {
            out.push(':');
            out.push(':');
            out.push('f');
            out.push('f');
            out.push('f');
            out.push('f');
            out.push(':');
            v4.push_text(out);
            assert(out@ =~= old(out)@ + self.text());
            return;
        }
        let g = self.segments();
        let ghost a = self.groups();
        assert(as_ints(g@) =~= a);
        let mut start: usize = 8;
        let mut len: usize = 0;
        let mut run: usize = 0;
        let mut i: usize = 8;
        while i > 0
            invariant
                i <= 8,
                a.len() == 8,
                as_ints(g@) == a,
                run == zero_run(a, i as int),
                run <= 8 - i,
                (start as int, len as int) == longest_run(a, i as int),
            decreases i,
        {
            i -= 1;
            assert(a[i as int] == g@[i as int]);
            run = if g[i] == 0 {
                run + 1
            } else {
                0
            };
            if run >= len {
                start = i;
                len = run;
            }
        }
        proof {
            lemma_longest_run(a, 0);
        }
        if len > 1 {
            push_joined(out, &g, 0, start);
            out.push(':');
            out.push(':');
            push_joined(out, &g, start + len, 8);
            proof {
                assert(a.subrange(0, start as int) =~= a.take(start as int));
                assert(a.subrange(start + len, 8) =~= a.skip(start + len));
                assert(out@ =~= old(out)@ + self.text());
            }
        } else {
            push_joined(out, &g, 0, 8);
            assert(a.subrange(0, 8) =~= a);
        }
    }
}

impl IpAddr {
    /// The address in the notation of its family.
    pub open spec fn text(self) -> Seq<char> {
        match self {
            IpAddr::V4(a) => a.text(),
            IpAddr::V6(a) => a.text(),
        }
    }

    /// Appends the address to a text.
    pub fn push_text(&self, out: &mut String)
        ensures
            final(out)@ == old(out)@ + self.text(),
    {
        match self {
            IpAddr::V4(a) => a.push_text(out),
            IpAddr::V6(a) => a.push_text(out),
        }
    }

    /// The address in the notation of its family.
    pub fn to_text(&self) -> (r: String)
        ensures
            r@ == self.text(),
    {
        let mut out = String::new();
        self.push_text(&mut out);
        assert(out@ =~= self.text());
        out
    }

    /// The address that `s` writes, in either notation.
    pub open spec fn written_by(s: Seq<char>) -> Option<IpAddr> {
        match ipv4(s) {
            Some(bits) => Some(IpAddr::V4(Ipv4Addr { bits: bits as u32 })),
            None => match ipv6(s) {
                Some(bits) => Some(IpAddr::V6(Ipv6Addr { bits: bits as u128 })),
                None => None,
            },
        }
    }

    /// Reads an address in either notation.
    pub fn parse(s: &[char]) -> (r: Option<IpAddr>)
        ensures
            r == IpAddr::written_by(s@),
    {
        match Ipv4Addr::parse(s) {
            Some(a) => Some(IpAddr::V4(a)),
            None => match Ipv6Addr::parse(s) {
                Some(a) => Some(IpAddr::V6(a)),
                None => None,
            },
        }
    }

    /// Reads an address in either notation.
    pub fn from_text(s: &str) -> (r: Option<IpAddr>)
        ensures
            r == IpAddr::written_by(s@),
    {
        IpAddr::parse(text::chars_of(s).as_slice())
    }

    /// Whether the address names the machine itself.
    pub open spec fn loopback(self) -> bool {
        match self {
            IpAddr::V4(a) => a.loopback(),
            IpAddr::V6(a) => a.loopback(),
        }
    }

    /// Tells whether the address names the machine itself.
    pub fn is_loopback(&self) -> (r: bool)
        ensures
            r == self.loopback(),
    {
        match self {
            IpAddr::V4(a) => a.is_loopback(),
            IpAddr::V6(a) => a.is_loopback(),
        }
    }
}

impl SocketAddr {
    /// The address, in brackets if it is of IPv6, a colon and the port.
    pub open spec fn text(self) -> Seq<char> {
        match self.ip {
            IpAddr::V4(a) => a.text() + seq![':'] + number::decimal(self.port as int),
            IpAddr::V6(a) => seq!['['] + a.text() + seq![']', ':'] + number::decimal(
                self.port as int,
            ),
        }
    }

    /// Appends the address and the port to a text.
    pub fn push_text(&self, out: &mut String)
        ensures
            final(out)@ == old(out)@ + self.text(),
    {
        match self.ip {
            IpAddr::V4(a) => {
                a.push_text(out);
                out.push(':');
            },
            IpAddr::V6(a) => {
                out.push('[');
                a.push_text(out);
                out.push(']');
                out.push(':');
            },
        }
        number::push_number(out, self.port as u64, 10);
        assert(out@ =~= old(out)@ + self.text());
    }

    /// The address and the port.
    pub fn to_text(&self) -> (r: String)
        ensures
            r@ == self.text(),
    {
        let mut out = String::new();
        self.push_text(&mut out);
        assert(out@ =~= self.text());
        out
    }
}

proof fn lemma_octet_text(o: int)
    requires
        0 <= o <= 255,
    ensures
        octet_value(number::decimal(o)) == Some(o),
        forall|i: int|
            0 <= i < number::decimal(o).len() ==> '0' <= #[trigger] number::decimal(o)[i] <= '9',
{
    let t = number::decimal(o);
    number::a_written_number_reads_back(o, 255);
    assert forall|i: int| 0 <= i < t.len() implies '0' <= #[trigger] t[i] <= '9' by {
        assert(number::digit(t[i], 10) >= 0);
    }
    if o >= 10 {
        let h = number::written(o / 10, 10);
        assert(t == h.push(number::digit_char(o % 10)));
        if o >= 100 {
            assert(h == number::written(o / 100, 10).push(number::digit_char(o / 10 % 10)));
            assert(number::written(o / 100, 10) == seq![number::digit_char(o / 100)]);
        } else {
            assert(h == seq![number::digit_char(o / 10)]);
        }
    }
}

/// An IPv4 address that was written is read back.
pub proof fn an_ipv4_address_reads_back(ip: Ipv4Addr)
    ensures
        ipv4(ip.text()) == Some(ip.bits as int),
{
    let a = number::decimal(ip.octet(0));
    let b = number::decimal(ip.octet(1));
    let c = number::decimal(ip.octet(2));
    let d = number::decimal(ip.octet(3));
    lemma_octet_text(ip.octet(0));
    lemma_octet_text(ip.octet(1));
    lemma_octet_text(ip.octet(2));
    lemma_octet_text(ip.octet(3));
    let r1 = d;
    let r2 = c.push('.') + r1;
    let r3 = b.push('.') + r2;
    assert(ip.text() =~= a.push('.') + r3);
    text::lemma_split_at(a, '.', r3);
    text::lemma_split_at(b, '.', r2);
    text::lemma_split_at(c, '.', r1);
    text::lemma_split_none(d, '.');
    assert(seq![a] + (seq![b] + (seq![c] + seq![d])) =~= seq![a, b, c, d]);
    let bits = ip.bits;
    assert(bits / 0x100_0000 * 0x100_0000 + bits / 0x1_0000 % 256 * 0x1_0000 + bits / 256 % 256
        * 256 + bits % 256 == bits) by (bit_vector);
}

/// The text of an IPv4 address is made of digits and dots, and starts and ends with
/// a digit.
pub proof fn lemma_ipv4_text(ip: Ipv4Addr)
    ensures
        ip.text().len() > 0,
        forall|i: int|
            0 <= i < ip.text().len() ==> '0' <= #[trigger] ip.text()[i] <= '9' || ip.text()[i]
                == '.',
        '0' <= ip.text()[0] <= '9',
        '0' <= ip.text().last() <= '9',
{
    let a = number::decimal(ip.octet(0));
    let b = number::decimal(ip.octet(1));
    let c = number::decimal(ip.octet(2));
    let d = number::decimal(ip.octet(3));
    lemma_octet_text(ip.octet(0));
    lemma_octet_text(ip.octet(1));
    lemma_octet_text(ip.octet(2));
    lemma_octet_text(ip.octet(3));
    number::a_written_number_reads_back(ip.octet(0), 255);
    number::a_written_number_reads_back(ip.octet(3), 255);
    let t = ip.text();
    assert(t[0] == a[0]);
    assert(t.last() == d[d.len() - 1]);
    assert forall|i: int| 0 <= i < t.len() implies '0' <= #[trigger] t[i] <= '9' || t[i] == '.' by {
        let p = a + seq!['.'];
        let q = p + b;
        let r = q + seq!['.'];
        let s = r + c;
        let u = s + seq!['.'];
        assert(t == u + d);
        if i < a.len() {
            assert(t[i] == a[i]);
        } else if i < p.len() {
        } else if i < q.len() {
            assert(t[i] == b[i - p.len()]);
        } else if i < r.len() {
        } else if i < s.len() {
            assert(t[i] == c[i - r.len()]);
        } else if i < u.len() {
        } else {
            assert(t[i] == d[i - u.len()]);
        }
    }
}

} // verus!
