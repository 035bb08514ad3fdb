//! What the kernel tells about the network, read from its text files.

use crate::addr;
use crate::addr::Ipv4Addr;
use crate::number;
use crate::oui;
use crate::text;
use crate::text::Class;
use vstd::prelude::*;
use vstd::slice::{slice_subrange, slice_to_vec};

verus! {

/// The default route: which interface leaves the house, and by which gateway.
#[derive(Debug)]
pub struct DefaultRoute {
    pub iface: String,
    pub gateway: Ipv4Addr,
}

/// A network that is reached directly on an interface.
#[derive(Clone, Copy, Debug, PartialEq, Eq, Structural)]
pub struct Subnet {
    pub network: Ipv4Addr,
    pub prefix_len: u8,
}

/// Why a text does not write a network.
#[derive(Debug)]
pub enum SubnetError {
    /// There is no slash in the text.
    NoPrefix { given: String },
    /// What precedes the slash is not an address.
    BadAddress { given: String },
    /// What follows the slash is not a number below 256.
    BadPrefix { given: String },
    /// The prefix is longer than the address.
    PrefixTooLong { prefix: u8 },
}

/// The model of a reason why a text does not write a network.
pub enum SubnetErrorView {
    NoPrefix(Seq<char>),
    BadAddress(Seq<char>),
    BadPrefix(Seq<char>),
    PrefixTooLong(u8),
}

impl View for SubnetError {
    type V = SubnetErrorView;

    open spec fn view(&self) -> SubnetErrorView {
        match self {
            SubnetError::NoPrefix { given } => SubnetErrorView::NoPrefix(given@),
            SubnetError::BadAddress { given } => SubnetErrorView::BadAddress(given@),
            SubnetError::BadPrefix { given } => SubnetErrorView::BadPrefix(given@),
            SubnetError::PrefixTooLong { prefix } => SubnetErrorView::PrefixTooLong(*prefix),
        }
    }
}

/// How a reason is worded.
pub open spec fn subnet_error_text(e: SubnetErrorView) -> Seq<char> {
    match e {
        SubnetErrorView::NoPrefix(s) => text::quoted(s)
            + " is not CIDR notation, expected e.g. 192.168.1.0/24"@,
        SubnetErrorView::BadAddress(s) => "bad address "@ + text::quoted(s),
        SubnetErrorView::BadPrefix(s) => "bad prefix "@ + text::quoted(s),
        SubnetErrorView::PrefixTooLong(p) => "prefix /"@ + number::decimal(p as int)
            + " out of range"@,
    }
}

impl SubnetError {
    /// The reason in words.
    pub fn message(&self) -> (r: String)
        ensures
            r@ == subnet_error_text(self@),
    {
        match self {
            SubnetError::NoPrefix { given } => {
                let mut out = text::quote(given.as_str());
                out.append(" is not CIDR notation, expected e.g. 192.168.1.0/24");
                out
            },
            SubnetError::BadAddress { given } => {
                let mut out = "bad address ".to_string();
                out.append(text::quote(given.as_str()).as_str());
                out
            },
            SubnetError::BadPrefix { given } => {
                let mut out = "bad prefix ".to_string();
                out.append(text::quote(given.as_str()).as_str());
                out
            },
            SubnetError::PrefixTooLong { prefix } => {
                let mut out = "prefix /".to_string();
                number::push_decimal(&mut out, *prefix as i64);
                out.append(" out of range");
                out
            },
        }
    }
}

/// Two to the power of `n`.
pub open spec fn pow2(n: int) -> int {
    vstd::arithmetic::power2::pow2(n as nat) as int
}

/// The network that a text writes: an address, a slash and the length of the
/// prefix, with white space around either.
pub open spec fn subnet_of(s: Seq<char>) -> Result<Subnet, SubnetErrorView> {
    let i = text::find(s, Class::Is('/'));
    let before = s.take(i);
    let after = s.skip(i + 1);
    if i >= s.len() {
        Err(SubnetErrorView::NoPrefix(s))
    } else {
        match addr::ipv4(text::trim(before, Class::White)) {
            None => Err(SubnetErrorView::BadAddress(before)),
            Some(bits) => match number::unsigned(text::trim(after, Class::White), 10, 255) {
                None => Err(SubnetErrorView::BadPrefix(after)),
                Some(p) => if p > 32 {
                    Err(SubnetErrorView::PrefixTooLong(p as u8))
                } else {
                    Ok(Subnet { network: Ipv4Addr { bits: bits as u32 }, prefix_len: p as u8 })
                },
            },
        }
    }
}

impl Subnet {
    /// The prefix is no longer than the address.
    pub open spec fn wf(self) -> bool {
        self.prefix_len <= 32
    }

    /// How many addresses the network has.
    pub open spec fn size(self) -> int {
        pow2(32 - self.prefix_len)
    }

    /// The first address of the network.
    pub open spec fn base(self) -> int {
        self.network.bits as int / self.size() * self.size()
    }

    /// The mask that keeps the prefix of an address.
    pub fn netmask(&self) -> (r: u32)
        requires
            self.wf(),
        ensures
            r == 0x1_0000_0000 - self.size(),
    {
        if self.prefix_len == 0 {
            proof {
                vstd::arithmetic::power2::lemma2_to64();
            }
            0
        } else {
            let s: u32 = 32 - self.prefix_len as u32;
            proof {
                lemma_small_pow2(s as nat);
                vstd::bits::lemma_u32_shl_is_mul(1, s);
                assert((0xffff_ffffu32 << s) + (1u32 << s) == 0x1_0000_0000) by (bit_vector)
                    requires
                        s < 32,
                ;
            }
            0xffff_ffffu32 << s
        }
    }

    /// Tells whether an address lies in the network.
    pub fn contains(&self, ip: Ipv4Addr) -> (r: bool)
        requires
            self.wf(),
        ensures
            r == ip.lies_in(self.network, self.prefix_len),
    {
        ip.is_in(self.network, self.prefix_len)
    }

    /// Every address that a host can have, which is neither the first nor the last
    /// of the network. There are none for a network that is wider than /16, since
    /// going through it is not a sensible thing to do.
    pub fn hosts(&self) -> (r: Vec<Ipv4Addr>)
        ensures
            r@ == hosts_of(*self),
    {
        let mut out: Vec<Ipv4Addr> = Vec::new();
        if self.prefix_len < 16 || self.prefix_len > 30 {
            assert(out@ =~= hosts_of(*self));
            return out;
        }
        let s: u32 = 32 - self.prefix_len as u32;
        proof {
            lemma_small_pow2(s as nat);
            vstd::bits::lemma_u32_shl_is_mul(1, s);
        }
        let count: u32 = 1u32 << s;
        proof {
            lemma_base_fits(self.network.bits as int, count as int, s as nat);
        }
        let base: u32 = self.network.bits / count * count;
        let mut i: u32 = 1;
        while i < count - 1
            invariant
                1 <= i <= count - 1,
                count == self.size(),
                base == self.base(),
                base + count <= 0x1_0000_0000,
                16 <= self.prefix_len <= 30,
                4 <= count,
                out@.len() == i - 1,
                forall|j: int| 0 <= j < i - 1 ==> (#[trigger] out@[j]).bits == base + 1 + j,
            decreases count - i,
        {
            out.push(Ipv4Addr { bits: base + i });
            i += 1;
        }
        assert(out@ =~= hosts_of(*self));
        out
    }

    /// Reads a network.
    pub fn parse_cidr(s: &str) -> (r: Result<Subnet, SubnetError>)
        ensures
            match r {
                Ok(n) => subnet_of(s@) == Ok::<Subnet, SubnetErrorView>(n) && n.wf(),
                Err(e) => subnet_of(s@) == Err::<Subnet, SubnetErrorView>(e@),
            },
    {
        let chars = text::chars_of(s);
        let c = chars.as_slice();
        assert(c@.skip(0) =~= c@);
        let i: usize = text::scan(c, Class::Is('/'), 0);
        if i >= c.len() {
            return Err(SubnetError::NoPrefix { given: s.to_string() });
        }
        let before = slice_subrange(c, 0, i);
        let after = slice_subrange(c, i + 1, c.len());
        assert(before@ =~= s@.take(i as int));
        assert(after@ =~= s@.skip(i + 1));
        let network = match Ipv4Addr::parse(text::strip(before, Class::White)) {
            Some(a) => a,
            None => {
                return Err(SubnetError::BadAddress { given: text::string_of(before) });
            },
        };
        let prefix: u8 = match number::read_unsigned(text::strip(after, Class::White), 10, 255) {
            Some(p) => p as u8,
            None => {
                return Err(SubnetError::BadPrefix { given: text::string_of(after) });
            },
        };
        if prefix > 32 {
            return Err(SubnetError::PrefixTooLong { prefix });
        }
        Ok(Subnet { network, prefix_len: prefix })
    }

    /// How the network is written.
    pub open spec fn text(self) -> Seq<char> {
        self.network.text() + seq!['/'] + number::decimal(self.prefix_len as int)
    }

    /// Writes the network.
    pub fn to_text(&self) -> (r: String)
        ensures
            r@ == self.text(),
    {
        let mut out = self.network.to_text();
        out.push('/');
        number::push_decimal(&mut out, self.prefix_len as i64);
        assert(out@ =~= self.text());
        out
    }
}

/// The addresses that hosts of a network can have.
pub open spec fn hosts_of(s: Subnet) -> Seq<Ipv4Addr> {
    if s.prefix_len < 16 || s.prefix_len > 30 {
        seq![]
    } else {
        Seq::new(
            (s.size() - 2) as nat,
            |i: int| Ipv4Addr { bits: (s.base() + 1 + i) as u32 },
        )
    }
}

proof fn lemma_small_pow2(n: nat)
    requires
        n < 32,
    ensures
        1 <= vstd::arithmetic::power2::pow2(n) <= 0x8000_0000,
        2 <= n <= 16 ==> 4 <= vstd::arithmetic::power2::pow2(n) <= 0x1_0000,
{
    vstd::arithmetic::power2::lemma2_to64();
    vstd::arithmetic::power2::lemma_pow2_pos(n);
    if n < 31 {
        vstd::arithmetic::power2::lemma_pow2_strictly_increases(n, 31);
    }
    if 2 < n {
        vstd::arithmetic::power2::lemma_pow2_strictly_increases(2, n);
    }
    if n < 16 {
        vstd::arithmetic::power2::lemma_pow2_strictly_increases(n, 16);
    }
}

pub proof fn lemma_base_fits(bits: int, size: int, s: nat)
    requires
        0 <= bits < 0x1_0000_0000,
        2 <= s <= 16,
        size == vstd::arithmetic::power2::pow2(s),
    ensures
        0 <= bits / size * size <= bits,
        bits / size * size + size <= 0x1_0000_0000,
{
    vstd::arithmetic::power2::lemma2_to64();
    lemma_small_pow2(s);
    vstd::arithmetic::power2::lemma_pow2_adds(s, (32 - s) as nat);
    let k = vstd::arithmetic::power2::pow2((32 - s) as nat) as int;
    assert(size * k == 0x1_0000_0000);
    let q = bits / size;
    assert(0 <= q * size <= bits && q * size + size <= size * k) by (nonlinear_arith)
        requires
            q == bits / size,
            size > 0,
            0 <= bits < size * k,
    ;
}

/// Every host address of a network lies in it, and is neither its first address nor
/// its last.
pub proof fn hosts_lie_in_their_network(s: Subnet, i: int)
    requires
        s.wf(),
        0 <= i < hosts_of(s).len(),
    ensures
        hosts_of(s)[i].lies_in(s.network, s.prefix_len),
        s.base() < hosts_of(s)[i].bits < s.base() + s.size() - 1,
{
    let n = (32 - s.prefix_len) as nat;
    lemma_base_fits(s.network.bits as int, s.size(), n);
    lemma_small_pow2(n);
    let size = s.size();
    let q = s.network.bits as int / size;
    let k = 1 + i;
    assert((q * size + k) / size == q) by (nonlinear_arith)
        requires
            0 <= k < size,
    ;
}

/// Every address of a network that can be gone through is among its hosts, but for the
/// first and the last.
pub proof fn every_inner_address_is_a_host(s: Subnet, ip: Ipv4Addr)
    requires
        16 <= s.prefix_len <= 30,
        ip.lies_in(s.network, s.prefix_len),
        ip.bits != s.base(),
        ip.bits != s.base() + s.size() - 1,
    ensures
        hosts_of(s).contains(ip),
{
    let n = (32 - s.prefix_len) as nat;
    lemma_base_fits(s.network.bits as int, s.size(), n);
    lemma_small_pow2(n);
    let size = s.size();
    let bits = ip.bits as int;
    let q = s.network.bits as int / size;
    assert(q * size <= bits < q * size + size) by (nonlinear_arith)
        requires
            size > 0,
            0 <= bits,
            bits / size == q,
    ;
    let i = bits - s.base() - 1;
    assert(hosts_of(s)[i] == ip);
}

/// A network that was written is read back.
pub proof fn a_network_reads_back(s: Subnet)
    requires
        s.wf(),
    ensures
        subnet_of(s.text()) == Ok::<Subnet, SubnetErrorView>(s),
{
    let before = s.network.text();
    let after = number::decimal(s.prefix_len as int);
    let t = s.text();
    addr::an_ipv4_address_reads_back(s.network);
    addr::lemma_ipv4_text(s.network);
    number::a_written_number_reads_back(s.prefix_len as int, 255);
    assert(t =~= before.push('/') + after);
    assert forall|j: int| 0 <= j < before.len() implies !text::member(
        Class::Is('/'),
        #[trigger] t[j],
    ) by {
        assert(t[j] == before[j]);
    }
    assert(t[before.len() as int] == '/');
    text::lemma_find_unique(t, Class::Is('/'), before.len() as int);
    assert(t.take(before.len() as int) =~= before);
    assert(t.skip(before.len() as int + 1) =~= after);
    text::lemma_trim_none(before, Class::White);
    assert(number::digit(after[0], 10) >= 0);
    assert(number::digit(after[after.len() - 1], 10) >= 0);
    text::lemma_trim_none(after, Class::White);
}

/// An address that the kernel writes in hexadecimal, with its octets in reverse.
pub open spec fn reversed_hex(s: Seq<char>) -> Option<Ipv4Addr> {
    match number::unsigned(s, 16, 0xffff_ffff) {
        Some(n) => Some(
            Ipv4Addr {
                bits: (n % 256 * 0x100_0000 + n / 256 % 256 * 0x1_0000 + n / 0x1_0000 % 256 * 256
                    + n / 0x100_0000) as u32,
            },
        ),
        None => None,
    }
}

/// Reads an address that the kernel writes in hexadecimal, with its octets in
/// reverse.
pub fn hex_le_to_ipv4(s: &[char]) -> (r: Option<Ipv4Addr>)
    ensures
        r == reversed_hex(s@),
{
    match number::read_unsigned(s, 16, 0xffff_ffff) {
        Some(n) => {
            assert(n / 0x100_0000 < 256);
            Some(
                Ipv4Addr::new(
                    (n % 256) as u8,
                    (n / 256 % 256) as u8,
                    (n / 0x1_0000 % 256) as u8,
                    (n / 0x100_0000) as u8,
                ),
            )
        },
        None => None,
    }
}

/// The lines of a table, without the first `n`.
pub open spec fn rows(s: Seq<char>, n: int) -> Seq<Seq<char>> {
    let l = text::lines(s);
    if l.len() < n {
        seq![]
    } else {
        l.skip(n)
    }
}

fn rows_of(s: &str, n: usize) -> (r: Vec<Vec<char>>)
    ensures
        text::texts(r@) == rows(s@, n as int),
{
    let chars = text::chars_of(s);
    let lines = text::lines_of(chars.as_slice());
    let mut out: Vec<Vec<char>> = Vec::new();
    let mut i: usize = n;
    assert(text::texts(lines@).len() == lines@.len());
    if lines.len() < n {
        assert(text::texts(out@) =~= seq![]);
        return out;
    }
    while i < lines.len()
        invariant
            n <= i <= lines@.len(),
            out@.len() == i - n,
            forall|j: int| 0 <= j < i - n ==> (#[trigger] out@[j])@ == lines@[n + j]@,
        decreases lines@.len() - i,
    {
        out.push(slice_to_vec(lines[i].as_slice()));
        i += 1;
    }
    assert(text::texts(out@) =~= text::texts(lines@).skip(n as int));
    out
}

/// The default route that a row of the routing table tells: one to everywhere, by a
/// gateway.
pub open spec fn default_route_in(row: Seq<char>) -> Option<(Seq<char>, Ipv4Addr)> {
    let f = text::fields(row);
    if f.len() < 8 || f[1] != "00000000"@ {
        None
    } else {
        match reversed_hex(f[2]) {
            Some(gw) => if gw.bits != 0 {
                Some((f[0], gw))
            } else {
                None
            },
            None => None,
        }
    }
}

/// The first default route of the routing table.
pub open spec fn default_route_of(rows: Seq<Seq<char>>) -> Option<(Seq<char>, Ipv4Addr)>
    decreases rows.len(),
{
    if rows.len() == 0 {
        None
    } else {
        match default_route_in(rows[0]) {
            Some(r) => Some(r),
            None => default_route_of(rows.drop_first()),
        }
    }
}

/// Reads the default route from the routing table.
pub fn parse_default_route(table: &str) -> (r: Option<DefaultRoute>)
    ensures
        match r {
            Some(d) => default_route_of(rows(table@, 1)) == Some((d.iface@, d.gateway)),
            None => default_route_of(rows(table@, 1)) is None,
        },
{
    let lines = rows_of(table, 1);
    let ghost all = text::texts(lines@);
    let mut i: usize = 0;
    assert(all.skip(0) =~= all);
    while i < lines.len()
        invariant
            i <= lines@.len(),
            all == text::texts(lines@),
            all == rows(table@, 1),
            default_route_of(all) == default_route_of(all.skip(i as int)),
        decreases lines@.len() - i,
    {
        assert(all.skip(i as int)[0] == lines@[i as int]@);
        assert(all.skip(i as int).drop_first() =~= all.skip(i + 1));
        let f = text::fields_of(lines[i].as_slice());
        let ghost fs = text::fields(lines@[i as int]@);
        assert(fs.len() == f@.len());
        assert(forall|j: int| 0 <= j < f@.len() ==> (#[trigger] f@[j])@ == fs[j]);
        i += 1;
        if f.len() >= 8 && text::is_text(f[1].as_slice(), "00000000") {
            if let Some(gw) = hex_le_to_ipv4(f[2].as_slice()) {
                if !gw.is_unspecified() {
                    return Some(
                        DefaultRoute { iface: text::string_of(f[0].as_slice()), gateway: gw },
                    );
                }
            }
        }
    }
    None
}

/// How many bits of a number are set.
pub open spec fn ones(n: int) -> int
    decreases n,
{
    if n <= 0 {
        0
    } else {
        n % 2 + ones(n / 2)
    }
}

fn count_ones(n: u32) -> (r: u8)
    ensures
        r == ones(n as int),
        r <= 32,
{
    let mut left: u32 = n;
    let mut r: u8 = 0;
    let mut i: u8 = 0;
    assert(n as int / 1 == n);
    proof {
        vstd::arithmetic::power2::lemma2_to64();
    }
    while left > 0
        invariant
            r <= i <= 32,
            r + ones(left as int) == ones(n as int),
            left == n as int / pow2(i as int),
        decreases left,
    {
        proof {
            if i >= 32 {
                vstd::arithmetic::power2::lemma2_to64();
                assert(n as int / 0x1_0000_0000 == 0);
            }
            lemma_halved(n as int, i as nat);
        }
        r = r + (left % 2) as u8;
        left = left / 2;
        i += 1;
    }
    r
}

proof fn lemma_halved(n: int, i: nat)
    requires
        0 <= n,
    ensures
        n / pow2(i as int) / 2 == n / pow2(i as int + 1),
{
    vstd::arithmetic::power2::lemma_pow2_pos(i);
    vstd::arithmetic::power2::lemma_pow2_unfold(i + 1);
    vstd::arithmetic::div_mod::lemma_div_denominator(n, pow2(i as int), 2);
    assert(pow2(i as int) * 2 == pow2(i as int + 1));
}

/// The network that a row of the routing table tells: one that is reached on the
/// interface without a gateway, and is not link-local nor multicast.
pub open spec fn on_link(row: Seq<char>, iface: Seq<char>) -> Option<Subnet> {
    let f = text::fields(row);
    if f.len() < 8 || f[0] != iface || f[2] != "00000000"@ || f[1] == "00000000"@ {
        None
    } else {
        match (reversed_hex(f[1]), reversed_hex(f[7])) {
            (Some(network), Some(mask)) => if network.link_local() || network.multicast() {
                None
            } else {
                Some(Subnet { network, prefix_len: ones(mask.bits as int) as u8 })
            },
            _ => None,
        }
    }
}

/// The most specific network of the routing table on an interface; the first one
/// where several are as specific.
pub open spec fn lan_of(rows: Seq<Seq<char>>, iface: Seq<char>) -> Option<Subnet>
    decreases rows.len(),
{
    if rows.len() == 0 {
        None
    } else {
        let best = lan_of(rows.drop_last(), iface);
        match (on_link(rows.last(), iface), best) {
            (Some(s), Some(b)) => if s.prefix_len > b.prefix_len {
                Some(s)
            } else {
                best
            },
            (Some(s), None) => Some(s),
            (None, _) => best,
        }
    }
}

fn on_link_row(row: &[char], iface: &str) -> (r: Option<Subnet>)
    ensures
        r == on_link(row@, iface@),
        r matches Some(s) ==> s.wf(),
{
    let f = text::fields_of(row);
    let ghost fs = text::fields(row@);
    assert(fs.len() == f@.len());
    assert(forall|j: int| 0 <= j < f@.len() ==> (#[trigger] f@[j])@ == fs[j]);
    if f.len() < 8 || !text::is_text(f[0].as_slice(), iface) || !text::is_text(
        f[2].as_slice(),
        "00000000",
    ) || text::is_text(f[1].as_slice(), "00000000") {
        return None;
    }
    match (hex_le_to_ipv4(f[1].as_slice()), hex_le_to_ipv4(f[7].as_slice())) {
        (Some(network), Some(mask)) => {
            if network.is_link_local() || network.is_multicast() {
                None
            } else {
                Some(Subnet { network, prefix_len: count_ones(mask.bits) })
            }
        },
        _ => None,
    }
}

/// Reads the network of an interface from the routing table: the one that we share
/// with every other device.
pub fn parse_lan_subnet(table: &str, iface: &str) -> (r: Option<Subnet>)
    ensures
        r == lan_of(rows(table@, 1), iface@),
        r matches Some(s) ==> s.wf(),
{
    let lines = rows_of(table, 1);
    let ghost all = text::texts(lines@);
    let mut best: Option<Subnet> = None;
    let mut i: usize = 0;
    assert(all.take(0) =~= seq![]);
    while i < lines.len()
        invariant
            i <= lines@.len(),
            all == text::texts(lines@),
            best == lan_of(all.take(i as int), iface@),
            best matches Some(s) ==> s.wf(),
        decreases lines@.len() - i,
    {
        assert(all.take(i + 1).drop_last() =~= all.take(i as int));
        assert(all.take(i + 1).last() == lines@[i as int]@);
        if let Some(s) = on_link_row(lines[i].as_slice(), iface) {
            let better = match best {
                Some(b) => s.prefix_len > b.prefix_len,
                None => true,
            };
            if better {
                best = Some(s);
            }
        }
        i += 1;
    }
    assert(all.take(i as int) =~= all);
    best
}

/// A row of the kernel's neighbour table.
#[derive(Debug)]
pub struct ArpEntry {
    pub ip: Ipv4Addr,
    pub mac: String,
    pub iface: String,
}

/// The model of a row of the neighbour table.
#[verifier::ext_equal]
pub struct ArpView {
    pub ip: Ipv4Addr,
    pub mac: Seq<char>,
    pub iface: Seq<char>,
}

impl View for ArpEntry {
    type V = ArpView;

    open spec fn view(&self) -> ArpView {
        ArpView { ip: self.ip, mac: self.mac@, iface: self.iface@ }
    }
}

/// The neighbour that a row tells, unless the entry is incomplete.
pub open spec fn neighbour(row: Seq<char>) -> Option<ArpView> {
    let f = text::fields(row);
    if f.len() < 6 || f[2] == "0x0"@ {
        None
    } else {
        match (addr::ipv4(f[0]), oui::canonical_mac(f[3])) {
            (Some(bits), Some(mac)) => Some(
                ArpView { ip: Ipv4Addr { bits: bits as u32 }, mac, iface: f[5] },
            ),
            _ => None,
        }
    }
}

/// The neighbours that rows tell.
pub open spec fn neighbours(rows: Seq<Seq<char>>) -> Seq<ArpView>
    decreases rows.len(),
{
    if rows.len() == 0 {
        seq![]
    } else {
        match neighbour(rows.last()) {
            Some(e) => neighbours(rows.drop_last()).push(e),
            None => neighbours(rows.drop_last()),
        }
    }
}

/// The models of neighbours.
pub open spec fn arp_views(v: Seq<ArpEntry>) -> Seq<ArpView> {
    v.map_values(|e: ArpEntry| e@)
}

fn neighbour_row(row: &[char]) -> (r: Option<ArpEntry>)
    ensures
        match r {
            Some(e) => neighbour(row@) == Some(e@),
            None => neighbour(row@) is None,
        },
{
    let f = text::fields_of(row);
    let ghost fs = text::fields(row@);
    assert(fs.len() == f@.len());
    assert(forall|j: int| 0 <= j < f@.len() ==> (#[trigger] f@[j])@ == fs[j]);
    if f.len() < 6 || text::is_text(f[2].as_slice(), "0x0") {
        return None;
    }
    match (
        Ipv4Addr::parse(f[0].as_slice()),
        oui::normalize(text::string_of(f[3].as_slice()).as_str()),
    ) {
        (Some(ip), Some(mac)) => Some(
            ArpEntry { ip, mac, iface: text::string_of(f[5].as_slice()) },
        ),
        _ => None,
    }
}

/// Reads the neighbour table.
pub fn parse_arp_table(table: &str) -> (r: Vec<ArpEntry>)
    ensures
        arp_views(r@) == neighbours(rows(table@, 1)),
{
    let lines = rows_of(table, 1);
    let ghost all = text::texts(lines@);
    let mut out: Vec<ArpEntry> = Vec::new();
    let mut i: usize = 0;
    assert(all.take(0) =~= seq![]);
    assert(arp_views(out@) =~= seq![]);
    while i < lines.len()
        invariant
            i <= lines@.len(),
            all == text::texts(lines@),
            arp_views(out@) == neighbours(all.take(i as int)),
        decreases lines@.len() - i,
    {
        let ghost before = arp_views(out@);
        assert(all.take(i + 1).drop_last() =~= all.take(i as int));
        assert(all.take(i + 1).last() == lines@[i as int]@);
        if let Some(e) = neighbour_row(lines[i].as_slice()) {
            out.push(e);
            assert(arp_views(out@) =~= before.push(e@));
        }
        i += 1;
    }
    assert(all.take(i as int) =~= all);
    out
}

/// Whether a neighbour is a device of our network: it is on the interface and in the
/// network, where these are known. A peer on a VPN or on a bridge is not.
pub open spec fn is_local(e: ArpView, iface: Option<Seq<char>>, subnet: Option<Subnet>) -> bool {
    &&& iface matches Some(i) ==> e.iface == i
    &&& subnet matches Some(s) ==> e.ip.lies_in(s.network, s.prefix_len)
}

impl ArpEntry {
    /// Tells whether the neighbour is a device of our network.
    pub fn is_local(&self, iface: Option<&str>, subnet: Option<Subnet>) -> (r: bool)
        requires
            subnet matches Some(s) ==> s.wf(),
        ensures
            r == is_local(
                self@,
                match iface {
                    Some(i) => Some(i@),
                    None => None,
                },
                subnet,
            ),
    {
        if let Some(want) = iface {
            if !text::is_text(text::chars_of(self.iface.as_str()).as_slice(), want) {
                return false;
            }
        }
        if let Some(s) = subnet {
            if !s.contains(self.ip) {
                return false;
            }
        }
        true
    }
}

/// What an interface has carried since it came up.
#[derive(Debug)]
pub struct IfaceCounters {
    pub iface: String,
    pub rx_bytes: u64,
    pub tx_bytes: u64,
    pub rx_packets: u64,
    pub tx_packets: u64,
    pub rx_errors: u64,
    pub tx_errors: u64,
    pub rx_dropped: u64,
    pub tx_dropped: u64,
}

/// The model of the counters of an interface.
#[verifier::ext_equal]
pub struct CountersView {
    pub iface: Seq<char>,
    pub rx_bytes: u64,
    pub tx_bytes: u64,
    pub rx_packets: u64,
    pub tx_packets: u64,
    pub rx_errors: u64,
    pub tx_errors: u64,
    pub rx_dropped: u64,
    pub tx_dropped: u64,
}

impl View for IfaceCounters {
    type V = CountersView;

    open spec fn view(&self) -> CountersView {
        CountersView {
            iface: self.iface@,
            rx_bytes: self.rx_bytes,
            tx_bytes: self.tx_bytes,
            rx_packets: self.rx_packets,
            tx_packets: self.tx_packets,
            rx_errors: self.rx_errors,
            tx_errors: self.tx_errors,
            rx_dropped: self.rx_dropped,
            tx_dropped: self.tx_dropped,
        }
    }
}

/// A counter: the number that a field writes, or 0 if it writes none.
pub open spec fn counter(s: Seq<char>) -> u64 {
    match number::unsigned(s, 10, u64::MAX as int) {
        Some(n) => n as u64,
        None => 0,
    }
}

fn read_counter(s: &[char]) -> (r: u64)
    ensures
        r == counter(s@),
{
    match number::read_unsigned(s, 10, u64::MAX) {
        Some(n) => n,
        None => 0,
    }
}

/// The counters that a row tells: of an interface other than the loopback, and at
/// least sixteen of them.
pub open spec fn counters_in(row: Seq<char>) -> Option<CountersView> {
    let i = text::find(row, Class::Is(':'));
    let iface = text::trim(row.take(i), Class::White);
    let f = text::fields(row.skip(i + 1));
    if i >= row.len() || iface == "lo"@ || f.len() < 16 {
        None
    } else {
        Some(
            CountersView {
                iface,
                rx_bytes: counter(f[0]),
                rx_packets: counter(f[1]),
                rx_errors: counter(f[2]),
                rx_dropped: counter(f[3]),
                tx_bytes: counter(f[8]),
                tx_packets: counter(f[9]),
                tx_errors: counter(f[10]),
                tx_dropped: counter(f[11]),
            },
        )
    }
}

/// The counters that rows tell.
pub open spec fn counters(rows: Seq<Seq<char>>) -> Seq<CountersView>
    decreases rows.len(),
{
    if rows.len() == 0 {
        seq![]
    } else {
        match counters_in(rows.last()) {
            Some(c) => counters(rows.drop_last()).push(c),
            None => counters(rows.drop_last()),
        }
    }
}

/// The models of counters.
pub open spec fn counter_views(v: Seq<IfaceCounters>) -> Seq<CountersView> {
    v.map_values(|c: IfaceCounters| c@)
}

fn counters_row(row: &[char]) -> (r: Option<IfaceCounters>)
    ensures
        match r {
            Some(c) => counters_in(row@) == Some(c@),
            None => counters_in(row@) is None,
        },
{
    assert(row@.skip(0) =~= row@);
    let i: usize = text::scan(row, Class::Is(':'), 0);
    if i >= row.len() {
        return None;
    }
    let before = slice_subrange(row, 0, i);
    let after = slice_subrange(row, i + 1, row.len());
    assert(before@ =~= row@.take(i as int));
    assert(after@ =~= row@.skip(i + 1));
    let iface = text::strip(before, Class::White);
    if text::is_text(iface, "lo") {
        return None;
    }
    let f = text::fields_of(after);
    let ghost fs = text::fields(after@);
    assert(fs.len() == f@.len());
    assert(forall|j: int| 0 <= j < f@.len() ==> (#[trigger] f@[j])@ == fs[j]);
    if f.len() < 16 {
        return None;
    }
    Some(
        IfaceCounters {
            iface: text::string_of(iface),
            rx_bytes: read_counter(f[0].as_slice()),
            rx_packets: read_counter(f[1].as_slice()),
            rx_errors: read_counter(f[2].as_slice()),
            rx_dropped: read_counter(f[3].as_slice()),
            tx_bytes: read_counter(f[8].as_slice()),
            tx_packets: read_counter(f[9].as_slice()),
            tx_errors: read_counter(f[10].as_slice()),
            tx_dropped: read_counter(f[11].as_slice()),
        },
    )
}

/// Reads the counters of the interfaces.
pub fn parse_iface_counters(table: &str) -> (r: Vec<IfaceCounters>)
    ensures
        counter_views(r@) == counters(rows(table@, 2)),
{
    let lines = rows_of(table, 2);
    let ghost all = text::texts(lines@);
    let mut out: Vec<IfaceCounters> = Vec::new();
    let mut i: usize = 0;
    assert(all.take(0) =~= seq![]);
    assert(counter_views(out@) =~= seq![]);
    while i < lines.len()
        invariant
            i <= lines@.len(),
            all == text::texts(lines@),
            counter_views(out@) == counters(all.take(i as int)),
        decreases lines@.len() - i,
    {
        let ghost before = counter_views(out@);
        assert(all.take(i + 1).drop_last() =~= all.take(i as int));
        assert(all.take(i + 1).last() == lines@[i as int]@);
        if let Some(c) = counters_row(lines[i].as_slice()) {
            out.push(c);
            assert(counter_views(out@) =~= before.push(c@));
        }
        i += 1;
    }
    assert(all.take(i as int) =~= all);
    out
}

/// The memory of the machine, in kilobytes.
#[derive(Clone, Copy, Debug, PartialEq, Eq, Structural)]
pub struct Memory {
    pub total_kb: u64,
    pub available_kb: u64,
}

/// The amount that a row of the memory table tells: its first number, or 0.
pub open spec fn amount(s: Seq<char>) -> u64 {
    let f = text::fields(s);
    if f.len() == 0 {
        0
    } else {
        counter(f[0])
    }
}

/// The memory after one more row.
pub open spec fn with_row(m: Memory, row: Seq<char>) -> Memory {
    let i = text::find(row, Class::Is(':'));
    let kb = amount(row.skip(i + 1));
    if i >= row.len() {
        m
    } else if row.take(i) == "MemTotal"@ {
        Memory { total_kb: kb, ..m }
    } else if row.take(i) == "MemAvailable"@ {
        Memory { available_kb: kb, ..m }
    } else {
        m
    }
}

/// The memory that rows tell; what they do not tell is 0.
pub open spec fn memory(rows: Seq<Seq<char>>) -> Memory
    decreases rows.len(),
{
    if rows.len() == 0 {
        Memory { total_kb: 0, available_kb: 0 }
    } else {
        with_row(memory(rows.drop_last()), rows.last())
    }
}

fn read_row(m: Memory, row: &[char]) -> (r: Memory)
    ensures
        r == with_row(m, row@),
{
    assert(row@.skip(0) =~= row@);
    let i: usize = text::scan(row, Class::Is(':'), 0);
    if i >= row.len() {
        return m;
    }
    let key = slice_subrange(row, 0, i);
    let value = slice_subrange(row, i + 1, row.len());
    assert(key@ =~= row@.take(i as int));
    assert(value@ =~= row@.skip(i + 1));
    let f = text::fields_of(value);
    let ghost fs = text::fields(value@);
    assert(fs.len() == f@.len());
    assert(forall|j: int| 0 <= j < f@.len() ==> (#[trigger] f@[j])@ == fs[j]);
    let kb: u64 = if f.len() == 0 {
        0
    } else {
        read_counter(f[0].as_slice())
    };
    if text::is_text(key, "MemTotal") {
        Memory { total_kb: kb, available_kb: m.available_kb }
    } else if text::is_text(key, "MemAvailable") {
        Memory { total_kb: m.total_kb, available_kb: kb }
    } else {
        m
    }
}

/// Reads the memory of the machine.
pub fn parse_meminfo(table: &str) -> (r: Memory)
    ensures
        r == memory(text::lines(table@)),
{
    let lines = rows_of(table, 0);
    let ghost all = text::texts(lines@);
    assert(text::lines(table@).skip(0) =~= text::lines(table@));
    let mut m = Memory { total_kb: 0, available_kb: 0 };
    let mut i: usize = 0;
    assert(all.take(0) =~= seq![]);
    while i < lines.len()
        invariant
            i <= lines@.len(),
            all == text::texts(lines@),
            m == memory(all.take(i as int)),
        decreases lines@.len() - i,
    {
        assert(all.take(i + 1).drop_last() =~= all.take(i as int));
        assert(all.take(i + 1).last() == lines@[i as int]@);
        m = read_row(m, lines[i].as_slice());
        i += 1;
    }
    assert(all.take(i as int) =~= all);
    m
}

} // verus!
