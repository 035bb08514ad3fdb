//! Which clients are allowed to ask us to resolve names.
//!
//! The server listens on every interface so that devices across the LAN can reach
//! it, and a resolver that answers anyone is an ingredient of amplification
//! attacks. So the default is loopback plus the private ranges, and anything else
//! has to be opted into.

use crate::addr::{IpAddr, Ipv4Addr, Ipv6Addr};
use crate::number;
use crate::text;
use crate::text::Class;
use vstd::prelude::*;
use vstd::slice::slice_subrange;

verus! {

/// One rule about who is served.
#[allow(inconsistent_fields)]
#[derive(Clone, Copy, Debug, PartialEq, Eq, Structural)]
pub enum Rule {
    /// This machine only.
    Loopback,
    /// The private ranges, carrier-grade translation, link-local, and their IPv6
    /// equivalents, besides this machine.
    Private,
    /// Everything. Only ever set deliberately.
    Any,
    V4 { network: Ipv4Addr, prefix: u8 },
    V6 { network: Ipv6Addr, prefix: u8 },
}

/// What is wrong with a network written as address, slash and prefix length.
#[derive(Clone, Copy, Debug, PartialEq, Eq, Structural)]
pub enum CidrError {
    /// There is no slash.
    NoPrefix,
    /// What follows the slash is not a number below 256.
    BadPrefix,
    /// What precedes the slash is not an address.
    BadAddress,
    /// The prefix is longer than the address.
    PrefixTooLong,
}

/// An entry of `dns.allow_from` that is neither a keyword nor a network.
#[derive(Debug)]
pub struct AclError {
    pub entry: String,
    pub cause: CidrError,
}

/// The clients that are served: those that some rule admits.
#[derive(Debug)]
pub struct Acl {
    rules: Vec<Rule>,
}

/// Whether `v4` can only have come from a local network.
pub open spec fn local_v4(v4: Ipv4Addr) -> bool {
    v4.private() || v4.link_local() || v4.shared()
}

/// Whether an address can only have come from a local network. An IPv6 address
/// that stands for an IPv4 address is judged on that one.
pub open spec fn local(addr: IpAddr) -> bool {
    match addr {
        IpAddr::V4(v4) => local_v4(v4),
        IpAddr::V6(v6) => {
            ||| v6.unique_local()
            ||| v6.link_local()
            ||| v6.mapped_v4() is Some && local_v4(v6.mapped_v4()->0)
        },
    }
}

fn is_local_v4(v4: Ipv4Addr) -> (r: bool)
    ensures
        r == local_v4(v4),
{
    v4.is_private() || v4.is_link_local() || v4.is_shared()
}

/// Tells whether an address can only have come from a local network.
pub fn is_private(addr: IpAddr) -> (r: bool)
    ensures
        r == local(addr),
{
    match addr {
        IpAddr::V4(v4) => is_local_v4(v4),
        IpAddr::V6(v6) => {
            let first = v6.segments()[0];
            (0xfc00 <= first && first <= 0xfdff) || (0xfe80 <= first && first <= 0xfebf)
                || match v6.to_ipv4_mapped() {
                Some(v4) => is_local_v4(v4),
                None => false,
            }
        },
    }
}

impl Rule {
    /// A network's prefix is no longer than its address.
    pub open spec fn wf(self) -> bool {
        match self {
            Rule::V4 { network, prefix } => prefix <= 32,
            Rule::V6 { network, prefix } => prefix <= 128,
            _ => true,
        }
    }

    /// Whether the rule admits `addr`.
    pub open spec fn admits(self, addr: IpAddr) -> bool {
        match self {
            Rule::Any => true,
            Rule::Loopback => addr.loopback(),
            Rule::Private => local(addr) || addr.loopback(),
            Rule::V4 { network, prefix } => match addr {
                IpAddr::V4(v4) => v4.lies_in(network, prefix),
                IpAddr::V6(_) => false,
            },
            Rule::V6 { network, prefix } => match addr {
                IpAddr::V6(v6) => v6.lies_in(network, prefix),
                IpAddr::V4(_) => false,
            },
        }
    }

    fn matches(&self, addr: IpAddr) -> (r: bool)
        requires
            self.wf(),
        ensures
            r == self.admits(addr),
    {
        match self {
            Rule::Any => true,
            Rule::Loopback => addr.is_loopback(),
            Rule::Private => is_private(addr) || addr.is_loopback(),
            Rule::V4 { network, prefix } => match addr {
                IpAddr::V4(v4) => v4.is_in(*network, *prefix),
                IpAddr::V6(_) => false,
            },
            Rule::V6 { network, prefix } => match addr {
                IpAddr::V6(v6) => v6.is_in(*network, *prefix),
                IpAddr::V4(_) => false,
            },
        }
    }
}

/// Whether the rules admit `addr`. No rule at all means `Private`: denying the
/// whole network in silence would be the worse failure.
pub open spec fn admitted(rules: Seq<Rule>, addr: IpAddr) -> bool {
    if rules.len() == 0 {
        Rule::Private.admits(addr)
    } else {
        exists|i: int| 0 <= i < rules.len() && (#[trigger] rules[i]).admits(addr)
    }
}

/// The network that `s` writes as address, slash and prefix length.
pub open spec fn cidr(s: Seq<char>) -> Result<Rule, CidrError> {
    let i = text::find(s, Class::Is('/'));
    let address = text::trim(s.take(i), Class::White);
    let prefix = number::unsigned(text::trim(s.skip(i + 1), Class::White), 10, 255);
    if i >= s.len() {
        Err(CidrError::NoPrefix)
    } else if prefix is None {
        Err(CidrError::BadPrefix)
    } else {
        let prefix = prefix->0 as u8;
        match IpAddr::written_by(address) {
            None => Err(CidrError::BadAddress),
            Some(IpAddr::V4(network)) => if prefix <= 32 {
                Ok(Rule::V4 { network, prefix })
            } else {
                Err(CidrError::PrefixTooLong)
            },
            Some(IpAddr::V6(network)) => if prefix <= 128 {
                Ok(Rule::V6 { network, prefix })
            } else {
                Err(CidrError::PrefixTooLong)
            },
        }
    }
}

/// The rule that an entry of the configuration writes: a keyword or a network, in
/// any case and with white space around it.
pub open spec fn rule_of(entry: Seq<char>) -> Result<Rule, CidrError> {
    let e = text::lower(text::trim(entry, Class::White));
    if e == "loopback"@ || e == "localhost"@ {
        Ok(Rule::Loopback)
    } else if e == "private"@ || e == "lan"@ {
        Ok(Rule::Private)
    } else if e == "any"@ || e == "all"@ || e == "0.0.0.0/0"@ {
        Ok(Rule::Any)
    } else {
        cidr(e)
    }
}

fn parse_cidr(s: &[char]) -> (r: Result<Rule, CidrError>)
    ensures
        r == cidr(s@),
        r matches Ok(rule) ==> rule.wf(),
{
    let i: usize = text::scan(s, Class::Is('/'), 0);
    assert(s@.skip(0) =~= s@);
    if i >= s.len() {
        return Err(CidrError::NoPrefix);
    }
    let address = slice_subrange(s, 0, i);
    let length = slice_subrange(s, i + 1, s.len());
    assert(address@ =~= s@.take(i as int));
    assert(length@ =~= s@.skip(i + 1));
    let prefix: u8 = match number::read_unsigned(text::strip(length, Class::White), 10, 255) {
        Some(v) => v as u8,
        None => {
            return Err(CidrError::BadPrefix);
        },
    };
    match IpAddr::parse(text::strip(address, Class::White)) {
        None => Err(CidrError::BadAddress),
        Some(IpAddr::V4(network)) => if prefix <= 32 {
            Ok(Rule::V4 { network, prefix })
        } else {
            Err(CidrError::PrefixTooLong)
        },
        Some(IpAddr::V6(network)) => if prefix <= 128 {
            Ok(Rule::V6 { network, prefix })
        } else {
            Err(CidrError::PrefixTooLong)
        },
    }
}

fn parse_rule(entry: &str) -> (r: Result<Rule, CidrError>)
    ensures
        r == rule_of(entry@),
        r matches Ok(rule) ==> rule.wf(),
{
    let chars = text::chars_of(entry);
    let e = text::lowered(text::strip(chars.as_slice(), Class::White));
    let e = e.as_slice();
    if text::is_text(e, "loopback") || text::is_text(e, "localhost") {
        Ok(Rule::Loopback)
    } else if text::is_text(e, "private") || text::is_text(e, "lan") {
        Ok(Rule::Private)
    } else if text::is_text(e, "any") || text::is_text(e, "all") || text::is_text(e, "0.0.0.0/0") {
        Ok(Rule::Any)
    } else {
        parse_cidr(e)
    }
}

impl AclError {
    /// What is wrong, for people.
    pub fn message(&self) -> (r: String)
        ensures
            r@ == "dns.allow_from entry "@ + text::quoted(self.entry@)
                + " is not a keyword (loopback/private/any) or a CIDR"@,
    {
        let mut out = "dns.allow_from entry ".to_string();
        out.append(text::quote(self.entry.as_str()).as_str());
        out.append(" is not a keyword (loopback/private/any) or a CIDR");
        out
    }
}

impl Acl {
    /// The rules.
    pub closed spec fn view(&self) -> Seq<Rule> {
        self.rules@
    }

    /// Every rule is well formed.
    pub open spec fn wf(&self) -> bool {
        forall|i: int| 0 <= i < self@.len() ==> (#[trigger] self@[i]).wf()
    }

    /// Reads the entries of the configuration: the keywords `loopback`, `private`
    /// and `any`, or networks such as `192.168.1.0/24` or `fd00::/8`. The first
    /// entry that is neither is the error.
    pub fn parse(entries: &[String]) -> (r: Result<Acl, AclError>)
        ensures
            match r {
                Ok(acl) => {
                    &&& acl.wf()
                    &&& acl@.len() == entries@.len()
                    &&& forall|i: int|
                        0 <= i < entries@.len() ==> #[trigger] rule_of(entries@[i]@) == Ok::<
                            Rule,
                            CidrError,
                        >(acl@[i])
                },
                Err(e) => exists|n: int|
                    {
                        &&& 0 <= n < entries@.len()
                        &&& e.entry@ == entries@[n]@
                        &&& #[trigger] rule_of(entries@[n]@) == Err::<Rule, CidrError>(e.cause)
                        &&& forall|i: int| 0 <= i < n ==> rule_of(#[trigger] entries@[i]@) is Ok
                    },
            },
    {
        let mut rules: Vec<Rule> = Vec::new();
        let mut i: usize = 0;
        while i < entries.len()
            invariant
                i <= entries@.len(),
                rules@.len() == i,
                forall|j: int| 0 <= j < i ==> (#[trigger] rules@[j]).wf(),
                forall|j: int|
                    0 <= j < i ==> #[trigger] rule_of(entries@[j]@) == Ok::<Rule, CidrError>(
                        rules@[j],
                    ),
            decreases entries@.len() - i,
        {
            match parse_rule(entries[i].as_str()) {
                Ok(rule) => rules.push(rule),
                Err(cause) => {
                    assert(rule_of(entries@[i as int]@) == Err::<Rule, CidrError>(cause));
                    assert forall|j: int| 0 <= j < i implies rule_of(#[trigger] entries@[j]@) is Ok by {
                        assert(rule_of(entries@[j]@) == Ok::<Rule, CidrError>(rules@[j]));
                    }
                    return Err(AclError { entry: entries[i].clone(), cause });
                },
            }
            i += 1;
        }
        Ok(Acl { rules })
    }

    /// No rules: only the local network is served.
    pub fn local_only() -> (r: Acl)
        ensures
            r.wf(),
            r@ == Seq::<Rule>::empty(),
    {
        Acl { rules: Vec::new() }
    }

    /// Tells whether `addr` is served.
    pub fn allows(&self, addr: IpAddr) -> (r: bool)
        requires
            self.wf(),
        ensures
            r == admitted(self@, addr),
    {
        if self.rules.len() == 0 {
            return is_private(addr) || addr.is_loopback();
        }
        let mut i: usize = 0;
        while i < self.rules.len()
            invariant
                self.wf(),
                i <= self@.len(),
                forall|j: int| 0 <= j < i ==> !(#[trigger] self@[j]).admits(addr),
            decreases self@.len() - i,
        {
            assert(self@[i as int].wf());
            if self.rules[i].matches(addr) {
                return true;
            }
            i += 1;
        }
        false
    }

    fn has(&self, rule: Rule) -> (r: bool)
        ensures
            r == self@.contains(rule),
    {
        let mut i: usize = 0;
        while i < self.rules.len()
            invariant
                i <= self@.len(),
                forall|j: int| 0 <= j < i ==> self@[j] != rule,
            decreases self@.len() - i,
        {
            if self.rules[i] == rule {
                assert(self@[i as int] == rule);
                return true;
            }
            i += 1;
        }
        false
    }

    /// Also serves the LAN that the routing table shows, under the private stance:
    /// not every home network uses private addresses. Rules that name who is served
    /// and do not say `private` are left alone, and so are rules that already admit
    /// the network's address. Tells whether the rules were widened.
    pub fn trust_subnet(&mut self, network: Ipv4Addr, prefix: u8) -> (r: bool)
        requires
            old(self).wf(),
            prefix <= 32,
        ensures
            final(self).wf(),
            r == (private_stance(old(self)@) && !admitted(old(self)@, IpAddr::V4(network))),
            final(self)@ == (if r {
                widened(old(self)@, Rule::V4 { network, prefix })
            } else {
                old(self)@
            }),
    {
        let empty = self.rules.len() == 0;
        if !empty && !self.has(Rule::Private) {
            return false;
        }
        if self.allows(IpAddr::V4(network)) {
            return false;
        }
        if empty {
            self.rules.push(Rule::Private);
        }
        self.rules.push(Rule::V4 { network, prefix });
        assert(self@ =~= widened(old(self)@, Rule::V4 { network, prefix }));
        true
    }

    /// Tells whether the server has deliberately been opened to the internet.
    pub fn is_open_to_world(&self) -> (r: bool)
        ensures
            r == self@.contains(Rule::Any),
    {
        self.has(Rule::Any)
    }
}

/// Whether the rules say that the local network is served.
pub open spec fn private_stance(rules: Seq<Rule>) -> bool {
    rules.len() == 0 || rules.contains(Rule::Private)
}

/// The rules with one more. No rule at all means `Private`, which stays.
pub open spec fn widened(rules: Seq<Rule>, rule: Rule) -> Seq<Rule> {
    if rules.len() == 0 {
        seq![Rule::Private, rule]
    } else {
        rules.push(rule)
    }
}

/// Widening admits the clients that were admitted before and those that the new
/// rule admits, and nobody else.
pub proof fn widening_adds_exactly_the_new_rule(rules: Seq<Rule>, rule: Rule, addr: IpAddr)
    ensures
        admitted(widened(rules, rule), addr) == (admitted(rules, addr) || rule.admits(addr)),
{
    let w = widened(rules, rule);
    if rules.len() == 0 {
        assert(w[0].admits(addr) || w[1].admits(addr) || !admitted(w, addr));
    } else {
        if admitted(rules, addr) {
            let i = choose|i: int| 0 <= i < rules.len() && (#[trigger] rules[i]).admits(addr);
            assert(w[i].admits(addr));
        }
        if rule.admits(addr) {
            assert(w[rules.len() as int].admits(addr));
        }
    }
}

/// Rules that say `Any` admit everyone.
pub proof fn any_admits_everyone(rules: Seq<Rule>, addr: IpAddr)
    requires
        rules.contains(Rule::Any),
    ensures
        admitted(rules, addr),
{
    let i = choose|i: int| 0 <= i < rules.len() && rules[i] == Rule::Any;
    assert(rules[i].admits(addr));
}

/// Under `loopback` and `private`, in any order and number, exactly this machine
/// and local addresses are served; without any rule the same holds.
pub proof fn default_stance_serves_exactly_the_lan(rules: Seq<Rule>, addr: IpAddr)
    requires
        private_stance(rules),
        forall|i: int|
            0 <= i < rules.len() ==> (#[trigger] rules[i] == Rule::Loopback || rules[i]
                == Rule::Private),
    ensures
        admitted(rules, addr) == (local(addr) || addr.loopback()),
{
    if rules.len() > 0 {
        let i = choose|i: int| 0 <= i < rules.len() && rules[i] == Rule::Private;
        assert(rules[i].admits(addr) == (local(addr) || addr.loopback()));
    }
}

/// An IPv6 address that stands for an IPv4 address is local if that one is.
pub proof fn mapped_addresses_are_judged_on_their_v4_value(v6: Ipv6Addr)
    requires
        v6.mapped_v4() is Some,
    ensures
        local(IpAddr::V6(v6)) == local(IpAddr::V4(v6.mapped_v4()->0)),
{
    assert(v6.bits as int / 0x1_0000_0000 == 0xffff);
    assert(v6.segment(0) == 0);
}

} // verus!
