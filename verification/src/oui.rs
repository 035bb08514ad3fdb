//! The vendors behind hardware addresses.
//!
//! A set of prefixes that are common on home networks is built in; the registry of
//! the IEEE can supplement it.

use crate::number;
use crate::text;
use crate::text::Class;
use vstd::hash_map::StringHashMap;
use vstd::prelude::*;
use vstd::slice::slice_subrange;

verus! {

/// The built-in prefixes and vendors. Spaces in a prefix mean nothing.
pub const BUILTIN: [(&'static str, &'static str); 142] = [
    // Raspberry Pi
    ("B827EB", "Raspberry Pi Foundation"),
    ("DCA632", "Raspberry Pi Trading"),
    ("E45F01", "Raspberry Pi Trading"),
    ("D83ADD", "Raspberry Pi Trading"),
    ("2CCF67", "Raspberry Pi Trading"),
    ("88A29E", "Raspberry Pi Ltd"),
    // Apple
    ("F0D1A9", "Apple"),
    ("A85C2C", "Apple"),
    ("3C0754", "Apple"),
    ("D02598", "Apple"),
    ("AC87A3", "Apple"),
    ("8C8590", "Apple"),
    ("F80377", "Apple"),
    ("6C4008", "Apple"),
    ("A4B197", "Apple"),
    ("DC2B2A", "Apple"),
    ("E0B9BA", "Apple"),
    ("F0DBF8", "Apple"),
    ("04D3CF", "Apple"),
    ("BC926B", "Apple"),
    ("C82A14", "Apple"),
    // Samsung
    ("E8508B", "Samsung Electronics"),
    ("F409D8", "Samsung Electronics"),
    ("5CF6DC", "Samsung Electronics"),
    ("8C7712", "Samsung Electronics"),
    ("34BE00", "Samsung Electronics"),
    ("D0176A", "Samsung Electronics"),
    ("2C598A", "Samsung Electronics"),
    ("C0BDD1", "Samsung Electronics"),
    // Google / Nest
    ("F4F5D8", "Google"),
    ("F4F5E8", "Google"),
    ("3C5AB4", "Google"),
    ("DA A1 19", "Google"),
    ("1CF29A", "Google"),
    ("54600D", "Google Nest"),
    ("18B430", "Google Nest"),
    // Amazon
    ("F0272D", "Amazon Technologies"),
    ("44650D", "Amazon Technologies"),
    ("68375A", "Amazon Technologies"),
    ("A002DC", "Amazon Technologies"),
    ("FCA183", "Amazon Technologies"),
    ("74C246", "Amazon Technologies"),
    ("50DCE7", "Amazon Technologies"),
    // Intel (laptops/NICs)
    ("001B21", "Intel"),
    ("3C9709", "Intel"),
    ("94659C", "Intel"),
    ("A0A8CD", "Intel"),
    ("8CC681", "Intel"),
    ("E4A471", "Intel"),
    ("7C7A91", "Intel"),
    // Espressif (ESP8266/ESP32 - most DIY IoT)
    ("240AC4", "Espressif (ESP32)"),
    ("2462AB", "Espressif (ESP32)"),
    ("30AEA4", "Espressif (ESP32)"),
    ("3C71BF", "Espressif (ESP32)"),
    ("807D3A", "Espressif (ESP32)"),
    ("A4CF12", "Espressif (ESP32)"),
    ("B4E62D", "Espressif (ESP32)"),
    ("CC50E3", "Espressif (ESP32)"),
    ("D8A01D", "Espressif (ESP32)"),
    ("EC FA BC", "Espressif (ESP32)"),
    ("5CCF7F", "Espressif (ESP8266)"),
    ("18FE34", "Espressif (ESP8266)"),
    // TP-Link
    ("50C7BF", "TP-Link"),
    ("A42BB0", "TP-Link"),
    ("C46E1F", "TP-Link"),
    ("14CC20", "TP-Link"),
    ("6466B3", "TP-Link"),
    ("9C5322", "TP-Link"),
    ("003192", "TP-Link"),
    // Netgear
    ("A040A0", "Netgear"),
    ("204E7F", "Netgear"),
    ("9CD36D", "Netgear"),
    ("C40415", "Netgear"),
    // D-Link / Asus / Linksys
    ("1CBDB9", "D-Link"),
    ("14D64D", "D-Link"),
    ("2C4D54", "ASUSTek"),
    ("1C872C", "ASUSTek"),
    ("AC220B", "ASUSTek"),
    ("48F8B3", "Linksys"),
    ("C0561D", "Linksys"),
    // Xiaomi
    ("64B473", "Xiaomi"),
    ("F8A45F", "Xiaomi"),
    ("286C07", "Xiaomi"),
    ("78110F", "Xiaomi"),
    ("50EC50", "Xiaomi"),
    // Huawei
    ("00E0FC", "Huawei"),
    ("240995", "Huawei"),
    ("48D539", "Huawei"),
    ("781DBA", "Huawei"),
    // OnePlus / Oppo / Vivo / Realme
    ("64A2F9", "OnePlus"),
    ("C0EEFB", "OnePlus"),
    ("94652D", "OnePlus"),
    ("D0C5D3", "Oppo"),
    ("2CF0A2", "Vivo"),
    // Sonos / Roku / smart TV
    ("5CAAFD", "Sonos"),
    ("949F3E", "Sonos"),
    ("B8E937", "Sonos"),
    ("B0A737", "Roku"),
    ("CC6DA0", "Roku"),
    ("D83134", "Roku"),
    ("C8D083", "Vizio"),
    ("74E1B6", "LG Electronics"),
    ("A816B2", "LG Electronics"),
    ("2013E0", "Sony"),
    ("FCF152", "Sony"),
    // Philips Hue / IoT hubs
    ("001788", "Philips Hue"),
    ("ECB5FA", "Philips Hue"),
    // Ubiquiti / MikroTik / Cisco (prosumer networking)
    ("245A4C", "Ubiquiti"),
    ("788A20", "Ubiquiti"),
    ("FC ECDA", "Ubiquiti"),
    ("74ACB9", "Ubiquiti"),
    ("4C5E0C", "Routerboard (MikroTik)"),
    ("E48D8C", "Routerboard (MikroTik)"),
    ("6C3B6B", "Routerboard (MikroTik)"),
    ("001A2B", "Cisco"),
    ("F4CFE2", "Cisco"),
    // Printers
    ("3CD92B", "HP"),
    ("9CB6D0", "HP"),
    ("002673", "Brother"),
    ("008077", "Brother"),
    ("00000E", "Canon"),
    ("2477 03", "Epson"),
    // Virtualisation / containers, handy when testing
    ("000C29", "VMware"),
    ("005056", "VMware"),
    ("080027", "VirtualBox"),
    ("525400", "QEMU/KVM"),
    ("02420A", "Docker"),
    // Misc consumer
    ("B0BE76", "Belkin"),
    ("EC1A59", "Belkin/Wemo"),
    ("6038E0", "Belkin"),
    ("001E8F", "Canon"),
    ("00248C", "ASUSTek"),
    ("485D36", "Amazon eero"),
    ("F8BBBF", "Nintendo"),
    ("98B6E9", "Nintendo"),
    ("0017AB", "Nintendo"),
    ("7CBB8A", "Nintendo"),
    ("BC60A7", "Sony PlayStation"),
    ("F8461C", "Sony PlayStation"),
    ("000D3A", "Microsoft"),
    ("7C1E52", "Microsoft"),
    ("60455E", "Microsoft Xbox"),
];

/// The hexadecimal digits of `s`, in order.
pub open spec fn hex_digits(s: Seq<char>) -> Seq<char>
    decreases s.len(),
{
    if s.len() == 0 {
        seq![]
    } else if number::digit(s.last(), 16) >= 0 {
        hex_digits(s.drop_last()).push(s.last())
    } else {
        hex_digits(s.drop_last())
    }
}

/// The hexadecimal digits of a text.
pub fn hex_of(s: &str) -> (r: Vec<char>)
    ensures
        r@ == hex_digits(s@),
{
    let chars = text::chars_of(s);
    let mut out: Vec<char> = Vec::new();
    let mut i: usize = 0;
    assert(chars@.take(0) =~= seq![]);
    while i < chars.len()
        invariant
            i <= chars@.len(),
            out@ == hex_digits(chars@.take(i as int)),
        decreases chars@.len() - i,
    {
        if number::digit_of(chars[i], 16).is_some() {
            out.push(chars[i]);
        }
        i += 1;
        assert(chars@.take(i as int).drop_last() =~= chars@.take(i - 1));
    }
    assert(chars@.take(i as int) =~= chars@);
    out
}

/// The key of a prefix: its hexadecimal digits in upper case.
pub open spec fn prefix_key(s: Seq<char>) -> Seq<char> {
    text::upper(hex_digits(s))
}

fn key_of(s: &str) -> (r: Vec<char>)
    ensures
        r@ == prefix_key(s@),
{
    let hex = hex_of(s);
    let mut out: Vec<char> = Vec::new();
    let mut i: usize = 0;
    while i < hex.len()
        invariant
            i <= hex@.len(),
            out@ == text::upper(hex@.take(i as int)),
        decreases hex@.len() - i,
    {
        out.push(text::uppered(hex[i]));
        i += 1;
        assert(text::upper(hex@.take(i as int)) =~= text::upper(hex@.take(i - 1)).push(
            text::upper_char(hex@[i - 1]),
        ));
    }
    assert(hex@.take(i as int) =~= hex@);
    out
}

/// The vendors by prefix.
pub struct OuiDb {
    map: StringHashMap<String>,
}

/// The table after the first `n` built-in rows. A later row replaces an earlier one
/// with the same prefix.
pub open spec fn builtin(n: int) -> Map<Seq<char>, Seq<char>>
    decreases n,
{
    if n <= 0 {
        Map::empty()
    } else {
        let row = BUILTIN@[n - 1];
        let key = prefix_key(row.0@);
        if key.len() == 6 {
            builtin(n - 1).insert(key, row.1@)
        } else {
            builtin(n - 1)
        }
    }
}

/// The prefix and the vendor of a row of the registry: the digits of its second
/// field, if there are six, and its third field without white space and quotation
/// marks around it, if anything is left.
pub open spec fn csv_row(line: Seq<char>) -> Option<(Seq<char>, Seq<char>)> {
    let f = text::split(line, Class::Is(','));
    if f.len() < 3 {
        None
    } else {
        let key = prefix_key(f[1]);
        let org = text::trim(
            text::trim(text::trim(f[2], Class::White), Class::Is('"')),
            Class::White,
        );
        if key.len() != 6 || org.len() == 0 {
            None
        } else {
            Some((key, org))
        }
    }
}

/// A table supplemented by the rows of the registry in `lines`. Prefixes that have
/// a vendor keep it.
pub open spec fn supplemented(m: Map<Seq<char>, Seq<char>>, lines: Seq<Seq<char>>) -> Map<
    Seq<char>,
    Seq<char>,
>
    decreases lines.len(),
{
    if lines.len() == 0 {
        m
    } else {
        let most = supplemented(m, lines.drop_last());
        match csv_row(lines.last()) {
            Some((key, org)) => if most.contains_key(key) {
                most
            } else {
                most.insert(key, org)
            },
            None => most,
        }
    }
}

/// The number of rows of the registry in `lines`.
pub open spec fn row_count(lines: Seq<Seq<char>>) -> int
    decreases lines.len(),
{
    if lines.len() == 0 {
        0
    } else {
        row_count(lines.drop_last()) + if csv_row(lines.last()) is Some {
            1int
        } else {
            0int
        }
    }
}

/// The lines of a file after its heading.
pub open spec fn body_lines(contents: Seq<char>) -> Seq<Seq<char>> {
    let l = text::lines(contents);
    if l.len() == 0 {
        l
    } else {
        l.drop_first()
    }
}

/// The vendor of a hardware address, by its first six hexadecimal digits.
pub open spec fn vendor_of(m: Map<Seq<char>, Seq<char>>, mac: Seq<char>) -> Option<Seq<char>> {
    let key = prefix_key(mac);
    if key.len() >= 6 && m.contains_key(key.take(6)) {
        Some(m[key.take(6)])
    } else {
        None
    }
}

fn read_row(line: &[char]) -> (r: Option<(String, String)>)
    ensures
        match r {
            Some((key, org)) => csv_row(line@) == Some((key@, org@)),
            None => csv_row(line@) is None,
        },
{
    let f = text::parts_of(line, Class::Is(','));
    let ghost want = text::split(line@, Class::Is(','));
    assert(want.len() == f@.len());
    if f.len() < 3 {
        return None;
    }
    assert(want[1] == f@[1]@ && want[2] == f@[2]@);
    let assignment = text::string_of(f[1].as_slice());
    let key = key_of(assignment.as_str());
    let org = text::strip(
        text::strip(text::strip(f[2].as_slice(), Class::White), Class::Is('"')),
        Class::White,
    );
    if key.len() != 6 || org.len() == 0 {
        return None;
    }
    Some((text::string_of(key.as_slice()), text::string_of(org)))
}

impl OuiDb {
    /// The vendors by prefix.
    pub closed spec fn view(&self) -> Map<Seq<char>, Seq<char>> {
        self.map@.map_values(|s: String| s@)
    }

    /// The built-in table.
    pub fn new() -> (r: OuiDb)
        ensures
            r@ == builtin(BUILTIN@.len() as int),
    {
        let mut db = OuiDb { map: StringHashMap::new() };
        let mut i: usize = 0;
        assert(db@ =~= builtin(0));
        while i < BUILTIN.len()
            invariant
                i <= BUILTIN@.len(),
                db@ == builtin(i as int),
            decreases BUILTIN@.len() - i,
        {
            let row = BUILTIN[i];
            let key = key_of(row.0);
            let ghost before = db@;
            if key.len() == 6 {
                let k = text::string_of(key.as_slice());
                db.map.insert(k, row.1.to_string());
                assert(db@ =~= before.insert(key@, row.1@));
            }
            i += 1;
            assert(db@ =~= builtin(i as int));
        }
        db
    }

    /// Supplements the table by the registry of the IEEE, whose rows are registry,
    /// assignment, name and address. Tells how many rows were read.
    pub fn load_ieee_csv(&mut self, contents: &str) -> (r: usize)
        ensures
            final(self)@ == supplemented(old(self)@, body_lines(contents@)),
            r == row_count(body_lines(contents@)),
    {
        let chars = text::chars_of(contents);
        let lines = text::lines_of(chars.as_slice());
        let ghost l = text::texts(lines@);
        let ghost body = body_lines(contents@);
        let mut added: usize = 0;
        if lines.len() == 0 {
            assert(body =~= seq![]);
            return 0;
        }
        let mut i: usize = 1;
        assert(body.take(0) =~= seq![]);
        while i < lines.len()
            invariant
                1 <= i <= lines@.len(),
                l == text::texts(lines@),
                body == l.drop_first(),
                added <= i - 1,
                added == row_count(body.take(i - 1)),
                self@ == supplemented(old(self)@, body.take(i - 1)),
            decreases lines@.len() - i,
        {
            let ghost before = self@;
            proof {
                assert(body.take(i as int).drop_last() =~= body.take(i - 1));
                assert(body.take(i as int).last() == lines@[i as int]@);
            }
            if let Some((key, org)) = read_row(lines[i].as_slice()) {
                assert(self@.contains_key(key@) == self.map@.contains_key(key@));
                if !self.map.contains_key(key.as_str()) {
                    let ghost (k, o) = (key@, org@);
                    self.map.insert(key, org);
                    assert(self@ =~= before.insert(k, o));
                }
                added += 1;
            }
            i += 1;
        }
        assert(body.take(i - 1) =~= body);
        added
    }

    /// The number of prefixes.
    pub fn len(&self) -> (r: usize)
        ensures
            r == self@.len(),
    {
        assert(self@.dom() =~= self.map@.dom());
        self.map.len()
    }

    /// The vendor of a hardware address in any common notation.
    pub fn lookup(&self, mac: &str) -> (r: Option<&str>)
        ensures
            match r {
                Some(v) => vendor_of(self@, mac@) == Some(v@),
                None => vendor_of(self@, mac@) is None,
            },
    {
        let key = key_of(mac);
        if key.len() < 6 {
            return None;
        }
        let first = slice_subrange(key.as_slice(), 0, 6);
        assert(first@ =~= key@.take(6));
        let prefix = text::string_of(first);
        match self.map.get(prefix.as_str()) {
            Some(v) => {
                assert(self@.contains_key(prefix@));
                Some(v.as_str())
            },
            None => None,
        }
    }
}

/// Whether a hardware address is locally administered, which on a modern phone
/// means that it is made up for privacy: bit 1 of its first octet is set.
pub open spec fn randomized(mac: Seq<char>) -> bool {
    let h = hex_digits(mac);
    h.len() >= 2 && (number::digit(h[0], 16) * 16 + number::digit(h[1], 16)) / 2 % 2 == 1
}

/// Tells whether a hardware address is locally administered. Such an address is no
/// stable identity and has no vendor.
pub fn is_randomized(mac: &str) -> (r: bool)
    ensures
        r == randomized(mac@),
{
    let hex = hex_of(mac);
    if hex.len() < 2 {
        return false;
    }
    proof {
        lemma_hex_digits(mac@);
    }
    match (number::digit_of(hex[0], 16), number::digit_of(hex[1], 16)) {
        (Some(a), Some(b)) => (a * 16 + b) / 2 % 2 == 1,
        _ => false,
    }
}

/// Hexadecimal digits are hexadecimal digits.
proof fn lemma_hex_digits(s: Seq<char>)
    ensures
        forall|i: int|
            0 <= i < hex_digits(s).len() ==> number::digit(#[trigger] hex_digits(s)[i], 16) >= 0,
    decreases s.len(),
{
    if s.len() > 0 {
        lemma_hex_digits(s.drop_last());
        let most = hex_digits(s.drop_last());
        assert forall|i: int| 0 <= i < hex_digits(s).len() implies number::digit(
            #[trigger] hex_digits(s)[i],
            16,
        ) >= 0 by {
            if i < most.len() {
                assert(most[i] == hex_digits(s)[i]);
            }
        }
    }
}

/// Six octets of two digits each between colons.
pub open spec fn colons(h: Seq<char>) -> Seq<char> {
    seq![
        h[0], h[1], ':', h[2], h[3], ':', h[4], h[5], ':',
        h[6], h[7], ':', h[8], h[9], ':', h[10], h[11],
    ]
}

/// The canonical form of a hardware address: twelve hexadecimal digits in lower
/// case, in pairs between colons. What has not twelve digits, or only zeros,
/// identifies nothing.
pub open spec fn canonical_mac(mac: Seq<char>) -> Option<Seq<char>> {
    let h = hex_digits(mac);
    if h.len() != 12 || (forall|i: int| 0 <= i < 12 ==> #[trigger] h[i] == '0') {
        None
    } else {
        Some(colons(text::lower(h)))
    }
}

/// Puts a hardware address in canonical form, if it is one.
pub fn normalize(mac: &str) -> (r: Option<String>)
    ensures
        match r {
            Some(m) => canonical_mac(mac@) == Some(m@),
            None => canonical_mac(mac@) is None,
        },
{
    let hex = hex_of(mac);
    if hex.len() != 12 {
        return None;
    }
    let mut zeros = true;
    let mut i: usize = 0;
    while i < 12
        invariant
            i <= 12 == hex@.len(),
            zeros == (forall|j: int| 0 <= j < i ==> #[trigger] hex@[j] == '0'),
        decreases 12 - i,
    {
        if hex[i] != '0' {
            zeros = false;
        }
        i += 1;
    }
    if zeros {
        return None;
    }
    let low = text::lowered(hex.as_slice());
    let mut out = String::new();
    let mut k: usize = 0;
    assert(low@ == text::lower(hex@));
    while k < 12
        invariant
            k <= 12 == low@.len(),
            k % 2 == 0,
            out@ =~= colons(low@).take(if k == 0 {
                0
            } else {
                3 * (k / 2) - 1
            }),
        decreases 12 - k,
    {
        if k > 0 {
            out.push(':');
        }
        out.push(low[k]);
        out.push(low[k + 1]);
        k += 2;
    }
    assert(out@ =~= colons(low@));
    Some(out)
}

/// The canonical form of a canonical form is itself.
pub proof fn a_canonical_address_is_its_own_form(mac: Seq<char>)
    requires
        canonical_mac(mac) is Some,
    ensures
        canonical_mac(canonical_mac(mac)->0) == canonical_mac(mac),
{
    let h = hex_digits(mac);
    let l = text::lower(h);
    let c = colons(l);
    lemma_hex_digits(mac);
    assert forall|i: int| 0 <= i < 12 implies number::digit(#[trigger] l[i], 16) >= 0 by {
        assert(number::digit(h[i], 16) >= 0);
    }
    lemma_digits_of_colons(l);
    assert(text::lower(l) =~= l);
    let i = choose|i: int| 0 <= i < 12 && #[trigger] h[i] != '0';
    assert(l[i] != '0') by {
        assert(number::digit(h[i], 16) >= 0);
    }
}

proof fn lemma_digits_of_colons(l: Seq<char>)
    requires
        l.len() == 12,
        forall|i: int| 0 <= i < 12 ==> number::digit(#[trigger] l[i], 16) >= 0,
    ensures
        hex_digits(colons(l)) == l,
{
    let c = colons(l);
    lemma_digits_of_prefix(l, 17);
    assert(c.take(17) =~= c);
    assert(l.take(12) =~= l);
}

/// How many digits stand among the first `n` characters.
spec fn digits_before(n: int) -> int {
    n - n / 3
}

proof fn lemma_digits_of_prefix(l: Seq<char>, n: int)
    requires
        l.len() == 12,
        0 <= n <= 17,
        forall|i: int| 0 <= i < 12 ==> number::digit(#[trigger] l[i], 16) >= 0,
    ensures
        hex_digits(colons(l).take(n)) == l.take(digits_before(n)),
    decreases n,
{
    let c = colons(l);
    if n == 0 {
        assert(c.take(0) =~= seq![]);
        assert(l.take(0) =~= seq![]);
    } else {
        lemma_digits_of_prefix(l, n - 1);
        assert(c.take(n).drop_last() =~= c.take(n - 1));
        assert(c.take(n).last() == c[n - 1]);
        if (n - 1) % 3 == 2 {
            assert(c[n - 1] == ':');
            assert(digits_before(n) == digits_before(n - 1));
        } else {
            let d = digits_before(n - 1);
            assert(digits_before(n) == d + 1);
            assert(c[n - 1] == l[d]);
            assert(number::digit(l[d], 16) >= 0);
            assert(l.take(d + 1) =~= l.take(d).push(l[d]));
        }
    }
}

} // verus!
