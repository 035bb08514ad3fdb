use netwatch::addr::{IpAddr, Ipv4Addr, SocketAddr};
use netwatch::number::{push_decimal, read_unsigned};
use netwatch::text::{chars_of, fields_of, lines_of, parts_of, Class};

fn back(s: &str) -> String {
    IpAddr::from_text(s).unwrap().to_text()
}

#[test]
fn addresses_are_read_and_written() {
    assert_eq!(back("192.168.1.42"), "192.168.1.42");
    assert_eq!(back("2001:DB8:0:0:0:0:0:1"), "2001:db8::1");
    assert_eq!(back("::"), "::");
    assert_eq!(back("::1"), "::1");
    assert_eq!(back("fe80::1:0:0:1"), "fe80::1:0:0:1");
    assert_eq!(back("1:0:0:2:0:0:0:3"), "1:0:0:2::3");
    assert_eq!(back("::ffff:192.168.1.5"), "::ffff:192.168.1.5");
    for bad in ["", "1.2.3", "1.2.3.4.5", "256.1.1.1", "01.2.3.4", "1.2.3.4 ", ":::", "1::2::3", "12345::"] {
        assert!(IpAddr::from_text(bad).is_none(), "{bad:?} is no address");
    }
}

#[test]
fn socket_addresses_have_brackets_where_needed() {
    let a = SocketAddr { ip: IpAddr::from_text("::1").unwrap(), port: 53 };
    assert_eq!(a.to_text(), "[::1]:53");
    assert_eq!(Ipv4Addr::new(1, 2, 3, 4).octets(), [1, 2, 3, 4]);
}

#[test]
fn numbers_are_read_within_bounds() {
    let read = |s: &str, base: u64, max: u64| read_unsigned(&chars_of(s), base, max);
    assert_eq!(read("255", 10, 255), Some(255));
    assert_eq!(read("256", 10, 255), None);
    assert_eq!(read("+7", 10, 255), Some(7));
    assert_eq!(read("", 10, 255), None);
    assert_eq!(read("-1", 10, 255), None);
    assert_eq!(read("fF", 16, 255), Some(255));
    assert_eq!(read("18446744073709551616", 10, u64::MAX), None);
    let mut out = String::new();
    push_decimal(&mut out, i64::MIN);
    assert_eq!(out, "-9223372036854775808");
}

#[test]
fn texts_are_taken_apart() {
    let text = |v: Vec<Vec<char>>| v.into_iter().map(|t| t.into_iter().collect::<String>()).collect::<Vec<_>>();
    assert_eq!(text(parts_of(&chars_of("a..b"), Class::Is('.'))), ["a", "", "b"]);
    assert_eq!(text(fields_of(&chars_of("  a\tb  c\n"))), ["a", "b", "c"]);
    assert_eq!(text(lines_of(&chars_of("a\r\n\nb"))), ["a", "", "b"]);
    assert!(lines_of(&chars_of("")).is_empty());
}

#[test]
fn what_was_written_is_read_back() {
    for bits in [0u32, 1, 0x0a00_0001, 0xc0a8_012a, 0x7fff_ffff, u32::MAX] {
        let a = Ipv4Addr { bits };
        assert_eq!(Ipv4Addr::parse(&chars_of(&a.to_text())), Some(a));
        let mut text = String::new();
        push_decimal(&mut text, i64::from(bits));
        assert_eq!(read_unsigned(&chars_of(&text), 10, u64::MAX), Some(u64::from(bits)));
    }
}
