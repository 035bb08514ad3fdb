use netwatch::addr::Ipv4Addr;
use netwatch::netinfo::{
    hex_le_to_ipv4, parse_arp_table, parse_default_route, parse_iface_counters, parse_lan_subnet,
    parse_meminfo, Subnet, SubnetError,
};

const ROUTE_SAMPLE: &str = "\
Iface\tDestination\tGateway \tFlags\tRefCnt\tUse\tMetric\tMask\t\tMTU\tWindow\tIRTT
eth0\t00000000\t0101A8C0\t0003\t0\t0\t202\t00000000\t0\t0\t0
eth0\t0001A8C0\t00000000\t0001\t0\t0\t202\t00FFFFFF\t0\t0\t0
wlan0\t0000FEA9\t00000000\t0001\t0\t0\t303\t0000FFFF\t0\t0\t0
";

#[test]
fn parses_default_gateway() {
    let r = parse_default_route(ROUTE_SAMPLE).expect("default route");
    assert_eq!(r.iface, "eth0");
    assert_eq!(r.gateway, Ipv4Addr::new(192, 168, 1, 1));
}

#[test]
fn parses_lan_subnet_and_skips_link_local() {
    let s = parse_lan_subnet(ROUTE_SAMPLE, "eth0").expect("lan subnet");
    assert_eq!(s.network, Ipv4Addr::new(192, 168, 1, 0));
    assert_eq!(s.prefix_len, 24);
    // wlan0's only route is 169.254/16, which must be ignored.
    assert!(parse_lan_subnet(ROUTE_SAMPLE, "wlan0").is_none());
}

#[test]
fn subnet_contains_and_enumerates() {
    let s = Subnet::parse_cidr("192.168.1.0/24").unwrap();
    assert!(s.contains(Ipv4Addr::new(192, 168, 1, 57)));
    assert!(!s.contains(Ipv4Addr::new(192, 168, 2, 57)));
    let hosts = s.hosts();
    assert_eq!(hosts.len(), 254);
    assert_eq!(hosts[0], Ipv4Addr::new(192, 168, 1, 1));
    assert_eq!(hosts[253], Ipv4Addr::new(192, 168, 1, 254));
}

#[test]
fn refuses_to_enumerate_huge_subnets() {
    assert!(Subnet::parse_cidr("10.0.0.0/8").unwrap().hosts().is_empty());
}

#[test]
fn parses_arp_table_skipping_incomplete() {
    let sample = "\
IP address       HW type     Flags       HW address            Mask     Device
192.168.1.1      0x1         0x2         b8:27:eb:aa:bb:cc     *        eth0
192.168.1.99     0x1         0x0         00:00:00:00:00:00     *        eth0
192.168.1.42     0x1         0x2         5c:cf:7f:11:22:33     *        eth0
";
    let entries = parse_arp_table(sample);
    assert_eq!(entries.len(), 2);
    assert_eq!(entries[0].mac, "b8:27:eb:aa:bb:cc");
    assert_eq!(entries[1].ip, Ipv4Addr::new(192, 168, 1, 42));
}

#[test]
fn parses_iface_counters_row() {
    assert!(parse_iface_counters("one\ntwo\nno colon here\n").is_empty());
    assert!(parse_iface_counters("one\ntwo\n eth0: 1 2 3\n").is_empty());
}

#[test]
fn parses_iface_counters_of_a_sample() {
    let c = parse_iface_counters(COUNTERS);
    assert_eq!(c[0].tx_packets, 60);
    assert_eq!(c[0].rx_dropped, 2);
    assert_eq!(c[0].tx_errors, 4);
}

const COUNTERS: &str = "\
Inter-|   Receive                                                |  Transmit
 face |bytes    packets errs drop fifo frame compressed multicast|bytes    packets errs drop fifo colls carrier compressed
    lo: 1000      10    0    0    0     0          0         0     1000      10    0    0    0     0       0          0
  eth0: 5000      50    1    2    0     0          0         3     6000      60    4    5    0     0       0          0
";

#[test]
fn parses_iface_counters() {
    let c = netwatch::netinfo::parse_iface_counters(COUNTERS);
    assert_eq!(c.len(), 1, "loopback should be skipped");
    assert_eq!(c[0].iface, "eth0");
    assert_eq!(c[0].rx_bytes, 5000);
    assert_eq!(c[0].tx_bytes, 6000);
    assert_eq!(c[0].rx_errors, 1);
    assert_eq!(c[0].tx_dropped, 5);
}

#[test]
fn the_most_specific_route_is_the_lan() {
    let table = "header\n\
        eth0\t0000000A\t00000000\t0001\t0\t0\t0\t000000FF\t0\t0\t0\n\
        eth0\t0000640A\t00000000\t0001\t0\t0\t0\t0000FFFF\t0\t0\t0\n\
        eth1\t0001A8C0\t00000000\t0001\t0\t0\t0\t00FFFFFF\t0\t0\t0\n";
    let s = parse_lan_subnet(table, "eth0").unwrap();
    assert_eq!(s.to_text(), "10.100.0.0/16");
}

#[test]
fn each_way_of_writing_a_network_wrong_is_told_apart() {
    let e = Subnet::parse_cidr("192.168.1.0").unwrap_err();
    assert!(matches!(e, SubnetError::NoPrefix { .. }));
    assert_eq!(
        e.message(),
        "\"192.168.1.0\" is not CIDR notation, expected e.g. 192.168.1.0/24"
    );
    let e = Subnet::parse_cidr("home/24").unwrap_err();
    assert_eq!(e.message(), "bad address \"home\"");
    let e = Subnet::parse_cidr("10.0.0.0/many").unwrap_err();
    assert_eq!(e.message(), "bad prefix \"many\"");
    let e = Subnet::parse_cidr("10.0.0.0/33").unwrap_err();
    assert_eq!(e.message(), "prefix /33 out of range");
    assert_eq!(Subnet::parse_cidr(" 10.0.0.0 / 8 ").unwrap().prefix_len, 8);
}

#[test]
fn masks_have_the_bits_of_their_prefix() {
    let mask = |p: u8| Subnet { network: Ipv4Addr::new(0, 0, 0, 0), prefix_len: p }.netmask();
    assert_eq!(mask(0), 0);
    assert_eq!(mask(1), 0x8000_0000);
    assert_eq!(mask(24), 0xffff_ff00);
    assert_eq!(mask(32), 0xffff_ffff);
}

#[test]
fn small_networks_have_hosts_too() {
    assert_eq!(Subnet::parse_cidr("192.168.1.8/30").unwrap().hosts().len(), 2);
    assert!(Subnet::parse_cidr("192.168.1.8/31").unwrap().hosts().is_empty());
    let wide = Subnet::parse_cidr("10.1.77.9/16").unwrap().hosts();
    assert_eq!(wide.len(), 65534);
    assert_eq!(wide[0], Ipv4Addr::new(10, 1, 0, 1));
}

#[test]
fn kernel_addresses_are_read_in_reverse() {
    let c: Vec<char> = "0101A8C0".chars().collect();
    assert_eq!(hex_le_to_ipv4(&c), Some(Ipv4Addr::new(192, 168, 1, 1)));
    let c: Vec<char> = "xyz".chars().collect();
    assert_eq!(hex_le_to_ipv4(&c), None);
}

#[test]
fn neighbours_elsewhere_are_not_local() {
    let sample = "header\n192.168.1.1 0x1 0x2 b8:27:eb:aa:bb:cc * eth0\n";
    let e = &parse_arp_table(sample)[0];
    let lan = Subnet::parse_cidr("192.168.1.0/24").unwrap();
    let other = Subnet::parse_cidr("10.0.0.0/8").unwrap();
    assert!(e.is_local(Some("eth0"), Some(lan)));
    assert!(e.is_local(None, None));
    assert!(!e.is_local(Some("tun0"), Some(lan)));
    assert!(!e.is_local(Some("eth0"), Some(other)));
}

#[test]
fn memory_is_read_by_name() {
    let m = parse_meminfo("MemTotal:  949444 kB\nMemFree: 1 kB\nMemAvailable: 700000 kB\n");
    assert_eq!(m.total_kb, 949444);
    assert_eq!(m.available_kb, 700000);
    assert_eq!(parse_meminfo("nothing\nMemTotal: much kB\n").total_kb, 0);
}

#[test]
fn a_network_that_was_written_is_read_back() {
    for prefix_len in 0..=32u8 {
        let s = Subnet::parse_cidr(&format!("172.20.77.130/{prefix_len}")).unwrap();
        assert_eq!(s.prefix_len, prefix_len);
        assert_eq!(Subnet::parse_cidr(&s.to_text()).unwrap(), s);
    }
    assert_eq!(Subnet::parse_cidr("10.1.2.3/8").unwrap().to_text(), "10.1.2.3/8");
}

#[test]
fn every_inner_address_is_a_host() {
    let s = Subnet::parse_cidr("10.9.8.7/29").unwrap();
    let hosts = s.hosts();
    for last in 0..=255u8 {
        let ip = Ipv4Addr::new(10, 9, 8, last);
        assert_eq!(hosts.contains(&ip), (1..=6).contains(&last));
        assert_eq!(s.contains(ip), last < 8);
    }
}
