use tcp_brutal_auto::addr::IpAddr;
use tcp_brutal_auto::addr_set::AddrSet;
use tcp_brutal_auto::local::{load_local, parse_fib_trie_local, parse_if_inet6, parse_ip_addr_show};
use tcp_brutal_auto::prefix::NetPrefix;

fn ip(s: &str) -> IpAddr {
    s.parse().unwrap()
}

fn net(s: &str) -> NetPrefix {
    NetPrefix::parse(s).unwrap()
}

const TRIE: &str = "Main:
  +-- 0.0.0.0/0 3 0 5
     |-- 0.0.0.0
        /0 universe UNICAST
     +-- 127.0.0.0/8 2 0 2
        |-- 127.0.0.1
           /32 host LOCAL
     |-- 192.0.2.7
        /24 link UNICAST
        /32 host LOCAL
     |-- oops
        /32 host LOCAL
";

const TABLE: &str = "00000000000000000000000000000001 01 80 10 80       lo
20010db8000000000000000000000009 02 40 00 80     eth0
20010db800000000000000000000000g 02 40 00 80     eth0
short 02

00000000000000000000ffff01020304 02 40 00 80     eth0
";

#[test]
fn parse_ip_addr_show_collects_subnets() {
    let text = "\
2: eth0    inet 8.8.8.10/24 brd 8.8.8.255 scope global
2: eth0    inet6 2001:db8::1/64 scope global
3: lo      inet 127.0.0.1/8 scope host
";
    let mut ips = AddrSet::new();
    let mut nets = Vec::new();
    parse_ip_addr_show(text, &mut ips, &mut nets);
    assert!(ips.contains("8.8.8.10".parse::<IpAddr>().unwrap()));
    assert!(nets.iter().any(|n| n.contains("8.8.8.50".parse().unwrap())));
}

#[test]
fn shown_addresses_and_networks() {
    let text = "\
1: eth0 inet 8.8.8.10/24 scope global inet6 2001:db8::1/64
2: eth1 inet 8.8.8.10/24
3: eth2 inet 9.9.9.9/32 inet inet 7.7.7.7/8
4: eth3 inet oops inet6
5.5.5.5/8 inet 0.0.0.0/0
";
    let mut ips = AddrSet::new();
    ips.insert(ip("1.1.1.1"));
    let mut nets = vec![net("6.0.0.0/8")];
    parse_ip_addr_show(text, &mut ips, &mut nets);
    assert_eq!(nets, vec![net("6.0.0.0/8"), net("8.8.8.10/24"), net("2001:db8::1/64")]);
    for s in ["1.1.1.1", "8.8.8.10", "2001:db8::1", "9.9.9.9", "0.0.0.0"] {
        assert!(ips.contains(ip(s)), "{}", s);
    }
    assert_eq!(ips.len(), 5);
}

#[test]
fn local_addresses_of_the_trie() {
    let mut set = AddrSet::new();
    parse_fib_trie_local(TRIE, &mut set);
    assert!(set.contains(ip("127.0.0.1")));
    assert!(set.contains(ip("192.0.2.7")));
    assert_eq!(set.len(), 2);
}

#[test]
fn interface_addresses_of_the_table() {
    let mut set = AddrSet::new();
    parse_if_inet6(TABLE, &mut set);
    assert!(set.contains(ip("::1")));
    assert!(set.contains(ip("2001:db8::9")));
    assert!(set.contains(ip("1.2.3.4")));
    assert_eq!(set.len(), 3);
}

#[test]
fn tables_stand_in_for_the_listing() {
    let (ips, nets) = load_local(Some("2: eth0 inet 8.8.8.10/24"), Some(TRIE), Some(TABLE));
    assert_eq!(ips.to_vec(), vec![ip("8.8.8.10")]);
    assert_eq!(nets, vec![net("8.8.8.10/24")]);
    let (ips, nets) = load_local(Some(""), Some(TRIE), Some(TABLE));
    assert_eq!(ips.len(), 5);
    assert!(nets.is_empty());
    let (ips, nets) = load_local(None, None, Some(TABLE));
    assert_eq!(ips.len(), 3);
    assert!(nets.is_empty());
    let (ips, _) = load_local(None, None, None);
    assert!(ips.is_empty());
}
