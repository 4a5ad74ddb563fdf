use tcp_brutal_auto::addr::{canonicalize, is_always_skip, is_lan_addr, is_v6_site_local, loopback, IpAddr};
use tcp_brutal_auto::prefix::{in_nets, prefix_of, NetPrefix, PrefixSet};
use tcp_brutal_auto::ranges::{
    canonical_ranges, merge_v4_ranges, merge_v6_ranges, range_contains_v4, range_contains_v6,
};

fn ip(s: &str) -> IpAddr {
    s.parse().unwrap()
}

fn net(s: &str) -> NetPrefix {
    NetPrefix::parse(s).unwrap()
}

#[test]
fn on_link_subnet_is_lan() {
    let net = NetPrefix::parse("8.8.8.10/24").unwrap();
    assert!(net.is_subnet());
    assert!(net.contains(ip("8.8.8.99")));
    assert!(!net.contains(ip("8.8.9.1")));
    let host = NetPrefix::parse("8.8.8.10/32").unwrap();
    assert!(!host.is_subnet());
}

#[test]
fn skip_rfc1918_cgnat_and_loopback() {
    assert!(is_lan_addr("10.1.2.3".parse().unwrap()));
    assert!(is_lan_addr("192.168.0.8".parse().unwrap()));
    assert!(is_lan_addr("172.16.5.1".parse().unwrap()));
    assert!(is_lan_addr("100.64.0.10".parse().unwrap()));
    assert!(is_lan_addr("fd12:3456::1".parse().unwrap()));
    assert!(!is_lan_addr("1.1.1.1".parse().unwrap()));
    assert!(is_always_skip("127.0.0.1".parse().unwrap()));
    assert!(is_always_skip("169.254.1.1".parse().unwrap()));
    assert!(is_always_skip("::1".parse().unwrap()));
    assert!(is_always_skip("fe80::1".parse().unwrap()));
}

#[test]
fn bounds_of_the_local_ranges() {
    for s in [
        "10.0.0.0", "10.255.255.255", "172.16.0.0", "172.31.255.255", "192.168.0.0",
        "192.168.255.255", "192.0.2.0", "192.0.2.255", "198.51.100.0", "198.51.100.255",
        "203.0.113.0", "203.0.113.255", "100.64.0.0", "100.127.255.255", "198.18.0.0",
        "198.19.255.255", "fc00::", "fdff:ffff::1", "fec0::", "feff:ffff::1", "2001:db8::",
        "2001:db8:ffff:ffff::1",
    ] {
        assert!(is_lan_addr(ip(s)), "{}", s);
    }
    for s in [
        "9.255.255.255", "11.0.0.0", "172.15.255.255", "172.32.0.0", "192.167.255.255",
        "192.169.0.0", "192.0.1.255", "192.0.3.0", "198.51.99.255", "198.51.101.0",
        "203.0.112.255", "203.0.114.0", "100.63.255.255", "100.128.0.0", "198.17.255.255",
        "198.20.0.0", "fbff::", "fe00::", "febf::1", "ff00::", "2001:db7:ffff::",
        "2001:db9::", "2606:4700::1111",
    ] {
        assert!(!is_lan_addr(ip(s)), "{}", s);
    }
}

#[test]
fn bounds_of_what_is_always_left_out() {
    for s in [
        "0.0.0.0", "127.0.0.0", "127.255.255.255", "169.254.0.0", "169.254.255.255", "224.0.0.0",
        "239.255.255.255", "255.255.255.255", "::", "::1", "fe80::", "febf:ffff::", "ff00::",
        "ffff::1",
    ] {
        assert!(is_always_skip(ip(s)), "{}", s);
    }
    for s in [
        "0.0.0.1", "126.255.255.255", "128.0.0.0", "169.253.255.255", "169.255.0.0",
        "223.255.255.255", "240.0.0.0", "255.255.255.254", "::2", "fe7f:ffff::", "fec0::",
        "feff::", "10.0.0.1",
    ] {
        assert!(!is_always_skip(ip(s)), "{}", s);
    }
}

#[test]
fn loopback_and_site_local() {
    assert!(loopback(ip("127.3.2.1")));
    assert!(loopback(ip("::1")));
    assert!(!loopback(ip("128.0.0.1")));
    assert!(!loopback(ip("::2")));
    assert!(is_v6_site_local(0xfec0 << 112));
    assert!(is_v6_site_local(0xfeff << 112));
    assert!(!is_v6_site_local(0xfe80 << 112));
}

#[test]
fn mapped_address_is_the_same_peer() {
    assert_eq!(canonicalize(ip("::ffff:1.2.3.4")), ip("1.2.3.4"));
    assert_eq!(canonicalize(ip("::1.2.3.4")), ip("::1.2.3.4"));
    assert_eq!(canonicalize(ip("2001:db8::1")), ip("2001:db8::1"));
    assert_eq!(canonicalize(canonicalize(ip("::ffff:1.2.3.4"))), ip("1.2.3.4"));
}

#[test]
fn prefix_forms() {
    assert_eq!(net("1.2.3.4"), NetPrefix { addr: ip("1.2.3.4"), plen: 32 });
    assert_eq!(net("2001:db8::1"), NetPrefix { addr: ip("2001:db8::1"), plen: 128 });
    assert_eq!(net("::ffff:1.2.3.4"), NetPrefix { addr: ip("1.2.3.4"), plen: 32 });
    assert_eq!(net("::ffff:1.2.3.4/24"), NetPrefix { addr: ip("1.2.3.4"), plen: 24 });
    assert_eq!(net("1.2.3.4/0"), NetPrefix { addr: ip("1.2.3.4"), plen: 0 });
    assert_eq!(net("1.2.3.4/+8"), NetPrefix { addr: ip("1.2.3.4"), plen: 8 });
    assert_eq!(net("::/128"), NetPrefix { addr: ip("::"), plen: 128 });
    for s in [
        "", "/", "/8", "1.2.3.4/", "1.2.3.4/33", "1.2.3.4/256", "1.2.3.4/-1", "1.2.3.4/8/8",
        "::/129", "::ffff:1.2.3.4/128", "host", "1.2.3/8", " 1.2.3.4",
    ] {
        assert_eq!(NetPrefix::parse(s), None, "{}", s);
    }
}

#[test]
fn prefix_of_a_peer_reads_back() {
    assert_eq!(prefix_of(ip("1.2.3.4")), "1.2.3.4/32");
    assert_eq!(prefix_of(ip("2001:db8:0:0:0:0:0:1")), "2001:db8::1/128");
    for s in ["1.2.3.4", "255.255.255.255", "0.0.0.0", "::", "2001:db8::1", "1:2:3:4:5:6:7:8"] {
        let p = net(&prefix_of(ip(s)));
        assert_eq!(p.addr, ip(s));
        assert!(p.contains(ip(s)));
        assert!(!p.is_subnet());
    }
}

#[test]
fn prefix_matches_by_leading_bits() {
    assert!(net("10.0.0.0/8").contains(ip("10.255.0.1")));
    assert!(!net("10.0.0.0/8").contains(ip("11.0.0.0")));
    assert!(net("0.0.0.0/0").contains(ip("255.1.2.3")));
    assert!(!net("0.0.0.0/0").contains(ip("::1")));
    assert!(net("::/0").contains(ip("ffff::1")));
    assert!(!net("::/0").contains(ip("1.2.3.4")));
    assert!(net("2001:db8::/33").contains(ip("2001:db8:7fff::1")));
    assert!(!net("2001:db8::/33").contains(ip("2001:db8:8000::1")));
    assert!(net("1.2.3.4").contains(ip("1.2.3.4")));
    assert!(!net("1.2.3.4").contains(ip("1.2.3.5")));
    assert!(net("8.8.8.8/31").is_subnet());
    assert!(!net("8.8.8.8/0").is_subnet());
    assert!(net("::/127").is_subnet());
    assert!(!net("::/128").is_subnet());
}

#[test]
fn prefix_set_holds_what_its_prefixes_match() {
    let set = PrefixSet::from_prefixes(vec![net("10.0.0.0/8"), net("2001:db8::/32"), net("1.1.1.1")]);
    assert!(!set.is_empty());
    assert_eq!(set.len(), 3);
    assert!(in_nets(ip("10.200.0.1"), &set));
    assert!(in_nets(ip("2001:db8:ffff::"), &set));
    assert!(set.contains(ip("1.1.1.1")));
    assert!(!set.contains(ip("1.1.1.0")));
    assert!(!set.contains(ip("1.1.1.2")));
    assert!(!set.contains(ip("2001:db9::")));
    let none = PrefixSet::from_prefixes(vec![]);
    assert!(none.is_empty());
    assert_eq!(none.len(), 0);
    assert!(!none.contains(ip("0.0.0.0")));
}

#[test]
fn prefix_set_does_not_depend_on_order_or_repeats() {
    let a = PrefixSet::from_prefixes(vec![net("5.0.0.0/8"), net("1.1.1.0/24"), net("1.1.0.0/16")]);
    let b = PrefixSet::from_prefixes(vec![
        net("1.1.0.0/16"), net("5.0.0.0/8"), net("1.1.1.0/24"), net("5.0.0.0/8"),
    ]);
    assert_eq!(a.v4, b.v4);
    assert_eq!(a.v4, vec![(0x0101_0000, 0x0101_ffff), (0x0500_0000, 0x05ff_ffff)]);
    assert_eq!(a.v6, b.v6);
}

#[test]
fn prefix_set_of_everything() {
    let set = PrefixSet::from_prefixes(vec![net("0.0.0.0/0"), net("::/0"), net("1.2.3.4")]);
    assert_eq!(set.v4, vec![(0, u32::MAX)]);
    assert_eq!(set.v6, vec![(0, u128::MAX)]);
}

#[test]
fn ranges_that_meet_are_merged() {
    assert_eq!(merge_v4_ranges(vec![(1, 3), (4, 6), (8, 9)]), vec![(1, 6), (8, 9)]);
    assert_eq!(merge_v4_ranges(vec![(1, 9), (2, 3), (9, 10)]), vec![(1, 10)]);
    assert_eq!(merge_v4_ranges(vec![(0, u32::MAX), (5, 6)]), vec![(0, u32::MAX)]);
    assert_eq!(merge_v4_ranges(vec![]), vec![]);
    assert_eq!(merge_v6_ranges(vec![(1, 3), (4, u128::MAX), (9, 12)]), vec![(1, u128::MAX)]);
    assert_eq!(canonical_ranges::<u32>(vec![(8, 9), (4, 6), (1, 3)]), vec![(1, 6), (8, 9)]);
}

#[test]
fn range_search() {
    let r: [(u32, u32); 3] = [(2, 4), (6, 6), (9, 12)];
    let inside: Vec<u32> = (0..14).filter(|n| range_contains_v4(&r, *n)).collect();
    assert_eq!(inside, vec![2, 3, 4, 6, 9, 10, 11, 12]);
    let r: [(u128, u128); 2] = [(0, 1), (u128::MAX, u128::MAX)];
    assert!(range_contains_v6(&r, 0));
    assert!(!range_contains_v6(&r, 2));
    assert!(range_contains_v6(&r, u128::MAX));
    assert!(!range_contains_v6(&[], 0));
}
