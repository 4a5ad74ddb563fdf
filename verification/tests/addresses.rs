use tcp_brutal_auto::addr::IpAddr;
use tcp_brutal_auto::addr_set::AddrSet;
use tcp_brutal_auto::addr_text::{parse_ip_token, push_ip};

fn written(ip: IpAddr) -> String {
    let mut s = String::from("<");
    push_ip(&mut s, ip);
    s.push('>');
    s
}

#[test]
fn address_forms_read() {
    let v4 = |s: &str| s.parse::<IpAddr>().ok();
    assert_eq!(v4("1.2.3.4"), Some(IpAddr::V4(0x0102_0304)));
    assert_eq!(v4("255.255.255.255"), Some(IpAddr::V4(u32::MAX)));
    assert_eq!(v4("::"), Some(IpAddr::V6(0)));
    assert_eq!(v4("::1"), Some(IpAddr::V6(1)));
    assert_eq!(v4("1::"), Some(IpAddr::V6(1 << 112)));
    assert_eq!(v4("2001:DB8::aBcD"), Some(IpAddr::V6((0x2001_0db8 << 96) + 0xabcd)));
    assert_eq!(v4("1:2:3:4:5:6:7:8"), Some(IpAddr::V6(0x0001_0002_0003_0004_0005_0006_0007_0008)));
    assert_eq!(v4("::ffff:1.2.3.4"), Some(IpAddr::V6(0xffff_0102_0304)));
    assert_eq!(v4("64:ff9b::1.2.3.4"), Some(IpAddr::V6((0x64_ff9b << 96) + 0x0102_0304)));
    assert_eq!(v4("1:2:3:4:5:6:1.2.3.4"), Some(IpAddr::V6(0x0001_0002_0003_0004_0005_0006_0102_0304)));
    assert_eq!(v4("1:2:3:4:5:6:7::"), Some(IpAddr::V6(0x0001_0002_0003_0004_0005_0006_0007_0000)));
}

#[test]
fn what_is_no_address() {
    for s in [
        "", "1", "1.2.3", "1.2.3.4.5", "1.2.3.256", "01.2.3.4", "1.2.3.04", "1..3.4", "1.2.3.+4",
        " 1.2.3.4", "1.2.3.4 ", ":", ":::", "1:2:3:4:5:6:7", "1:2:3:4:5:6:7:8:9", "1::2::3",
        "12345::", "g::", "1:2:3:4:5:6:7:8::", "::1.2.3", "1.2.3.4::", "fe80::1%eth0", "[::1]",
        "::+1", "1:2:3:4:5:6:7:1.2.3.4", "0x1.2.3.4",
    ] {
        assert!(s.parse::<IpAddr>().is_err(), "{}", s);
        assert_eq!(parse_ip_token(s), None, "{}", s);
    }
}

#[test]
fn token_is_a_peer() {
    assert_eq!(parse_ip_token("1.2.3.4"), Some(IpAddr::V4(0x0102_0304)));
    assert_eq!(parse_ip_token("::ffff:1.2.3.4"), Some(IpAddr::V4(0x0102_0304)));
    assert_eq!(parse_ip_token("::1"), Some(IpAddr::V6(1)));
}

#[test]
fn written_forms() {
    for (s, t) in [
        ("1.2.3.4", "<1.2.3.4>"),
        ("0.0.0.0", "<0.0.0.0>"),
        ("::", "<::>"),
        ("::1", "<::1>"),
        ("1::", "<1::>"),
        ("0:0:1::", "<0:0:1::>"),
        ("1:0:0:2:0:0:0:3", "<1:0:0:2::3>"),
        ("1:0:0:2:0:0:3:4", "<1::2:0:0:3:4>"),
        ("1:0:2:3:4:5:6:7", "<1:0:2:3:4:5:6:7>"),
        ("2001:DB8::ABCD", "<2001:db8::abcd>"),
        ("::ffff:1.2.3.4", "<::ffff:1.2.3.4>"),
        ("::1.2.3.4", "<::102:304>"),
    ] {
        assert_eq!(written(s.parse().unwrap()), t);
    }
}

#[test]
fn written_address_reads_back() {
    for n in [0u128, 1, 0xffff, 0x1_0000, 0xffff_0102_0304, 1 << 127, u128::MAX, 0x2001_0db8 << 96] {
        let mut s = String::new();
        push_ip(&mut s, IpAddr::V6(n));
        assert_eq!(s.parse::<IpAddr>().unwrap(), IpAddr::V6(n));
    }
    for n in [0u32, 1, 255, 256, 0x7f00_0001, u32::MAX] {
        let mut s = String::new();
        push_ip(&mut s, IpAddr::V4(n));
        assert_eq!(s.parse::<IpAddr>().unwrap(), IpAddr::V4(n));
    }
}

#[test]
fn address_set() {
    let a = IpAddr::V4(1);
    let b = IpAddr::V6(1);
    let mut set = AddrSet::new();
    assert!(set.is_empty());
    assert_eq!(set.len(), 0);
    assert!(set.insert(a));
    assert!(!set.insert(a));
    assert!(set.contains(a));
    assert!(!set.contains(b));
    assert!(set.insert(b));
    assert_eq!(set.len(), 2);
    assert_eq!(set.to_vec(), vec![a, b]);
    assert!(set.remove(a));
    assert!(!set.remove(a));
    assert!(!set.is_empty());
    assert_eq!(set.to_vec(), vec![b]);
}
