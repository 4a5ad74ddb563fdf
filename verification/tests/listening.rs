use tcp_brutal_auto::addr::IpAddr;
use tcp_brutal_auto::addr_set::AddrSet;
use tcp_brutal_auto::conntrack::peer_from_conntrack;
use tcp_brutal_auto::proc::{
    parse_hex_u32_le, parse_ipv4_hex, parse_ipv6_hex, parse_proc_tcp_line, proc_reason, want_state,
};
use tcp_brutal_auto::trace::{kv_after, parse_trace_line};

fn ip(s: &str) -> IpAddr {
    s.parse().unwrap()
}

#[test]
fn parse_trace_syn_recv_v4() {
    let line = "nginx-1234 [002] .... 12345.678: inet_sock_set_state: family=AF_INET protocol=IPPROTO_TCP sport=443 dport=54321 saddr=10.0.0.1 daddr=203.0.113.5 saddrv6=::ffff:10.0.0.1 daddrv6=::ffff:203.0.113.5 oldstate=TCP_CLOSE newstate=TCP_SYN_RECV";
    assert_eq!(parse_trace_line(line), Some("203.0.113.5".parse().unwrap()));
}

#[test]
fn parse_trace_ignores_established() {
    let line =
        "x [0] inet_sock_set_state: family=AF_INET daddr=1.2.3.4 newstate=TCP_ESTABLISHED";
    assert_eq!(parse_trace_line(line), None);
}

#[test]
fn handshake_states() {
    for st in [
        "TCP_SYN_SENT", "TCP_SYN_RECV", "TCP_NEW_SYN_RECV", "SYN_SENT", "SYN_RECV",
        "NEW_SYN_RECV", "2", "3", "12", "3,",
    ] {
        let line = format!("family=AF_INET daddr=1.2.3.4 newstate={}", st);
        assert_eq!(parse_trace_line(&line), Some(ip("1.2.3.4")), "{}", st);
    }
    for st in ["", "1", "4", "TCP_CLOSE", "syn_sent", "TCP_SYN_SENT;"] {
        let line = format!("family=AF_INET daddr=1.2.3.4 newstate={}", st);
        assert_eq!(parse_trace_line(&line), None, "{}", st);
    }
}

#[test]
fn trace_of_the_other_family() {
    let line = "family=AF_INET6 daddr=0.0.0.0 daddrv6=2001:db8::1 newstate=2";
    assert_eq!(parse_trace_line(line), Some(ip("2001:db8::1")));
    let line = "family=10, daddr=9.9.9.9 daddrv6=::ffff:1.2.3.4 newstate=2";
    assert_eq!(parse_trace_line(line), Some(ip("1.2.3.4")));
    let line = "family=10 daddr=9.9.9.9 daddrv6=oops newstate=2";
    assert_eq!(parse_trace_line(line), Some(ip("9.9.9.9")));
    let line = "family=AF_INET daddr=oops daddrv6=2001:db8::1 newstate=2";
    assert_eq!(parse_trace_line(line), None);
    let line = "daddr=9.9.9.9 newstate=2";
    assert_eq!(parse_trace_line(line), Some(ip("9.9.9.9")));
    assert_eq!(parse_trace_line("family=AF_INET newstate=2"), None);
    assert_eq!(parse_trace_line(""), None);
}

#[test]
fn value_after_a_key() {
    assert_eq!(kv_after("a=1 b=2,, c=", "b="), Some("2"));
    assert_eq!(kv_after("a=1 b=2,, c=", "a="), Some("1"));
    assert_eq!(kv_after("a=1 b=2,, c=", "c="), None);
    assert_eq!(kv_after("a=1 b=2,, c=", "d="), None);
    assert_eq!(kv_after("a= \t 1", "a="), Some("1"));
    assert_eq!(kv_after("a=1 a=2", "a="), Some("1"));
    assert_eq!(kv_after("速率=九 x", "速率="), Some("九"));
    assert_eq!(kv_after("a=,,", "a="), Some(""));
}

#[test]
fn parse_conntrack_inbound() {
    let line = "    [NEW] tcp      6 120 SYN_SENT src=203.0.113.9 dst=10.0.0.2 sport=443 dport=12345 [UNREPLIED] src=10.0.0.2 dst=203.0.113.9 sport=12345 dport=443";
    let mut local = AddrSet::new();
    local.insert("10.0.0.2".parse().unwrap());
    assert_eq!(
        peer_from_conntrack(line, &local),
        Some("203.0.113.9".parse().unwrap())
    );
}

#[test]
fn parse_conntrack_outbound() {
    let line = "    [NEW] tcp      6 120 SYN_SENT src=10.0.0.2 dst=1.1.1.1 sport=9999 dport=443 [UNREPLIED] src=1.1.1.1 dst=10.0.0.2 sport=443 dport=9999";
    let mut local = AddrSet::new();
    local.insert("10.0.0.2".parse().unwrap());
    assert_eq!(
        peer_from_conntrack(line, &local),
        Some("1.1.1.1".parse().unwrap())
    );
}

#[test]
fn tracked_peer_is_the_remote_end() {
    let mut local = AddrSet::new();
    local.insert(ip("10.0.0.2"));
    local.insert(ip("10.0.0.3"));
    assert_eq!(peer_from_conntrack("src=10.0.0.2 dst=10.0.0.3", &local), None);
    assert_eq!(peer_from_conntrack("src=1.1.1.1 dst=2.2.2.2", &local), None);
    assert_eq!(peer_from_conntrack("src=10.0.0.2", &local), None);
    assert_eq!(peer_from_conntrack("", &local), None);
    assert_eq!(peer_from_conntrack("src=127.0.0.1 dst=2.2.2.2", &local), Some(ip("2.2.2.2")));
    assert_eq!(peer_from_conntrack("dst=::1 src=2001:db8::9", &local), Some(ip("2001:db8::9")));
    assert_eq!(
        peer_from_conntrack("src=oops src=10.0.0.2 dst=::ffff:8.8.8.8 dst=9.9.9.9", &local),
        Some(ip("8.8.8.8"))
    );
}

#[test]
fn states_that_count() {
    let counted: Vec<u8> = (0..=255).filter(|st| want_state(*st)).collect();
    assert_eq!(counted, vec![1, 2, 3, 12]);
    assert_eq!(proc_reason(2), "proc-syn-sent");
    assert_eq!(proc_reason(3), "proc-syn-recv");
    assert_eq!(proc_reason(12), "proc-syn-recv");
    assert_eq!(proc_reason(1), "proc-est");
}

#[test]
fn kernel_hexadecimal() {
    assert_eq!(parse_hex_u32_le("0100007F"), Some(0x0100_007f));
    assert_eq!(parse_hex_u32_le("+fF"), Some(255));
    assert_eq!(parse_hex_u32_le(""), None);
    assert_eq!(parse_hex_u32_le("100000000"), None);
    assert_eq!(parse_hex_u32_le("xyz"), None);
    assert_eq!(parse_ipv4_hex("0100007F"), Some(ip("127.0.0.1")));
    assert_eq!(parse_ipv4_hex("04030201"), Some(ip("1.2.3.4")));
    assert_eq!(parse_ipv4_hex("0403020100"), None);
    assert_eq!(parse_ipv6_hex("B80D0120000000000000000001000000"), Some(ip("2001:db8::1")));
    assert_eq!(parse_ipv6_hex("0000000000000000FFFF000004030201"), Some(ip("1.2.3.4")));
    assert_eq!(parse_ipv6_hex("B80D012000000000000000000100000"), None);
    assert_eq!(parse_ipv6_hex("B80D01200000000000000000010000zz"), None);
    assert_eq!(parse_ipv6_hex("九九九九九九九九九九aa"), None);
}

#[test]
fn socket_table_lines() {
    let head = "  sl  local_address rem_address   st tx_queue rx_queue";
    let line = "   0: 0100007F:0035 04030201:01BB 02 00000000:00000000 00:00000000 00000000";
    assert_eq!(parse_proc_tcp_line(0, head, false), None);
    assert_eq!(parse_proc_tcp_line(0, line, false), None);
    assert_eq!(parse_proc_tcp_line(1, line, false), Some((ip("1.2.3.4"), 2)));
    assert_eq!(parse_proc_tcp_line(1, line, true), None);
    assert_eq!(parse_proc_tcp_line(7, "0: x 04030201:01BB 0A", false), None);
    assert_eq!(parse_proc_tcp_line(7, "0: x 04030201:01BB zz", false), None);
    assert_eq!(parse_proc_tcp_line(7, "0: x 04030201 01", false), None);
    assert_eq!(parse_proc_tcp_line(7, "0: x 04030201:01BB", false), None);
    assert_eq!(
        parse_proc_tcp_line(2, "0: x B80D0120000000000000000001000000:0016 0C", true),
        Some((ip("2001:db8::1"), 12))
    );
}
