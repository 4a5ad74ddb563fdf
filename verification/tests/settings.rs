use tcp_brutal_auto::addr::IpAddr;
use tcp_brutal_auto::clock::{audit_due, now_stamp, refresh_due};
use tcp_brutal_auto::config::{
    env_bool, env_opt, env_u64, lacks_tool, load_config, load_whitelist, poll_interval, startup,
    Config, Env, Startup,
};
use tcp_brutal_auto::paths::{search_dirs, tracing_root};
use tcp_brutal_auto::prefix::{in_nets, NetPrefix, PrefixSet};
use tcp_brutal_auto::whitelist::parse_whitelist_text;

fn empty() -> Env {
    Env {
        interval_ms: None,
        include_private: None,
        whitelist: None,
        whitelist_file: None,
        noroute: None,
        dry_run: None,
        trace: None,
        conntrack: None,
    }
}

fn given(list: Option<&str>, file: Option<&str>, is_file: bool) -> Result<Config, String> {
    let env = Env {
        whitelist: list.map(String::from),
        whitelist_file: file.map(String::from),
        ..empty()
    };
    load_config(&env, is_file)
}

fn net(s: &str) -> NetPrefix {
    NetPrefix::parse(s).unwrap()
}

#[test]
fn parse_whitelist_cidrs_and_comments() {
    let nets = PrefixSet::from_prefixes(
        parse_whitelist_text("# clients\n203.0.113.5\n5.6.7.0/24  ;  8.8.8.8/32\n# skip\n")
            .unwrap(),
    );
    let ip = |s: &str| s.parse::<IpAddr>().unwrap();
    assert!(in_nets(ip("203.0.113.5"), &nets));
    assert!(in_nets(ip("5.6.7.9"), &nets));
    assert!(!in_nets(ip("5.6.8.1"), &nets));
    assert!(in_nets(ip("8.8.8.8"), &nets));
    assert!(!in_nets(ip("1.1.1.1"), &nets));
}

#[test]
fn invalid_whitelist_is_rejected() {
    assert!(parse_whitelist_text("1.2.3.4 bad-token").is_err());
}

#[test]
fn whitelist_ranges_are_merged_and_fast() {
    let nets =
        PrefixSet::from_prefixes(parse_whitelist_text("10.0.0.0/25 10.0.0.128/25").unwrap());
    assert_eq!(
        nets.v4,
        vec![(
            u32::from_be_bytes([10, 0, 0, 0]),
            u32::from_be_bytes([10, 0, 0, 255])
        )]
    );
}

#[test]
fn list_entries_and_separators() {
    assert_eq!(
        parse_whitelist_text("1.1.1.1,2.2.2.0/24;3.3.3.3\t4.4.4.4\r\n::1").unwrap(),
        vec![net("1.1.1.1"), net("2.2.2.0/24"), net("3.3.3.3"), net("4.4.4.4"), net("::1")]
    );
    assert_eq!(parse_whitelist_text("1.1.1.1 1.1.1.1/32,1.1.1.1").unwrap(), vec![net("1.1.1.1")]);
    assert_eq!(parse_whitelist_text("").unwrap(), vec![]);
    assert_eq!(parse_whitelist_text(" ,; # 1.1.1.1\n#2.2.2.2").unwrap(), vec![]);
    assert_eq!(parse_whitelist_text("1.1.1.1#x\n2.2.2.2 # y").unwrap(), vec![net("1.1.1.1"), net("2.2.2.2")]);
    assert_eq!(parse_whitelist_text("#\n1.1.1.1").unwrap(), vec![net("1.1.1.1")]);
    assert_eq!(
        parse_whitelist_text("1.1.1.1 # a # 9.9.9.9\n2.2.2.2").unwrap(),
        parse_whitelist_text("1.1.1.1 \n2.2.2.2").unwrap()
    );
}

#[test]
fn first_bad_entry_is_reported() {
    assert_eq!(parse_whitelist_text("1.1.1.1 x y").unwrap_err(), "whitelist 无效项: x");
    assert_eq!(parse_whitelist_text("1.1.1.1/33").unwrap_err(), "whitelist 无效项: 1.1.1.1/33");
}

#[test]
fn switches() {
    for s in ["1", "true", "TRUE", "yes", "YES"] {
        assert!(env_bool(Some(s), false));
    }
    for s in ["0", "", "True", "on", " 1", "y"] {
        assert!(!env_bool(Some(s), true));
    }
    assert!(env_bool(None, true));
    assert!(!env_bool(None, false));
}

#[test]
fn numbers() {
    assert_eq!(env_u64(Some("250"), 7), 250);
    assert_eq!(env_u64(Some("+5"), 7), 5);
    assert_eq!(env_u64(Some("18446744073709551615"), 7), u64::MAX);
    assert_eq!(env_u64(Some("18446744073709551616"), 7), 7);
    assert_eq!(env_u64(Some("-1"), 7), 7);
    assert_eq!(env_u64(Some(" 5"), 7), 7);
    assert_eq!(env_u64(Some("+"), 7), 7);
    assert_eq!(env_u64(Some("0000000000000000000000009"), 7), 9);
    assert_eq!(env_u64(Some(""), 7), 7);
    assert_eq!(env_u64(None, 7), 7);
}

#[test]
fn values_without_white_space() {
    assert_eq!(env_opt(Some(" a b\t")), Some(String::from("a b")));
    assert_eq!(env_opt(Some(" \u{3000}\n")), None);
    assert_eq!(env_opt(None), None);
}

#[test]
fn default_settings() {
    let cfg = load_config(&empty(), false).unwrap();
    assert_eq!(cfg.interval_ms, 0);
    assert!(!cfg.include_private);
    assert!(!cfg.noroute);
    assert!(!cfg.dry_run);
    assert!(cfg.trace);
    assert!(cfg.conntrack);
    assert!(!cfg.whitelist_on);
    assert_eq!(cfg.whitelist_file, None);
    assert_eq!(cfg.whitelist_inline, vec![]);
}

#[test]
fn all_settings() {
    let env = Env {
        interval_ms: Some(String::from("40")),
        include_private: Some(String::from("1")),
        noroute: Some(String::from("yes")),
        dry_run: Some(String::from("true")),
        trace: Some(String::from("0")),
        conntrack: Some(String::from("no")),
        ..empty()
    };
    let cfg = load_config(&env, false).unwrap();
    assert_eq!(cfg.interval_ms, 40);
    assert!(cfg.include_private);
    assert!(cfg.noroute);
    assert!(cfg.dry_run);
    assert!(!cfg.trace);
    assert!(!cfg.conntrack);
}

#[test]
fn list_or_file() {
    let cfg = given(Some("1.2.3.4"), None, false).unwrap();
    assert!(cfg.whitelist_on);
    assert_eq!(cfg.whitelist_file, None);
    assert_eq!(cfg.whitelist_inline, vec![net("1.2.3.4")]);

    let cfg = given(Some("203.0.113.0/24,198.51.100.8"), None, false).unwrap();
    assert!(cfg.whitelist_on);
    assert_eq!(cfg.whitelist_file, None);
    assert_eq!(cfg.whitelist_inline, vec![net("203.0.113.0/24"), net("198.51.100.8")]);

    let cfg = given(Some(" /etc/list "), Some("/etc/other"), false).unwrap();
    assert!(cfg.whitelist_on);
    assert_eq!(cfg.whitelist_file, Some(String::from("/etc/list")));
    assert_eq!(cfg.whitelist_inline, vec![]);

    let cfg = given(Some("list"), None, true).unwrap();
    assert_eq!(cfg.whitelist_file, Some(String::from("list")));

    let cfg = given(Some("1.2.3.4"), Some(" /etc/other"), false).unwrap();
    assert_eq!(cfg.whitelist_file, Some(String::from("/etc/other")));
    assert_eq!(cfg.whitelist_inline, vec![net("1.2.3.4")]);

    let cfg = given(None, Some("/etc/other"), false).unwrap();
    assert!(cfg.whitelist_on);
    assert_eq!(cfg.whitelist_file, Some(String::from("/etc/other")));

    assert_eq!(given(Some("list"), None, false).unwrap_err(), "whitelist 无效项: list");
    assert!(!given(Some("  "), Some(""), false).unwrap().whitelist_on);
}

#[test]
fn list_without_entries_is_in_force() {
    let cfg = given(Some(","), None, false).unwrap();
    assert!(cfg.whitelist_on);
    assert!(load_whitelist(&cfg, None).unwrap().is_empty());
}

#[test]
fn list_and_file_together() {
    let cfg = given(Some("1.2.3.4"), Some("/etc/other"), false).unwrap();
    let set = load_whitelist(&cfg, Some("5.6.7.0/24 # lab\n")).unwrap();
    assert!(set.contains("1.2.3.4".parse().unwrap()));
    assert!(set.contains("5.6.7.8".parse().unwrap()));
    assert!(!set.contains("1.2.3.5".parse().unwrap()));
    assert_eq!(load_whitelist(&cfg, Some("5.6.7.0/24 oops")).unwrap_err(), "whitelist 无效项: oops");
    assert_eq!(load_whitelist(&cfg, None).unwrap().v4, vec![(0x0102_0304, 0x0102_0304)]);
}

#[test]
fn intervals() {
    assert_eq!(poll_interval(0, true), 500);
    assert_eq!(poll_interval(0, false), 20);
    assert_eq!(poll_interval(7, true), 7);
    assert_eq!(poll_interval(7, false), 7);
    assert!(!refresh_due(29));
    assert!(refresh_due(30));
    assert!(!audit_due(4));
    assert!(audit_due(5));
}

#[test]
fn start_with_and_without_rules() {
    assert_eq!(startup(true, false), Startup::Run);
    assert_eq!(startup(true, true), Startup::Run);
    assert_eq!(startup(false, true), Startup::RunDry);
    assert_eq!(startup(false, false), Startup::Refuse);
    let mut cfg = load_config(&empty(), false).unwrap();
    assert!(lacks_tool(&cfg, false));
    assert!(!lacks_tool(&cfg, true));
    cfg.noroute = true;
    assert!(!lacks_tool(&cfg, false));
    cfg.noroute = false;
    cfg.dry_run = true;
    assert!(!lacks_tool(&cfg, false));
}

#[test]
fn stamps() {
    assert_eq!(now_stamp(1725600000, 123), "[1725600000.123]");
    assert_eq!(now_stamp(1725600001, 2), "[1725600001.002]");
    assert_eq!(now_stamp(0, 45), "[0.045]");
    assert_eq!(now_stamp(u64::MAX, 0), "[18446744073709551615.000]");
}

#[test]
fn places() {
    assert_eq!(tracing_root(true, true), Some("/sys/kernel/tracing"));
    assert_eq!(tracing_root(true, false), Some("/sys/kernel/tracing"));
    assert_eq!(tracing_root(false, true), Some("/sys/kernel/debug/tracing"));
    assert_eq!(tracing_root(false, false), None);
    assert_eq!(search_dirs("/usr/bin::/bin"), vec!["/usr/bin", "", "/bin"]);
    assert_eq!(search_dirs(""), vec![""]);
}
