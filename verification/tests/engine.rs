use tcp_brutal_auto::addr::IpAddr;
use tcp_brutal_auto::addr_set::AddrSet;
use tcp_brutal_auto::config::{load_config, load_whitelist, Env};
use tcp_brutal_auto::engine::{plan, should_skip, Action, Job, Shared, Submission};
use tcp_brutal_auto::prefix::{prefix_of, NetPrefix, PrefixSet};
use tcp_brutal_auto::report::{deleted_line, failure_line, outcome_line, Failure, Outcome};
use tcp_brutal_auto::rules::{
    add_command, brutalctl_add, brutalctl_del, del_command, load_existing_rules,
};

fn ip(s: &str) -> IpAddr {
    s.parse().unwrap()
}

fn addrs(list: &[&str]) -> AddrSet {
    let mut set = AddrSet::new();
    for s in list {
        set.insert(ip(s));
    }
    set
}

fn env() -> Env {
    Env {
        interval_ms: None,
        include_private: None,
        whitelist: None,
        whitelist_file: None,
        noroute: None,
        dry_run: None,
        trace: None,
        conntrack: None,
    }
}

fn shared(env: Env, known: &[&str]) -> Shared {
    let cfg = load_config(&env, false).unwrap();
    let whitelist = load_whitelist(&cfg, None).unwrap();
    let nets = vec![NetPrefix::parse("8.8.8.10/24").unwrap(), NetPrefix::parse("7.7.7.7/0").unwrap()];
    Shared::new(cfg, addrs(known), addrs(&["8.8.8.10", "5.5.5.5"]), nets, whitelist)
}

fn listed(list: &str) -> Env {
    Env { whitelist: Some(String::from(list)), ..env() }
}

#[test]
fn peers_that_get_no_rule() {
    let s = shared(env(), &[]);
    for a in ["127.0.0.1", "::1", "fe80::1", "5.5.5.5", "10.0.0.1", "8.8.8.77", "fd00::1"] {
        assert!(should_skip(ip(a), &s), "{}", a);
    }
    for a in ["1.1.1.1", "8.8.9.1", "7.7.7.7", "2606:4700::1111"] {
        assert!(!should_skip(ip(a), &s), "{}", a);
    }
}

#[test]
fn private_peers_on_request() {
    let s = shared(Env { include_private: Some(String::from("1")), ..env() }, &[]);
    for a in ["10.0.0.1", "8.8.8.77", "fd00::1", "1.1.1.1"] {
        assert!(!should_skip(ip(a), &s), "{}", a);
    }
    for a in ["127.0.0.1", "::1", "169.254.0.1", "8.8.8.10", "5.5.5.5"] {
        assert!(should_skip(ip(a), &s), "{}", a);
    }
}

#[test]
fn listed_peers_alone() {
    let s = shared(listed("10.0.0.0/8 5.5.5.5 127.0.0.1 8.8.8.0/24"), &[]);
    for a in ["10.1.2.3", "8.8.8.77"] {
        assert!(!should_skip(ip(a), &s), "{}", a);
    }
    for a in ["1.1.1.1", "5.5.5.5", "127.0.0.1", "8.8.8.10"] {
        assert!(should_skip(ip(a), &s), "{}", a);
    }
    let s = shared(listed(","), &[]);
    assert!(should_skip(ip("1.1.1.1"), &s));
}

#[test]
fn peer_is_dealt_with_once() {
    let mut s = shared(env(), &["9.9.9.9"]);
    assert_eq!(s.submit(ip("9.9.9.9")), Submission::Ignored);
    assert_eq!(s.submit(ip("::ffff:1.1.1.1")), Submission::Write(ip("1.1.1.1")));
    assert!(s.known.contains(ip("1.1.1.1")));
    assert_eq!(s.submit(ip("1.1.1.1")), Submission::Ignored);
    assert_eq!(s.submit(ip("127.0.0.1")), Submission::Ignored);
    assert!(!s.known.contains(ip("127.0.0.1")));
    assert!(s.managed.is_empty());
}

#[test]
fn dry_run_writes_nothing() {
    let mut s = shared(Env { dry_run: Some(String::from("1")), ..env() }, &["9.9.9.9"]);
    assert_eq!(s.submit(ip("1.1.1.1")), Submission::DryRun(ip("1.1.1.1")));
    assert_eq!(s.submit(ip("1.1.1.1")), Submission::Ignored);
    assert!(s.managed.is_empty());
    assert_eq!(s.audit(&addrs(&[])), vec![]);
    assert!(s.known.contains(ip("9.9.9.9")));
}

#[test]
fn dry_run_with_a_list_deletes_nothing() {
    let env = Env {
        whitelist: Some(String::from("1.1.1.1")),
        dry_run: Some(String::from("1")),
        ..env()
    };
    let mut s = shared(env, &["9.9.9.9"]);
    assert_eq!(s.submit(ip("1.1.1.1")), Submission::DryRun(ip("1.1.1.1")));
    assert_eq!(s.submit(ip("2.2.2.2")), Submission::Ignored);
    assert_eq!(s.reload(Some("3.3.3.3")).unwrap(), vec![]);
    assert_eq!(s.submit(ip("3.3.3.3")), Submission::DryRun(ip("3.3.3.3")));
    assert!(s.known.contains(ip("9.9.9.9")));
}

#[test]
fn failed_write_leaves_no_trace() {
    let mut s = shared(env(), &[]);
    assert_eq!(s.submit(ip("1.1.1.1")), Submission::Write(ip("1.1.1.1")));
    assert_eq!(s.rule_written(ip("1.1.1.1"), false, "trace"), None);
    assert!(s.known.is_empty());
    assert!(s.managed.is_empty());
    assert_eq!(s.submit(ip("1.1.1.1")), Submission::Write(ip("1.1.1.1")));
}

#[test]
fn failed_route_leaves_no_trace() {
    let mut s = shared(env(), &[]);
    s.submit(ip("1.1.1.1"));
    assert_eq!(s.rule_written(ip("1.1.1.1"), true, "trace"), Some(Action::Add(ip("1.1.1.1"), "trace")));
    assert!(s.managed.contains(ip("1.1.1.1")));
    assert_eq!(s.add_finished(ip("1.1.1.1"), true), None);
    assert!(s.managed.contains(ip("1.1.1.1")));
    assert_eq!(s.add_finished(ip("1.1.1.1"), false), Some(ip("1.1.1.1")));
    assert!(s.known.is_empty());
    assert!(s.managed.is_empty());
    s.submit(ip("2.2.2.2"));
    assert_eq!(s.rule_written(ip("2.2.2.2"), true, "trace"), Some(Action::Add(ip("2.2.2.2"), "trace")));
    assert_eq!(s.handoff_failed(Action::Add(ip("2.2.2.2"), "trace")), Some(ip("2.2.2.2")));
    assert!(s.known.is_empty());
    assert!(s.managed.is_empty());
}

#[test]
fn rules_follow_the_list() {
    let env = Env { whitelist_file: Some(String::from("/etc/list")), ..env() };
    let mut s = shared(env, &["9.9.9.9"]);
    assert_eq!(s.reload(Some("1.1.1.0/24 2.2.2.2")).unwrap(), vec![]);
    for a in ["1.1.1.1", "2.2.2.2"] {
        assert_eq!(s.submit(ip(a)), Submission::Write(ip(a)));
        assert_eq!(s.rule_written(ip(a), true, "trace"), Some(Action::Add(ip(a), "trace")));
    }
    assert_eq!(s.reload(Some("1.1.1.0/24 oops")).unwrap_err(), "whitelist 无效项: oops");
    assert!(s.managed.contains(ip("2.2.2.2")));
    assert!(!should_skip(ip("2.2.2.2"), &s));

    assert_eq!(s.reload(Some("1.1.1.0/24")).unwrap(), vec![Action::Delete(ip("2.2.2.2"))]);
    assert_eq!(s.managed.to_vec(), vec![ip("1.1.1.1")]);
    assert!(!s.known.contains(ip("2.2.2.2")));
    assert!(s.known.contains(ip("9.9.9.9")));
    assert_eq!(s.submit(ip("2.2.2.2")), Submission::Ignored);

    s.delete_finished(ip("2.2.2.2"), false);
    assert_eq!(s.reload(Some("1.1.1.0/24")).unwrap(), vec![Action::Delete(ip("2.2.2.2"))]);
    assert_eq!(s.handoff_failed(Action::Delete(ip("2.2.2.2"))), None);
    assert!(s.managed.contains(ip("2.2.2.2")));
    assert!(!s.known.contains(ip("2.2.2.2")));
    let list = PrefixSet::from_prefixes(vec![NetPrefix::parse("1.1.1.0/24").unwrap()]);
    assert_eq!(s.relist(list), vec![Action::Delete(ip("2.2.2.2"))]);
    s.delete_finished(ip("2.2.2.2"), true);
    assert_eq!(s.reload(Some("1.1.1.0/24")).unwrap(), vec![]);

    assert_eq!(s.reload(Some("")).unwrap(), vec![Action::Delete(ip("1.1.1.1"))]);
    assert_eq!(s.known.to_vec(), vec![ip("9.9.9.9")]);
}

#[test]
fn no_list_nothing_to_reload() {
    let mut s = shared(env(), &[]);
    s.submit(ip("1.1.1.1"));
    assert_eq!(s.rule_written(ip("1.1.1.1"), true, "trace"), Some(Action::Add(ip("1.1.1.1"), "trace")));
    assert_eq!(s.reload(Some("oops")).unwrap(), vec![]);
    assert!(s.managed.contains(ip("1.1.1.1")));
}

#[test]
fn audit_keeps_what_is_there() {
    let mut s = shared(env(), &["9.9.9.9", "2001:db8::9"]);
    s.submit(ip("1.1.1.1"));
    assert_eq!(s.rule_written(ip("1.1.1.1"), true, "trace"), Some(Action::Add(ip("1.1.1.1"), "trace")));
    assert_eq!(s.audit(&addrs(&["9.9.9.9", "2001:db8::9", "1.1.1.1"])), vec![]);
    let gone = s.audit(&addrs(&["9.9.9.9", "3.3.3.3"]));
    assert_eq!(gone.len(), 2);
    assert!(gone.contains(&ip("1.1.1.1")));
    assert_eq!(s.known.to_vec(), vec![ip("9.9.9.9")]);
    assert!(s.managed.is_empty());
    assert_eq!(s.audit(&addrs(&["9.9.9.9", "3.3.3.3"])), vec![]);
    assert_eq!(s.submit(ip("1.1.1.1")), Submission::Write(ip("1.1.1.1")));
}

#[test]
fn other_local_addresses() {
    let mut s = shared(env(), &[]);
    s.set_local(addrs(&["1.1.1.1"]), vec![NetPrefix::parse("2.2.2.2/24").unwrap()]);
    assert!(should_skip(ip("1.1.1.1"), &s));
    assert!(should_skip(ip("2.2.2.9"), &s));
    assert!(!should_skip(ip("8.8.8.10"), &s));
}

#[test]
fn what_is_done_about_a_peer() {
    let a = ip("1.1.1.1");
    assert_eq!(plan(Action::Add(a, "trace"), false), (Job::Route(a), "trace"));
    assert_eq!(plan(Action::Add(a, "proc-est"), true), (Job::RuleOnly(a), "proc-est"));
    assert_eq!(plan(Action::Delete(a), true), (Job::Delete(a), "whitelist"));
    assert_eq!(plan(Action::Delete(a), false), (Job::Delete(a), "whitelist"));
}

#[test]
fn table_of_rules() {
    let text = "dst=1.2.3.4/32 rate=125\nrate=9 dst=2001:db8::1/128\ndst=::ffff:9.9.9.9/128 dst=oops src=3.3.3.3 dst=5.5.5.5";
    let set = load_existing_rules(text);
    for a in ["1.2.3.4", "2001:db8::1", "9.9.9.9", "5.5.5.5"] {
        assert!(set.contains(ip(a)), "{}", a);
    }
    assert_eq!(set.len(), 4);
    assert!(load_existing_rules("").is_empty());
}

#[test]
fn rule_of_a_peer_is_found() {
    for a in ["1.2.3.4", "2001:db8::1", "::"] {
        let text = format!("id=1 dst={} rate=5\n", prefix_of(ip(a)));
        assert!(load_existing_rules(&text).contains(ip(a)));
    }
}

#[test]
fn commands() {
    assert_eq!(add_command("1.2.3.4/32", 12500000), "add 1.2.3.4/32 rate=12500000\n");
    assert_eq!(add_command("::1/128", 0), "add ::1/128 rate=0\n");
    assert_eq!(del_command("1.2.3.4/32"), "del 1.2.3.4/32\n");
}

#[test]
fn replies_of_the_tool() {
    assert_eq!(brutalctl_add(true, "noise"), Ok(()));
    assert_eq!(brutalctl_add(false, "warning: rule added, no route"), Ok(()));
    assert_eq!(brutalctl_add(false, " no such device\n"), Err(String::from("no such device")));
    assert_eq!(brutalctl_del(true, ""), Ok(()));
    assert_eq!(brutalctl_del(false, "rule added \n"), Err(String::from("rule added")));
}

#[test]
fn lines_on_peers() {
    let a = ip("203.0.113.5");
    assert_eq!(outcome_line(Outcome::DryRun, a, "100", "trace"), "dry-run add 203.0.113.5/32 100 (trace)");
    assert_eq!(outcome_line(Outcome::Added, ip("1.2.3.4"), "100", "trace"), "add 1.2.3.4/32 100 (trace)");
    assert_eq!(outcome_line(Outcome::NoRoute, a, "0.5", "conntrack"), "add 203.0.113.5/32 0.5 (conntrack, noroute)");
    assert_eq!(
        outcome_line(Outcome::WorkerDead, ip("::1"), "1", "proc-est"),
        "add ::1/128 1 (proc-est, rule-only; worker dead)"
    );
    assert_eq!(deleted_line(a, "whitelist"), "del 203.0.113.5/32 (whitelist)");
    assert_eq!(failure_line(Failure::Write, a, "denied"), "write 203.0.113.5/32: denied");
    assert_eq!(failure_line(Failure::Route, a, "denied"), "fail 203.0.113.5/32: denied");
    assert_eq!(failure_line(Failure::Delete, a, "denied"), "fail del 203.0.113.5/32: denied");
}
