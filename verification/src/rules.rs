//! The kernel's table of rules and the tool that keeps it.
use crate::addr::IpAddr;
use crate::addr_set::AddrSet;
use crate::addr_text::{parse_peer, peer_addr};
use crate::number::{numeral, push_numeral};
use crate::text::{
    before, before_slice, chars_of, find, find_str, string_of, strip_prefix, strip_prefix_str, trim,
    trim_slice, views, word_slices, words,
};
use vstd::prelude::*;
use vstd::string::*;

verus! {

/// The peer that a word of the table gives a rule for.
pub open spec fn rule_peer(word: Seq<char>) -> Option<IpAddr> {
    match strip_prefix(word, "dst="@) {
        Some(dst) => peer_addr(before(dst, '/')),
        None => None,
    }
}

/// Whether the table in text form holds a rule for `ip`.
pub open spec fn has_rule(text: Seq<char>, ip: IpAddr) -> bool {
    exists|i: int| 0 <= i < words(text).len() && rule_peer(#[trigger] words(text)[i]) == Some(ip)
}

fn read_rule(word: &[char]) -> (r: Option<IpAddr>)
    ensures
        r == rule_peer(word@),
{
    match strip_prefix_str(word, "dst=") {
        Some(dst) => parse_peer(before_slice(dst, '/')),
        None => None,
    }
}

/// The peers that the table in text form holds rules for.
pub fn load_existing_rules(text: &str) -> (set: AddrSet)
    ensures
        forall|ip: IpAddr| #[trigger] set@.contains(ip) <==> has_rule(text@, ip),
{
    let chars = chars_of(text);
    let ws = word_slices(&chars);
    let ghost all = words(text@);
    let mut set = AddrSet::new();
    let mut i: usize = 0;
    while i < ws.len()
        invariant
            i <= ws@.len(),
            all == views(ws@),
            forall|ip: IpAddr| #[trigger]
                set@.contains(ip) <==> exists|k: int|
                    0 <= k < i && rule_peer(#[trigger] all[k]) == Some(ip),
        decreases ws@.len() - i,
    {
        let ghost was = set@;
        assert(all[i as int] == ws@[i as int]@);
        let found = read_rule(ws[i]);
        if let Some(ip) = found {
            let _ = set.insert(ip);
        }
        proof {
            assert forall|ip: IpAddr| #[trigger]
                set@.contains(ip) <==> exists|k: int|
                    0 <= k < i + 1 && rule_peer(#[trigger] all[k]) == Some(ip) by {
                if was.contains(ip) {
                    let k = choose|k: int| 0 <= k < i && rule_peer(#[trigger] all[k]) == Some(ip);
                    assert(rule_peer(all[k]) == Some(ip));
                }
                if found == Some(ip) {
                    assert(rule_peer(all[i as int]) == Some(ip));
                }
            }
        }
        i += 1;
    }
    set
}

/// The command that adds a rule.
pub open spec fn add_text(prefix: Seq<char>, rate_bps: u64) -> Seq<char> {
    "add "@ + prefix + " rate="@ + numeral(rate_bps as nat, 10) + "\n"@
}

/// The command that deletes a rule.
pub open spec fn del_text(prefix: Seq<char>) -> Seq<char> {
    "del "@ + prefix + "\n"@
}

/// The command that adds a rule for `prefix` at a rate in bytes per second.
pub fn add_command(prefix: &str, rate_bps: u64) -> (s: String)
    ensures
        s@ == add_text(prefix@, rate_bps),
{
    let mut s = String::new();
    s.append("add ");
    s.append(prefix);
    s.append(" rate=");
    push_numeral(&mut s, rate_bps, 10);
    s.append("\n");
    assert(s@ =~= add_text(prefix@, rate_bps));
    s
}

/// The command that deletes the rule for `prefix`.
pub fn del_command(prefix: &str) -> (s: String)
    ensures
        s@ == del_text(prefix@),
{
    let mut s = String::new();
    s.append("del ");
    s.append(prefix);
    s.append("\n");
    assert(s@ =~= del_text(prefix@));
    s
}

/// Whether a run of the tool that was to add a rule did so: it says so, or it reports the rule
/// all the same. Otherwise what it complained of.
pub fn brutalctl_add(success: bool, stderr: &str) -> (r: Result<(), String>)
    ensures
        match r {
            Ok(_) => success || find(stderr@, "rule added"@) is Some,
            Err(e) => !success && find(stderr@, "rule added"@) is None && e@ == trim(stderr@),
        },
{
    let v = chars_of(stderr);
    if success || find_str(&v, "rule added").is_some() {
        return Ok(());
    }
    Err(string_of(trim_slice(&v)))
}

/// Whether a run of the tool that was to delete a rule did so, or else what it complained of.
pub fn brutalctl_del(success: bool, stderr: &str) -> (r: Result<(), String>)
    ensures
        match r {
            Ok(_) => success,
            Err(e) => !success && e@ == trim(stderr@),
        },
{
    if success {
        return Ok(());
    }
    let v = chars_of(stderr);
    Err(string_of(trim_slice(&v)))
}

} // verus!
