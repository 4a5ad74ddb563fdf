//! The settings, as the environment gives them.
use crate::addr::IpAddr;
use crate::number::{parse_unsigned, unsigned};
use crate::prefix::{all_wf, any_matches, NetPrefix, PrefixSet};
use crate::text::{chars_of, find, find_char, is_text, string_of, trim, trim_slice};
use crate::whitelist::{bad_entry, parse_whitelist_text, whitelist};
use vstd::prelude::*;

verus! {

/// The values of the environment variables that the settings come from, where they are set.
#[derive(Debug)]
pub struct Env {
    pub interval_ms: Option<String>,
    pub include_private: Option<String>,
    pub whitelist: Option<String>,
    pub whitelist_file: Option<String>,
    pub noroute: Option<String>,
    pub dry_run: Option<String>,
    pub trace: Option<String>,
    pub conntrack: Option<String>,
}

/// The settings, but for the target rate.
#[derive(Debug)]
pub struct Config {
    /// How long to wait between two looks at the socket tables; zero leaves the choice open.
    pub interval_ms: u64,
    /// Whether local and private addresses get rules too.
    pub include_private: bool,
    /// Whether rules are written without routes.
    pub noroute: bool,
    /// Whether nothing is written at all.
    pub dry_run: bool,
    /// Whether to listen to socket state events.
    pub trace: bool,
    /// Whether to listen to connection tracking events.
    pub conntrack: bool,
    /// Whether only listed addresses get rules.
    pub whitelist_on: bool,
    /// The file that holds the list.
    pub whitelist_file: Option<String>,
    /// The part of the list that was given directly.
    pub whitelist_inline: Vec<NetPrefix>,
}

/// The characters of a text that may be missing.
pub open spec fn text_of(s: Option<String>) -> Option<Seq<char>> {
    match s {
        Some(t) => Some(t@),
        None => None,
    }
}

/// The words that switch a setting on.
pub open spec fn is_yes(s: Seq<char>) -> bool {
    s == "1"@ || s == "true"@ || s == "TRUE"@ || s == "yes"@ || s == "YES"@
}

/// What a switch is set to: any value but the words for yes is no.
pub open spec fn switch(value: Option<Seq<char>>, default: bool) -> bool {
    match value {
        Some(s) => is_yes(s),
        None => default,
    }
}

/// What a number is set to: a value that is no such number counts as missing.
pub open spec fn count(value: Option<Seq<char>>, default: u64) -> u64 {
    match value {
        Some(s) => match unsigned(s, 10, u64::MAX as nat) {
            Some(n) => n as u64,
            None => default,
        },
        None => default,
    }
}

/// A value without the white space around it; one that holds nothing else counts as missing.
pub open spec fn filled(value: Option<Seq<char>>) -> Option<Seq<char>> {
    match value {
        Some(s) => if trim(s).len() > 0 {
            Some(trim(s))
        } else {
            None
        },
        None => None,
    }
}

/// Whether `s` is a list with at least one entry.
pub open spec fn is_list(s: Seq<char>) -> bool {
    whitelist(s) matches Ok(list) && list.len() > 0
}

/// Whether the value `s` names a file: it is one, or it looks like a path and is no list.
pub open spec fn names_file(s: Seq<char>, is_file: bool) -> bool {
    is_file || (find(s, seq!['/']) is Some && !is_list(s))
}

/// The file that the list is read from.
pub open spec fn list_file(
    direct: Option<Seq<char>>,
    file: Option<Seq<char>>,
    is_file: bool,
) -> Option<Seq<char>> {
    match direct {
        Some(s) => if names_file(s, is_file) {
            Some(s)
        } else {
            file
        },
        None => file,
    }
}

/// The part of the list that was given directly, or its first entry that is no prefix.
pub open spec fn list_inline(direct: Option<Seq<char>>, is_file: bool) -> Result<
    Seq<NetPrefix>,
    Seq<char>,
> {
    match direct {
        Some(s) => if names_file(s, is_file) {
            Ok(Seq::empty())
        } else {
            whitelist(s)
        },
        None => Ok(Seq::empty()),
    }
}

impl Env {
    /// The list or the file that was given directly.
    pub open spec fn direct(self) -> Option<Seq<char>> {
        filled(text_of(self.whitelist))
    }

    /// The file that was given.
    pub open spec fn file(self) -> Option<Seq<char>> {
        filled(text_of(self.whitelist_file))
    }
}

impl Config {
    /// Whether the lengths of the listed prefixes fit their families.
    pub open spec fn wf(self) -> bool {
        all_wf(self.whitelist_inline@)
    }
}

/// What a switch is set to.
pub fn env_bool(value: Option<&str>, default: bool) -> (b: bool)
    ensures
        b == switch(
            match value {
                Some(s) => Some(s@),
                None => None,
            },
            default,
        ),
{
    match value {
        Some(s) => {
            let v = chars_of(s);
            is_text(&v, "1") || is_text(&v, "true") || is_text(&v, "TRUE") || is_text(&v, "yes")
                || is_text(&v, "YES")
        },
        None => default,
    }
}

/// What a number is set to.
pub fn env_u64(value: Option<&str>, default: u64) -> (n: u64)
    ensures
        n == count(
            match value {
                Some(s) => Some(s@),
                None => None,
            },
            default,
        ),
{
    match value {
        Some(s) => {
            let v = chars_of(s);
            match parse_unsigned(&v, 10, u64::MAX) {
                Some(n) => n,
                None => default,
            }
        },
        None => default,
    }
}

/// A value without the white space around it, if anything is left.
pub fn env_opt(value: Option<&str>) -> (r: Option<String>)
    ensures
        text_of(r) == filled(
            match value {
                Some(s) => Some(s@),
                None => None,
            },
        ),
{
    match value {
        Some(s) => {
            let v = chars_of(s);
            let t = trim_slice(&v);
            if t.len() > 0 {
                Some(string_of(t))
            } else {
                None
            }
        },
        None => None,
    }
}

fn as_text<'a>(value: &'a Option<String>) -> (r: Option<&'a str>)
    ensures
        match r {
            Some(s) => text_of(*value) == Some(s@),
            None => text_of(*value) is None,
        },
{
    match value {
        Some(s) => Some(s.as_str()),
        None => None,
    }
}

/// The settings that `env` gives; `is_file` tells whether the value of its `whitelist`, without the
/// white space around it, is the path of a file.
///
/// A list that is given but names no address is still in force: it admits nobody. A value that is
/// neither a path nor a list is refused with a report of its first entry that is no prefix.
pub fn load_config(env: &Env, is_file: bool) -> (r: Result<Config, String>)
    ensures
        match r {
            Ok(cfg) => {
                &&& cfg.wf()
                &&& cfg.interval_ms == count(text_of(env.interval_ms), 0)
                &&& cfg.include_private == switch(text_of(env.include_private), false)
                &&& cfg.noroute == switch(text_of(env.noroute), false)
                &&& cfg.dry_run == switch(text_of(env.dry_run), false)
                &&& cfg.trace == switch(text_of(env.trace), true)
                &&& cfg.conntrack == switch(text_of(env.conntrack), true)
                &&& cfg.whitelist_on == (env.direct() is Some || env.file() is Some)
                &&& text_of(cfg.whitelist_file) == list_file(env.direct(), env.file(), is_file)
                &&& list_inline(env.direct(), is_file) == Ok::<Seq<NetPrefix>, Seq<char>>(
                    cfg.whitelist_inline@,
                )
            },
            Err(e) => list_inline(env.direct(), is_file) matches Err(bad) && e@ == bad_entry(bad),
        },
{
    let direct = env_opt(as_text(&env.whitelist));
    let mut whitelist_file = env_opt(as_text(&env.whitelist_file));
    let mut whitelist_inline: Vec<NetPrefix> = Vec::new();
    let whitelist_on: bool = direct.is_some() || whitelist_file.is_some();
    if let Some(raw) = direct {
        let v = chars_of(raw.as_str());
        let has_slash: bool = find_char(&v, '/').is_some();
        if is_file {
            whitelist_file = Some(raw);
        } else {
            match parse_whitelist_text(raw.as_str()) {
                Ok(list) => {
                    if has_slash && list.len() == 0 {
                        whitelist_file = Some(raw);
                    } else {
                        whitelist_inline = list;
                    }
                },
                Err(e) => {
                    if has_slash {
                        whitelist_file = Some(raw);
                    } else {
                        return Err(e);
                    }
                },
            }
        }
    }
    Ok(
        Config {
            interval_ms: env_u64(as_text(&env.interval_ms), 0),
            include_private: env_bool(as_text(&env.include_private), false),
            noroute: env_bool(as_text(&env.noroute), false),
            dry_run: env_bool(as_text(&env.dry_run), false),
            trace: env_bool(as_text(&env.trace), true),
            conntrack: env_bool(as_text(&env.conntrack), true),
            whitelist_on,
            whitelist_file,
            whitelist_inline,
        },
    )
}

/// The listed addresses: those of the list that was given directly, and those of the text of the
/// file, if there is one.
///
/// The text is refused as a whole, with a report, if one of its entries is no prefix.
pub fn load_whitelist(cfg: &Config, text: Option<&str>) -> (r: Result<PrefixSet, String>)
    requires
        cfg.wf(),
    ensures
        match r {
            Ok(set) => {
                &&& set.wf()
                &&& set.v4@.len() + set.v6@.len() <= usize::MAX
                &&& match text {
                    Some(t) => whitelist(t@) matches Ok(list) && forall|ip: IpAddr|
                        #[trigger] set@.contains(ip) <==> any_matches(cfg.whitelist_inline@, ip)
                            || any_matches(list, ip),
                    None => forall|ip: IpAddr|
                        #[trigger] set@.contains(ip) <==> any_matches(cfg.whitelist_inline@, ip),
                }
            },
            Err(e) => text matches Some(t) && whitelist(t@) matches Err(bad) && e@ == bad_entry(bad),
        },
{
    let mut nets: Vec<NetPrefix> = Vec::new();
    let mut i: usize = 0;
    while i < cfg.whitelist_inline.len()
        invariant
            i <= cfg.whitelist_inline@.len(),
            nets@ == cfg.whitelist_inline@.take(i as int),
        decreases cfg.whitelist_inline@.len() - i,
    {
        nets.push(cfg.whitelist_inline[i]);
        assert(nets@ =~= cfg.whitelist_inline@.take(i + 1));
        i += 1;
    }
    assert(nets@ =~= cfg.whitelist_inline@);
    if let Some(t) = text {
        match parse_whitelist_text(t) {
            Ok(list) => {
                let ghost more = list@;
                let mut list = list;
                nets.append(&mut list);
                assert(nets@ =~= cfg.whitelist_inline@ + more);
                let ghost all = nets@;
                assert(nets.len() <= usize::MAX);
                let set = PrefixSet::from_prefixes(nets);
                proof {
                    assert forall|ip: IpAddr|
                        #[trigger] set@.contains(ip) <==> any_matches(cfg.whitelist_inline@, ip)
                            || any_matches(more, ip) by {
                        lemma_any_concat(cfg.whitelist_inline@, more, ip);
                        assert(set@.contains(ip) <==> any_matches(all, ip));
                    }
                }
                return Ok(set);
            },
            Err(e) => {
                return Err(e);
            },
        }
    }
    assert(nets.len() <= usize::MAX);
    Ok(PrefixSet::from_prefixes(nets))
}

proof fn lemma_any_concat(a: Seq<NetPrefix>, b: Seq<NetPrefix>, ip: IpAddr)
    ensures
        any_matches(a + b, ip) <==> any_matches(a, ip) || any_matches(b, ip),
{
    let all = a + b;
    if any_matches(a, ip) {
        let i = choose|i: int| 0 <= i < a.len() && (#[trigger] a[i]).matches(ip);
        assert(all[i].matches(ip));
    }
    if any_matches(b, ip) {
        let i = choose|i: int| 0 <= i < b.len() && (#[trigger] b[i]).matches(ip);
        assert(all[a.len() + i].matches(ip));
    }
    if any_matches(all, ip) {
        let i = choose|i: int| 0 <= i < all.len() && (#[trigger] all[i]).matches(ip);
        if i < a.len() {
            assert(a[i].matches(ip));
        } else {
            assert(b[i - a.len()].matches(ip));
        }
    }
}

/// How many milliseconds to wait before the next look at the socket tables: as set, or else half a
/// second where events come in and a fiftieth of one where none do.
pub fn poll_interval(interval_ms: u64, have_events: bool) -> (ms: u64)
    ensures
        interval_ms != 0 ==> ms == interval_ms,
        interval_ms == 0 ==> ms == if have_events {
            500u64
        } else {
            20
        },
{
    if interval_ms != 0 {
        interval_ms
    } else if have_events {
        500
    } else {
        20
    }
}

/// How to go on where the table of rules was looked for.
#[derive(Clone, Copy, Debug, PartialEq, Eq, Structural)]
pub enum Startup {
    /// The table is there.
    Run,
    /// It is not, and a dry run needs none.
    RunDry,
    /// It is not, and nothing can be done without it.
    Refuse,
}

/// How to go on, with or without the table of rules.
pub fn startup(has_rules: bool, dry_run: bool) -> (r: Startup)
    ensures
        r == if has_rules {
            Startup::Run
        } else if dry_run {
            Startup::RunDry
        } else {
            Startup::Refuse
        },
{
    if has_rules {
        Startup::Run
    } else if dry_run {
        Startup::RunDry
    } else {
        Startup::Refuse
    }
}

/// Whether to warn that routes are asked for and the tool that adds them is missing.
pub fn lacks_tool(cfg: &Config, has_tool: bool) -> (b: bool)
    ensures
        b == (!cfg.dry_run && !cfg.noroute && !has_tool),
{
    !cfg.dry_run && !has_tool && !cfg.noroute
}

} // verus!
