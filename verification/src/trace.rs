//! Socket state events.
use crate::addr::IpAddr;
use crate::addr_text::{parse_peer, peer_addr};
use crate::text::{
    chars_of, find, find_str, is_space, is_space_char, is_text, lemma_first_word,
    lemma_leading_space, lemma_nonempty_one, lemma_trim_end, trim_end, trim_end_slice, words,
};
use vstd::prelude::*;
use vstd::slice::slice_subrange;
use vstd::string::*;

verus! {

/// The word that follows the first `key` in `line`, without the commas at its end.
pub open spec fn value_after(line: Seq<char>, key: Seq<char>) -> Option<Seq<char>> {
    match find(line, key) {
        Some(i) => {
            let rest = words(line.skip(i + key.len()));
            if rest.len() > 0 {
                Some(trim_end(rest[0], ','))
            } else {
                None
            }
        },
        None => None,
    }
}

/// The states of a handshake, by their names and numbers.
pub open spec fn is_handshake(st: Seq<char>) -> bool {
    ||| st == "TCP_SYN_SENT"@
    ||| st == "TCP_SYN_RECV"@
    ||| st == "TCP_NEW_SYN_RECV"@
    ||| st == "SYN_SENT"@
    ||| st == "SYN_RECV"@
    ||| st == "NEW_SYN_RECV"@
    ||| st == "2"@
    ||| st == "3"@
    ||| st == "12"@
}

/// Whether the event is one of an IPv6 socket.
pub open spec fn is_v6_event(line: Seq<char>) -> bool {
    value_after(line, "family="@) matches Some(f) && (f == "AF_INET6"@ || f == "10"@)
}

/// The peer that the value after `key` names.
pub open spec fn peer_after(line: Seq<char>, key: Seq<char>) -> Option<IpAddr> {
    match value_after(line, key) {
        Some(v) => peer_addr(v),
        None => None,
    }
}

/// The peer of the handshake that the event tells of.
pub open spec fn event_peer(line: Seq<char>) -> Option<IpAddr> {
    if value_after(line, "newstate="@) matches Some(st) && is_handshake(st) {
        if is_v6_event(line) && peer_after(line, "daddrv6="@) is Some {
            peer_after(line, "daddrv6="@)
        } else {
            peer_after(line, "daddr="@)
        }
    } else {
        None
    }
}

/// Where the value after `key` stands.
fn find_value(line: &[char], key: &str) -> (r: Option<(usize, usize)>)
    ensures
        match r {
            Some((a, b)) => a <= b <= line@.len() && value_after(line@, key@) == Some(
                line@.subrange(a as int, b as int),
            ),
            None => value_after(line@, key@) is None,
        },
{
    let len: usize = line.len();
    let i: usize = match find_str(line, key) {
        Some(i) => i,
        None => {
            return None;
        },
    };
    let key_len: usize = key.unicode_len();
    let start: usize = i + key_len;
    let ghost rest = line@.skip(start as int);
    let mut a: usize = start;
    while a < len && is_space_char(line[a])
        invariant
            len == line@.len(),
            start <= a <= len,
            words(line@.skip(a as int)) == words(line@.skip(start as int)),
        decreases len - a,
    {
        proof {
            lemma_leading_space(line@.skip(a as int));
            assert(line@.skip(a as int).skip(1) =~= line@.skip(a + 1));
        }
        a += 1;
    }
    if a == len {
        proof {
            let none = line@.skip(a as int);
            assert(none =~= Seq::<char>::empty());
            lemma_nonempty_one(none);
        }
        return None;
    }
    let mut b: usize = a;
    while b < len && !is_space_char(line[b])
        invariant
            len == line@.len(),
            a <= b <= len,
            forall|k: int| a <= k < b ==> !is_space(#[trigger] line@[k]),
        decreases len - b,
    {
        b += 1;
    }
    proof {
        let s = line@.skip(a as int);
        assert forall|k: int| 0 <= k < b - a implies !is_space(#[trigger] s[k]) by {
            assert(s[k] == line@[a + k]);
        }
        lemma_first_word(s, b - a);
        assert(s.take(b - a) =~= line@.subrange(a as int, b as int));
    }
    let cut = trim_end_slice(slice_subrange(line, a, b), ',');
    proof {
        lemma_trim_end(line@.subrange(a as int, b as int), ',');
    }
    let end: usize = a + cut.len();
    proof {
        assert(line@.subrange(a as int, end as int) =~= cut@);
    }
    Some((a, end))
}

/// The word that follows the first `key` in `line`, without the commas at its end.
pub fn kv_after<'a>(line: &'a str, key: &str) -> (r: Option<&'a str>)
    ensures
        match r {
            Some(v) => value_after(line@, key@) == Some(v@),
            None => value_after(line@, key@) is None,
        },
{
    let v = chars_of(line);
    match find_value(&v, key) {
        Some((a, b)) => Some(line.substring_char(a, b)),
        None => None,
    }
}

fn value_slice<'a>(line: &'a [char], key: &str) -> (r: Option<&'a [char]>)
    ensures
        match r {
            Some(v) => value_after(line@, key@) == Some(v@),
            None => value_after(line@, key@) is None,
        },
{
    match find_value(line, key) {
        Some((a, b)) => Some(slice_subrange(line, a, b)),
        None => None,
    }
}

fn peer_value(line: &[char], key: &str) -> (r: Option<IpAddr>)
    ensures
        r == peer_after(line@, key@),
{
    match value_slice(line, key) {
        Some(v) => parse_peer(v),
        None => None,
    }
}

fn handshake(st: &[char]) -> (b: bool)
    ensures
        b == is_handshake(st@),
{
    is_text(st, "TCP_SYN_SENT") || is_text(st, "TCP_SYN_RECV") || is_text(st, "TCP_NEW_SYN_RECV")
        || is_text(st, "SYN_SENT") || is_text(st, "SYN_RECV") || is_text(st, "NEW_SYN_RECV")
        || is_text(st, "2") || is_text(st, "3") || is_text(st, "12")
}

/// The peer of the handshake that an event tells of.
///
/// Events of any other state give nothing. The event of an IPv6 socket gives its IPv6 peer where
/// that can be read, and else what any other event gives.
pub fn parse_trace_line(line: &str) -> (r: Option<IpAddr>)
    ensures
        r == event_peer(line@),
{
    let v = chars_of(line);
    let st = match value_slice(&v, "newstate=") {
        Some(st) => st,
        None => {
            return None;
        },
    };
    if !handshake(st) {
        return None;
    }
    let v6: bool = match value_slice(&v, "family=") {
        Some(f) => is_text(f, "AF_INET6") || is_text(f, "10"),
        None => false,
    };
    if v6 {
        match peer_value(&v, "daddrv6=") {
            Some(ip) => {
                return Some(ip);
            },
            None => {},
        }
    }
    peer_value(&v, "daddr=")
}

} // verus!
