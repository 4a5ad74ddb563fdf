//! Connection tracking events.
use crate::addr::{is_loopback, loopback, IpAddr};
use crate::addr_set::AddrSet;
use crate::addr_text::{parse_peer, peer_addr};
use crate::text::{chars_of, strip_prefix, strip_prefix_str, views, word_slices, words};
use vstd::prelude::*;

verus! {

/// The address that `word` gives under `key`.
pub open spec fn keyed_addr(word: Seq<char>, key: Seq<char>) -> Option<IpAddr> {
    match strip_prefix(word, key) {
        Some(v) => peer_addr(v),
        None => None,
    }
}

/// The first address that one of the words gives under `key`.
pub open spec fn first_addr(ws: Seq<Seq<char>>, key: Seq<char>) -> Option<IpAddr>
    decreases ws.len(),
{
    if ws.len() == 0 {
        None
    } else {
        match first_addr(ws.drop_last(), key) {
            Some(ip) => Some(ip),
            None => keyed_addr(ws.last(), key),
        }
    }
}

/// Whether `ip` is an address of this host.
pub open spec fn is_own(ip: IpAddr, local: Set<IpAddr>) -> bool {
    local.contains(ip) || is_loopback(ip)
}

/// The one of two ends that is not on this host, if the other is.
pub open spec fn far_end(src: IpAddr, dst: IpAddr, local: Set<IpAddr>) -> Option<IpAddr> {
    if is_own(src, local) && !is_own(dst, local) {
        Some(dst)
    } else if !is_own(src, local) && is_own(dst, local) {
        Some(src)
    } else {
        None
    }
}

/// The peer of the connection that an event tells of.
pub open spec fn tracked_peer(line: Seq<char>, local: Set<IpAddr>) -> Option<IpAddr> {
    match (first_addr(words(line), "src="@), first_addr(words(line), "dst="@)) {
        (Some(src), Some(dst)) => far_end(src, dst, local),
        _ => None,
    }
}

fn keyed(word: &[char], key: &str) -> (r: Option<IpAddr>)
    ensures
        r == keyed_addr(word@, key@),
{
    match strip_prefix_str(word, key) {
        Some(v) => parse_peer(v),
        None => None,
    }
}

/// The peer of the connection that an event tells of: the end that is not on this host, if the
/// other end is.
pub fn peer_from_conntrack(line: &str, local: &AddrSet) -> (r: Option<IpAddr>)
    ensures
        r == tracked_peer(line@, local@),
{
    let chars = chars_of(line);
    let ws = word_slices(&chars);
    let ghost all = views(ws@);
    let mut src: Option<IpAddr> = None;
    let mut dst: Option<IpAddr> = None;
    let mut i: usize = 0;
    while i < ws.len()
        invariant
            i <= ws@.len(),
            all == views(ws@),
            src == first_addr(all.take(i as int), "src="@),
            dst == first_addr(all.take(i as int), "dst="@),
        decreases ws@.len() - i,
    {
        assert(all.take(i + 1).drop_last() =~= all.take(i as int));
        assert(all.take(i + 1).last() == ws@[i as int]@);
        if src.is_none() {
            src = keyed(ws[i], "src=");
        }
        if dst.is_none() {
            dst = keyed(ws[i], "dst=");
        }
        i += 1;
    }
    assert(all.take(i as int) =~= all);
    match (src, dst) {
        (Some(src), Some(dst)) => {
            let src_own: bool = local.contains(src) || loopback(src);
            let dst_own: bool = local.contains(dst) || loopback(dst);
            if src_own && !dst_own {
                Some(dst)
            } else if !src_own && dst_own {
                Some(src)
            } else {
                None
            }
        },
        _ => None,
    }
}

/// The peer is one of the two ends and never an address of this host, and it does not matter which
/// end opened the connection.
pub proof fn law_peer_is_the_remote_end(src: IpAddr, dst: IpAddr, local: Set<IpAddr>)
    ensures
        far_end(src, dst, local) == far_end(dst, src, local),
        far_end(src, dst, local) matches Some(ip) ==> !is_own(ip, local) && (ip == src || ip == dst),
        far_end(src, dst, local) is Some <==> is_own(src, local) != is_own(dst, local),
{
}

} // verus!
