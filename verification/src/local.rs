//! The addresses and networks of this host.
use crate::addr::{canonical_addr, canonicalize, IpAddr};
use crate::addr_set::AddrSet;
use crate::addr_text::{ip_addr, parse_ip};
use crate::number::{parse_unsigned, unsigned};
use crate::prefix::{all_wf, net_prefix, parse_prefix, subnet, NetPrefix};
use crate::text::{
    chars_of, find, find_str, is_text, lemma_trim_twice, line_slices, lines, strip_prefix,
    strip_prefix_str, trim, trim_slice, views, word_slices, words,
};
use crate::whitelist::{add_new, push_new};
use vstd::arithmetic::power2::pow2;
use vstd::prelude::*;
use vstd::slice::slice_subrange;

verus! {

/// The prefixes that follow the words `inet` and `inet6`; what follows such a word and is no prefix
/// is passed over.
pub open spec fn shown(ws: Seq<Seq<char>>) -> Seq<NetPrefix>
    decreases ws.len(),
{
    if ws.len() == 0 {
        Seq::empty()
    } else if ws[0] == "inet"@ || ws[0] == "inet6"@ {
        if ws.len() == 1 {
            Seq::empty()
        } else {
            match net_prefix(ws[1]) {
                Some(p) => seq![p] + shown(ws.skip(2)),
                None => shown(ws.skip(2)),
            }
        }
    } else {
        shown(ws.skip(1))
    }
}

/// The prefixes that all lines show, in order.
pub open spec fn all_shown(rows: Seq<Seq<char>>) -> Seq<NetPrefix>
    decreases rows.len(),
{
    if rows.len() == 0 {
        Seq::empty()
    } else {
        all_shown(rows.drop_last()) + shown(words(rows.last()))
    }
}

/// The addresses of the prefixes.
pub open spec fn addresses(list: Seq<NetPrefix>) -> Set<IpAddr> {
    Set::new(|ip: IpAddr| exists|i: int| 0 <= i < list.len() && (#[trigger] list[i]).addr == ip)
}

/// `nets` with the subnets of `list` added at its end, each of them once.
pub open spec fn with_subnets(nets: Seq<NetPrefix>, list: Seq<NetPrefix>) -> Seq<NetPrefix>
    decreases list.len(),
{
    if list.len() == 0 {
        nets
    } else {
        let front = with_subnets(nets, list.drop_last());
        if subnet(list.last()) {
            add_new(front, list.last())
        } else {
            front
        }
    }
}

/// The prefixes that one line shows.
fn shown_prefixes(line: &[char]) -> (list: Vec<NetPrefix>)
    ensures
        list@ == shown(words(line@)),
        all_wf(list@),
{
    let ws = word_slices(line);
    let ghost all = views(ws@);
    let mut list: Vec<NetPrefix> = Vec::new();
    let mut i: usize = 0;
    let n: usize = ws.len();
    assert(all.skip(0) =~= all);
    assert(list@ + shown(all.skip(0)) =~= shown(all));
    while i < n
        invariant
            n == ws@.len(),
            i <= n,
            all == views(ws@),
            all == words(line@),
            list@ + shown(all.skip(i as int)) == shown(all),
            all_wf(list@),
        decreases n - i,
    {
        let ghost rest = all.skip(i as int);
        assert(rest[0] == ws@[i as int]@);
        if is_text(ws[i], "inet") || is_text(ws[i], "inet6") {
            if i + 1 == n {
                assert(list@ + shown(rest) =~= list@);
                return list;
            }
            assert(rest[1] == ws@[i + 1]@);
            assert(rest.skip(2) =~= all.skip(i + 2));
            let ghost was = list@;
            if let Some(p) = parse_prefix(ws[i + 1]) {
                list.push(p);
                assert(list@ + shown(all.skip(i + 2)) =~= was + shown(rest));
            }
            i += 2;
        } else {
            assert(rest.skip(1) =~= all.skip(i + 1));
            i += 1;
        }
    }
    assert(all.skip(i as int) =~= Seq::<Seq<char>>::empty());
    assert(list@ + shown(all.skip(i as int)) =~= list@);
    list
}

proof fn lemma_addresses_push(list: Seq<NetPrefix>, p: NetPrefix)
    ensures
        addresses(list.push(p)) == addresses(list).insert(p.addr),
{
    let all = list.push(p);
    assert forall|ip: IpAddr| addresses(all).contains(ip) <==> addresses(list).insert(
        p.addr,
    ).contains(ip) by {
        if addresses(list).contains(ip) {
            let i = choose|i: int| 0 <= i < list.len() && (#[trigger] list[i]).addr == ip;
            assert(all[i].addr == ip);
        }
        if ip == p.addr {
            assert(all[list.len() as int].addr == ip);
        }
        if addresses(all).contains(ip) {
            let i = choose|i: int| 0 <= i < all.len() && (#[trigger] all[i]).addr == ip;
            if i < list.len() {
                assert(list[i].addr == ip);
            }
        }
    }
    assert(addresses(all) =~= addresses(list).insert(p.addr));
}

/// Collects the addresses and the subnets that a listing of network addresses shows.
pub fn parse_ip_addr_show(text: &str, ips: &mut AddrSet, nets: &mut Vec<NetPrefix>)
    ensures
        final(ips)@ == old(ips)@.union(addresses(all_shown(lines(text@)))),
        final(nets)@ == with_subnets(old(nets)@, all_shown(lines(text@))),
        all_wf(old(nets)@) ==> all_wf(final(nets)@),
{
    let chars = chars_of(text);
    let rows = line_slices(&chars);
    let ghost all = views(rows@);
    let mut i: usize = 0;
    assert(ips@ =~= old(ips)@.union(addresses(all_shown(all.take(0)))));
    while i < rows.len()
        invariant
            i <= rows@.len(),
            all == views(rows@),
            ips@ == old(ips)@.union(addresses(all_shown(all.take(i as int)))),
            nets@ == with_subnets(old(nets)@, all_shown(all.take(i as int))),
            all_wf(old(nets)@) ==> all_wf(nets@),
        decreases rows@.len() - i,
    {
        let list = shown_prefixes(rows[i]);
        let ghost done = all_shown(all.take(i as int));
        assert(all.take(i + 1).drop_last() =~= all.take(i as int));
        assert(all.take(i + 1).last() == rows@[i as int]@);
        let mut j: usize = 0;
        assert(done + list@.take(0) =~= done);
        while j < list.len()
            invariant
                j <= list@.len(),
                all_wf(list@),
                ips@ == old(ips)@.union(addresses(done + list@.take(j as int))),
                nets@ == with_subnets(old(nets)@, done + list@.take(j as int)),
                all_wf(old(nets)@) ==> all_wf(nets@),
            decreases list@.len() - j,
        {
            let p = list[j];
            let ghost so_far = done + list@.take(j as int);
            let ghost now = done + list@.take(j + 1);
            assert(now =~= so_far.push(p));
            assert(now.drop_last() =~= so_far);
            let ghost was = ips@;
            let _ = ips.insert(p.addr);
            proof {
                lemma_addresses_push(so_far, p);
                assert(ips@ =~= old(ips)@.union(addresses(now)));
            }
            if p.is_subnet() {
                push_new(nets, p);
            }
            j += 1;
        }
        assert(list@.take(j as int) =~= list@);
        i += 1;
    }
    assert(all.take(i as int) =~= all);
}

/// The address that a branch of the routing trie is for, if it is written as one.
pub open spec fn branch(line: Seq<char>) -> Option<Option<IpAddr>> {
    let t = trim(line);
    let rest = match strip_prefix(t, "|-- "@) {
        Some(r) => Some(r),
        None => strip_prefix(t, "+-- "@),
    };
    match rest {
        Some(r) => Some(
            if words(r).len() > 0 {
                ip_addr(words(r)[0])
            } else {
                ip_addr(Seq::empty())
            },
        ),
        None => None,
    }
}

/// The address of the last branch among the lines.
pub open spec fn last_branch(rows: Seq<Seq<char>>) -> Option<IpAddr>
    decreases rows.len(),
{
    if rows.len() == 0 {
        None
    } else {
        match branch(rows.last()) {
            Some(b) => b,
            None => last_branch(rows.drop_last()),
        }
    }
}

/// Whether the line says that the branch above it is an address of this host.
pub open spec fn says_local(line: Seq<char>) -> bool {
    find(trim(line), "host LOCAL"@) is Some
}

/// Whether the routing trie holds `ip` as an address of this host: a line that says so, and above
/// it, as the last branch, that of `ip`.
pub open spec fn trie_local(rows: Seq<Seq<char>>, ip: IpAddr) -> bool {
    exists|i: int|
        0 <= i < rows.len() && says_local(#[trigger] rows[i]) && last_branch(rows.take(i)) == Some(ip)
}

fn read_branch(t: &[char]) -> (r: Option<Option<IpAddr>>)
    requires
        trim(t@) == t@,
    ensures
        r == branch(t@),
{
    let rest = match strip_prefix_str(t, "|-- ") {
        Some(r) => Some(r),
        None => strip_prefix_str(t, "+-- "),
    };
    match rest {
        Some(r) => {
            let ws = word_slices(r);
            let ghost all = views(ws@);
            if ws.len() > 0 {
                assert(all[0] == ws@[0]@);
                Some(parse_ip(ws[0]))
            } else {
                let none: Vec<char> = Vec::new();
                assert(none@ =~= Seq::<char>::empty());
                Some(parse_ip(&none))
            }
        },
        None => None,
    }
}

/// Collects the addresses of this host that the routing trie holds.
pub fn parse_fib_trie_local(text: &str, set: &mut AddrSet)
    ensures
        forall|ip: IpAddr| #[trigger]
            final(set)@.contains(ip) <==> old(set)@.contains(ip) || trie_local(lines(text@), ip),
{
    let chars = chars_of(text);
    let rows = line_slices(&chars);
    let ghost all = views(rows@);
    let mut prev: Option<IpAddr> = None;
    let mut i: usize = 0;
    while i < rows.len()
        invariant
            i <= rows@.len(),
            all == views(rows@),
            prev == last_branch(all.take(i as int)),
            forall|ip: IpAddr| #[trigger]
                set@.contains(ip) <==> old(set)@.contains(ip) || exists|k: int|
                    0 <= k < i && says_local(#[trigger] all[k]) && last_branch(all.take(k)) == Some(
                        ip,
                    ),
        decreases rows@.len() - i,
    {
        assert(all[i as int] == rows@[i as int]@);
        assert(all.take(i + 1).drop_last() =~= all.take(i as int));
        assert(all.take(i + 1).last() == all[i as int]);
        let t = trim_slice(rows[i]);
        let ghost was = set@;
        let local: bool = find_str(t, "host LOCAL").is_some();
        if local {
            if let Some(ip) = prev {
                let _ = set.insert(ip);
            }
        }
        proof {
            assert forall|ip: IpAddr| #[trigger]
                set@.contains(ip) <==> old(set)@.contains(ip) || exists|k: int|
                    0 <= k < i + 1 && says_local(#[trigger] all[k]) && last_branch(all.take(k))
                        == Some(ip) by {
                if exists|k: int|
                    0 <= k < i && says_local(#[trigger] all[k]) && last_branch(all.take(k)) == Some(
                        ip,
                    ) {
                    assert(was.contains(ip));
                    let k = choose|k: int|
                        0 <= k < i && says_local(#[trigger] all[k]) && last_branch(all.take(k))
                            == Some(ip);
                    assert(says_local(all[k]));
                }
                if local && prev == Some(ip) {
                    assert(says_local(all[i as int]));
                }
            }
            lemma_trim_twice(all[i as int]);
        }
        if let Some(b) = read_branch(t) {
            prev = b;
        }
        i += 1;
    }
    assert(all.take(i as int) =~= all);
}

/// The number that the first `k` pairs of characters write, each pair a byte in hexadecimal.
pub open spec fn pairs(s: Seq<char>, k: nat) -> Option<nat>
    decreases k,
{
    if k == 0 {
        Some(0)
    } else {
        match (pairs(s, (k - 1) as nat), unsigned(s.subrange(2 * k - 2, 2 * k as int), 16, 255)) {
            (Some(n), Some(b)) => Some(n * 0x100 + b),
            _ => None,
        }
    }
}

/// The peer whose IPv6 address `s` writes as sixteen bytes in hexadecimal.
pub open spec fn ipv6_bytes(s: Seq<char>) -> Option<IpAddr> {
    if s.len() == 32 && pairs(s, 16) is Some {
        Some(canonical_addr(IpAddr::V6(pairs(s, 16)->0 as u128)))
    } else {
        None
    }
}

/// Whether the table of interface addresses holds `ip`: as the first word of a line.
pub open spec fn table_local(rows: Seq<Seq<char>>, ip: IpAddr) -> bool {
    exists|i: int|
        0 <= i < rows.len() && words(#[trigger] rows[i]).len() > 0 && ipv6_bytes(words(rows[i])[0])
            == Some(ip)
}

proof fn lemma_pairs_stop(s: Seq<char>, k: nat, n: nat)
    requires
        k <= n,
        pairs(s, k) is None,
    ensures
        pairs(s, n) is None,
    decreases n,
{
    if k < n {
        lemma_pairs_stop(s, k, (n - 1) as nat);
    }
}

fn read_bytes(s: &[char]) -> (r: Option<IpAddr>)
    ensures
        r == ipv6_bytes(s@),
{
    if s.len() != 32 {
        return None;
    }
    let mut n: u128 = 0;
    let mut i: usize = 0;
    proof {
        vstd::arithmetic::power2::lemma2_to64();
    }
    while i < 16
        invariant
            i <= 16,
            s@.len() == 32,
            pairs(s@, i as nat) == Some(n as nat),
            n < pow2(8 * i as nat),
        decreases 16 - i,
    {
        match parse_unsigned(slice_subrange(s, 2 * i, 2 * i + 2), 16, 255) {
            Some(b) => {
                proof {
                    vstd::arithmetic::power2::lemma2_to64();
                    vstd::arithmetic::power2::lemma_pow2_adds(8 * i as nat, 8);
                    vstd::arithmetic::power2::lemma_pow2_adds(64, 64);
                    if i < 15 {
                        vstd::arithmetic::power2::lemma_pow2_strictly_increases(
                            8 * i as nat + 8,
                            128,
                        );
                    }
                    assert(pow2(8 * i as nat + 8) <= u128::MAX + 1);
                }
                n = n * 0x100 + b as u128;
            },
            None => {
                proof {
                    assert(pairs(s@, i as nat + 1) is None);
                    lemma_pairs_stop(s@, i as nat + 1, 16);
                }
                return None;
            },
        }
        i += 1;
    }
    Some(canonicalize(IpAddr::V6(n)))
}

/// Collects the addresses of this host that the table of interface addresses holds.
pub fn parse_if_inet6(text: &str, set: &mut AddrSet)
    ensures
        forall|ip: IpAddr| #[trigger]
            final(set)@.contains(ip) <==> old(set)@.contains(ip) || table_local(lines(text@), ip),
{
    let chars = chars_of(text);
    let rows = line_slices(&chars);
    let ghost all = views(rows@);
    let mut i: usize = 0;
    while i < rows.len()
        invariant
            i <= rows@.len(),
            all == views(rows@),
            forall|ip: IpAddr| #[trigger]
                set@.contains(ip) <==> old(set)@.contains(ip) || exists|k: int|
                    0 <= k < i && words(#[trigger] all[k]).len() > 0 && ipv6_bytes(words(all[k])[0])
                        == Some(ip),
        decreases rows@.len() - i,
    {
        assert(all[i as int] == rows@[i as int]@);
        let ws = word_slices(rows[i]);
        let ghost heads = views(ws@);
        let ghost was = set@;
        let found: Option<IpAddr> = if ws.len() > 0 {
            assert(heads[0] == ws@[0]@);
            read_bytes(ws[0])
        } else {
            None
        };
        if let Some(ip) = found {
            let _ = set.insert(ip);
        }
        proof {
            assert forall|ip: IpAddr| #[trigger]
                set@.contains(ip) <==> old(set)@.contains(ip) || exists|k: int|
                    0 <= k < i + 1 && words(#[trigger] all[k]).len() > 0 && ipv6_bytes(
                        words(all[k])[0],
                    ) == Some(ip) by {
                if exists|k: int|
                    0 <= k < i && words(#[trigger] all[k]).len() > 0 && ipv6_bytes(words(all[k])[0])
                        == Some(ip) {
                    assert(was.contains(ip));
                    let k = choose|k: int|
                        0 <= k < i && words(#[trigger] all[k]).len() > 0 && ipv6_bytes(
                            words(all[k])[0],
                        ) == Some(ip);
                    assert(words(all[k]).len() > 0);
                }
                if found == Some(ip) {
                    assert(words(all[i as int]).len() > 0);
                }
            }
        }
        i += 1;
    }
}

/// The addresses and networks of this host: those that a listing of network addresses shows, and
/// where that gives no address, those that the routing trie and the table of interface addresses
/// hold.
pub fn load_local(shown: Option<&str>, trie: Option<&str>, table: Option<&str>) -> (r: (
    AddrSet,
    Vec<NetPrefix>,
))
    ensures
        all_wf(r.1@),
        r.1@ == with_subnets(Seq::empty(), listing(shown)),
        listing(shown).len() > 0 ==> r.0@ == addresses(listing(shown)),
        listing(shown).len() == 0 ==> forall|ip: IpAddr| #[trigger]
            r.0@.contains(ip) <==> (trie matches Some(t) && trie_local(lines(t@), ip)) || (
            table matches Some(t) && table_local(lines(t@), ip)),
{
    let mut ips = AddrSet::new();
    let mut nets: Vec<NetPrefix> = Vec::new();
    if let Some(text) = shown {
        parse_ip_addr_show(text, &mut ips, &mut nets);
    }
    assert(ips@ =~= addresses(listing(shown)));
    proof {
        if listing(shown).len() > 0 {
            assert(ips@.contains(listing(shown)[0].addr));
        } else {
            assert(ips@ =~= Set::<IpAddr>::empty());
        }
    }
    if ips.is_empty() {
        assert(listing(shown).len() == 0);
        if let Some(text) = trie {
            parse_fib_trie_local(text, &mut ips);
        }
        if let Some(text) = table {
            parse_if_inet6(text, &mut ips);
        }
    }
    (ips, nets)
}

/// The prefixes that a listing shows, if there is one.
pub open spec fn listing(shown: Option<&str>) -> Seq<NetPrefix> {
    match shown {
        Some(text) => all_shown(lines(text@)),
        None => Seq::empty(),
    }
}

} // verus!
