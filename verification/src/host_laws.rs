//! What holds of the addresses of this host and of the table of rules.
use crate::addr::{canonical_addr, IpAddr};
use crate::addr_text::ip_addr;
use crate::event_laws::lemma_nothing_is_no_address;
use crate::local::{
    addresses, all_shown, branch, ipv6_bytes, last_branch, listing, pairs, says_local, shown,
    table_local, trie_local, with_subnets,
};
use crate::number::{numeral, unsigned};
use crate::prefix::{net_prefix, NetPrefix};
use crate::proc_laws::{four_bytes, sixteen_bytes};
use crate::rules::{add_text, del_text, has_rule, rule_peer};
use crate::text::{find, lines, strip_prefix, trim, words};
use crate::text_laws::{law_before, law_strip_prefix};
use crate::whitelist::add_new;
use vstd::prelude::*;

verus! {

/// A listing shows the prefix behind each `inet` and `inet6`; words before them make no difference,
/// and what stands there and is no prefix is passed over.
pub proof fn law_shown_behind_inet(a: Seq<Seq<char>>, key: Seq<char>, next: Seq<char>, b: Seq<Seq<char>>)
    requires
        forall|i: int| 0 <= i < a.len() ==> #[trigger] a[i] != "inet"@ && a[i] != "inet6"@,
        key == "inet"@ || key == "inet6"@,
    ensures
        shown(a) == Seq::<NetPrefix>::empty(),
        shown(a + seq![key]) == Seq::<NetPrefix>::empty(),
        shown(a + (seq![key, next] + b)) == match net_prefix(next) {
            Some(p) => seq![p] + shown(b),
            None => shown(b),
        },
    decreases a.len(),
{
    if a.len() > 0 {
        let less = a.skip(1);
        assert(a[0] != "inet"@ && a[0] != "inet6"@);
        assert forall|i: int| 0 <= i < less.len() implies #[trigger] less[i] != "inet"@ && less[i]
            != "inet6"@ by {
            assert(less[i] == a[i + 1]);
        }
        law_shown_behind_inet(less, key, next, b);
        assert((a + seq![key]).skip(1) =~= less + seq![key]);
        assert((a + (seq![key, next] + b)).skip(1) =~= less + (seq![key, next] + b));
    } else {
        let s = a + (seq![key, next] + b);
        assert(s[0] == key && s[1] == next);
        assert(s.skip(2) =~= b);
        assert((a + seq![key])[0] == key);
    }
}

/// What lines show is what they show one after the other.
pub proof fn law_shown_line_by_line(rows: Seq<Seq<char>>, row: Seq<char>, shown_text: Option<&str>)
    ensures
        all_shown(Seq::empty()) == Seq::<NetPrefix>::empty(),
        all_shown(rows.push(row)) == all_shown(rows) + shown(words(row)),
        listing(shown_text) == match shown_text {
            Some(text) => all_shown(lines(text@)),
            None => Seq::empty(),
        },
{
    assert(rows.push(row).drop_last() =~= rows);
}

/// The addresses are those of the prefixes, and the networks those of the prefixes that are longer
/// than nothing and shorter than an address: each of them once, behind those that were there.
pub proof fn law_addresses_and_networks(
    nets: Seq<NetPrefix>,
    list: Seq<NetPrefix>,
    p: NetPrefix,
    ip: IpAddr,
)
    ensures
        addresses(list).contains(ip) <==> exists|i: int|
            0 <= i < list.len() && (#[trigger] list[i]).addr == ip,
        with_subnets(nets, list).contains(p) <==> nets.contains(p) || (list.contains(p) && 0 < p.plen
            < match p.addr {
            IpAddr::V4(_) => 32,
            IpAddr::V6(_) => 128int,
        }),
        nets.len() <= with_subnets(nets, list).len(),
        with_subnets(nets, list).take(nets.len() as int) == nets,
        nets.no_duplicates() ==> with_subnets(nets, list).no_duplicates(),
    decreases list.len(),
{
    if list.len() > 0 {
        let front = list.drop_last();
        let last = list.last();
        law_addresses_and_networks(nets, front, p, ip);
        let was = with_subnets(nets, front);
        let now = with_subnets(nets, list);
        assert(list.contains(p) <==> front.contains(p) || p == last) by {
            assert(list[list.len() - 1] == last);
            if front.contains(p) {
                let i = choose|i: int| 0 <= i < front.len() && front[i] == p;
                assert(list[i] == p);
            }
            if list.contains(p) && p != last {
                let i = choose|i: int| 0 <= i < list.len() && list[i] == p;
                assert(front[i] == p);
            }
        }
        assert(add_new(was, last).contains(p) <==> was.contains(p) || p == last) by {
            let more = was.push(last);
            assert(more[was.len() as int] == last);
            if was.contains(p) {
                let i = choose|i: int| 0 <= i < was.len() && was[i] == p;
                assert(more[i] == p);
            }
            if more.contains(p) && p != last {
                let i = choose|i: int| 0 <= i < more.len() && more[i] == p;
                assert(was[i] == p);
            }
        }
        assert(now.take(nets.len() as int) =~= nets) by {
            assert(was.take(nets.len() as int) =~= nets);
            assert forall|i: int| 0 <= i < nets.len() implies now[i] == nets[i] by {
                assert(was.take(nets.len() as int)[i] == was[i]);
            }
        }
    } else {
        assert(nets.take(nets.len() as int) =~= nets);
    }
}

/// A line of the routing trie begins a branch with `|-- ` or `+-- `, and the branch is for the
/// address that its first word writes.
#[verifier::rlimit(40)]
pub proof fn law_branch(line: Seq<char>, rest: Seq<char>)
    ensures
        trim(line) == "|-- "@ + rest || trim(line) == "+-- "@ + rest ==> branch(line) == Some(
            if words(rest).len() > 0 {
                ip_addr(words(rest)[0])
            } else {
                None
            },
        ),
        (forall|r: Seq<char>| trim(line) != #[trigger] ("|-- "@ + r)) && (forall|r: Seq<char>|
            trim(line) != #[trigger] ("+-- "@ + r)) ==> branch(line) is None,
        says_local(line) <==> find(trim(line), "host LOCAL"@) is Some,
{
    let t = trim(line);
    lemma_nothing_is_no_address();
    law_strip_prefix(t, "|-- "@, rest);
    law_strip_prefix(t, "+-- "@, rest);
    reveal_strlit("|-- ");
    reveal_strlit("+-- ");
    if t == "+-- "@ + rest && strip_prefix(t, "|-- "@) is Some {
        law_strip_prefix(t, "|-- "@, strip_prefix(t, "|-- "@)->0);
        assert(t[0] == '+');
        assert(("|-- "@ + strip_prefix(t, "|-- "@)->0)[0] == '|');
    }
    if strip_prefix(t, "|-- "@) is Some {
        law_strip_prefix(t, "|-- "@, strip_prefix(t, "|-- "@)->0);
    }
    if strip_prefix(t, "+-- "@) is Some {
        law_strip_prefix(t, "+-- "@, strip_prefix(t, "+-- "@)->0);
    }
}

/// The routing trie holds an address as one of this host where a line that says so stands below the
/// branch of that address, with no other branch between them.
pub proof fn law_trie_local(rows: Seq<Seq<char>>, ip: IpAddr)
    ensures
        trie_local(rows, ip) <==> exists|i: int, k: int|
            0 <= k < i < rows.len() && find(trim(#[trigger] rows[i]), "host LOCAL"@) is Some
                && branch(#[trigger] rows[k]) == Some(Some(ip)) && forall|j: int|
                k < j < i ==> branch(#[trigger] rows[j]) is None,
{
    if trie_local(rows, ip) {
        let i = choose|i: int|
            0 <= i < rows.len() && says_local(#[trigger] rows[i]) && last_branch(rows.take(i))
                == Some(ip);
        let k = lemma_last_branch(rows.take(i), ip);
        assert(rows.take(i)[k] == rows[k]);
        assert forall|j: int| k < j < i implies branch(#[trigger] rows[j]) is None by {
            assert(rows.take(i)[j] == rows[j]);
        }
        assert(find(trim(rows[i]), "host LOCAL"@) is Some);
    }
    if exists|i: int, k: int|
        0 <= k < i < rows.len() && find(trim(#[trigger] rows[i]), "host LOCAL"@) is Some && branch(
            #[trigger] rows[k],
        ) == Some(Some(ip)) && forall|j: int| k < j < i ==> branch(#[trigger] rows[j]) is None {
        let (i, k) = choose|i: int, k: int|
            0 <= k < i < rows.len() && find(trim(#[trigger] rows[i]), "host LOCAL"@) is Some
                && branch(#[trigger] rows[k]) == Some(Some(ip)) && forall|j: int|
                k < j < i ==> branch(#[trigger] rows[j]) is None;
        let above = rows.take(i);
        assert(above[k] == rows[k]);
        assert forall|j: int| k < j < above.len() implies branch(#[trigger] above[j]) is None by {
            assert(above[j] == rows[j]);
        }
        lemma_branch_stays(above, k, ip);
        assert(says_local(rows[i]));
    }
}

proof fn lemma_last_branch(rows: Seq<Seq<char>>, ip: IpAddr) -> (k: int)
    requires
        last_branch(rows) == Some(ip),
    ensures
        0 <= k < rows.len(),
        branch(rows[k]) == Some(Some(ip)),
        forall|j: int| k < j < rows.len() ==> branch(#[trigger] rows[j]) is None,
    decreases rows.len(),
{
    let front = rows.drop_last();
    assert(rows[rows.len() - 1] == rows.last());
    if branch(rows.last()) is Some {
        rows.len() - 1
    } else {
        let k = lemma_last_branch(front, ip);
        assert(front[k] == rows[k]);
        assert forall|j: int| k < j < rows.len() implies branch(#[trigger] rows[j]) is None by {
            if j < front.len() {
                assert(front[j] == rows[j]);
            }
        }
        k
    }
}

proof fn lemma_branch_stays(rows: Seq<Seq<char>>, k: int, ip: IpAddr)
    requires
        0 <= k < rows.len(),
        branch(rows[k]) == Some(Some(ip)),
        forall|j: int| k < j < rows.len() ==> branch(#[trigger] rows[j]) is None,
    ensures
        last_branch(rows) == Some(ip),
    decreases rows.len(),
{
    let front = rows.drop_last();
    assert(rows[rows.len() - 1] == rows.last());
    if k < front.len() {
        assert(front[k] == rows[k]);
        assert forall|j: int| k < j < front.len() implies branch(#[trigger] front[j]) is None by {
            assert(front[j] == rows[j]);
        }
        lemma_branch_stays(front, k, ip);
    }
}

/// Sixteen pairs of hexadecimal digits are the IPv6 address with those bytes, in that order, and
/// nothing else is.
#[verifier::rlimit(40)]
pub proof fn law_ipv6_bytes(s: Seq<char>, b: Seq<u8>)
    requires
        b.len() == 16,
    ensures
        s.len() == 32 && (forall|k: int|
            0 <= k < 16 ==> unsigned(#[trigger] s.subrange(2 * k, 2 * k + 2), 16, 255) == Some(
                b[k] as nat,
            )) ==> ipv6_bytes(s) == Some(canonical_addr(IpAddr::V6(sixteen_bytes(b) as u128))),
        s.len() != 32 || (exists|k: int|
            0 <= k < 16 && unsigned(#[trigger] s.subrange(2 * k, 2 * k + 2), 16, 255) is None)
            ==> ipv6_bytes(s) is None,
{
    if s.len() == 32 && (forall|k: int|
        0 <= k < 16 ==> unsigned(#[trigger] s.subrange(2 * k, 2 * k + 2), 16, 255) == Some(
            b[k] as nat,
        )) {
        lemma_pairs4(s, b, 0, 0);
        let w0 = four_bytes(b, 0);
        lemma_pairs4(s, b, 4, w0 as nat);
        let w1 = w0 * 0x1_0000_0000 + four_bytes(b, 4);
        lemma_pairs4(s, b, 8, w1 as nat);
        let w2 = w1 * 0x1_0000_0000 + four_bytes(b, 8);
        lemma_pairs4(s, b, 12, w2 as nat);
        assert(pairs(s, 16) == Some((w2 * 0x1_0000_0000 + four_bytes(b, 12)) as nat));
        assert(w2 * 0x1_0000_0000 + four_bytes(b, 12) == sixteen_bytes(b));
    }
    if exists|k: int|
        0 <= k < 16 && unsigned(#[trigger] s.subrange(2 * k, 2 * k + 2), 16, 255) is None {
        let k = choose|k: int|
            0 <= k < 16 && unsigned(#[trigger] s.subrange(2 * k, 2 * k + 2), 16, 255) is None;
        lemma_pair_missing(s, k, 16);
    }
}

#[verifier::rlimit(40)]
proof fn lemma_pairs4(s: Seq<char>, b: Seq<u8>, i: nat, w: nat)
    requires
        b.len() == 16,
        i <= 12,
        pairs(s, i) == Some(w),
        forall|k: int|
            0 <= k < 16 ==> unsigned(#[trigger] s.subrange(2 * k, 2 * k + 2), 16, 255) == Some(
                b[k] as nat,
            ),
    ensures
        pairs(s, i + 4) == Some((w * 0x1_0000_0000 + four_bytes(b, i as int)) as nat),
{
    let i0 = i as int;
    assert(s.subrange(2 * i0, 2 * i0 + 2) == s.subrange(2 * (i + 1) - 2, 2 * (i + 1) as int));
    assert(s.subrange(2 * (i0 + 1), 2 * (i0 + 1) + 2) == s.subrange(2 * (i + 2) - 2, 2 * (i + 2) as int));
    assert(s.subrange(2 * (i0 + 2), 2 * (i0 + 2) + 2) == s.subrange(2 * (i + 3) - 2, 2 * (i + 3) as int));
    assert(s.subrange(2 * (i0 + 3), 2 * (i0 + 3) + 2) == s.subrange(2 * (i + 4) - 2, 2 * (i + 4) as int));
    let p1 = w * 0x100 + b[i0];
    let p2 = p1 * 0x100 + b[i0 + 1];
    let p3 = p2 * 0x100 + b[i0 + 2];
    let p4 = p3 * 0x100 + b[i0 + 3];
    assert(pairs(s, i + 1) == Some(p1 as nat));
    assert(pairs(s, i + 2) == Some(p2 as nat));
    assert(pairs(s, i + 3) == Some(p3 as nat));
    assert(pairs(s, i + 4) == Some(p4 as nat));
}

proof fn lemma_pair_missing(s: Seq<char>, k: int, n: nat)
    requires
        0 <= k < n,
        unsigned(s.subrange(2 * k, 2 * k + 2), 16, 255) is None,
    ensures
        pairs(s, n) is None,
    decreases n,
{
    if k < n - 1 {
        lemma_pair_missing(s, k, (n - 1) as nat);
    } else {
        assert(s.subrange(2 * n - 2, 2 * n as int) == s.subrange(2 * k, 2 * k + 2));
    }
}

/// The table of interface addresses holds the addresses that the first words of its lines write.
pub proof fn law_table_local(rows: Seq<Seq<char>>, ip: IpAddr)
    ensures
        table_local(rows, ip) <==> exists|i: int|
            0 <= i < rows.len() && words(#[trigger] rows[i]).len() > 0 && ipv6_bytes(
                words(rows[i])[0],
            ) == Some(ip),
{
}

/// A word of the table of rules gives the peer that it writes behind `dst=`, up to a slash if there
/// is one; a word that begins otherwise gives none. The table holds a rule where a word gives it.
pub proof fn law_rule_words(word: Seq<char>, host: Seq<char>, len: Seq<char>, text: Seq<char>, ip: IpAddr)
    requires
        !host.contains('/'),
    ensures
        word == "dst="@ + host || word == "dst="@ + (host.push('/') + len) ==> rule_peer(word)
            == match ip_addr(host) {
            Some(addr) => Some(canonical_addr(addr)),
            None => None,
        },
        (forall|r: Seq<char>| word != #[trigger] ("dst="@ + r)) ==> rule_peer(word) is None,
        has_rule(text, ip) <==> exists|i: int|
            0 <= i < words(text).len() && rule_peer(#[trigger] words(text)[i]) == Some(ip),
{
    law_before(host, '/', len);
    law_strip_prefix(word, "dst="@, host);
    law_strip_prefix(word, "dst="@, host.push('/') + len);
    if strip_prefix(word, "dst="@) is Some {
        law_strip_prefix(word, "dst="@, strip_prefix(word, "dst="@)->0);
    }
}

/// The commands that add and delete the rule of a prefix.
pub proof fn law_commands(prefix: Seq<char>, rate_bps: u64)
    ensures
        add_text(prefix, rate_bps) == "add "@ + prefix + " rate="@ + numeral(rate_bps as nat, 10)
            + "\n"@,
        del_text(prefix) == "del "@ + prefix + "\n"@,
{
}

} // verus!
