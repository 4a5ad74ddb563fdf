//! What holds of prefixes, of sets of them and of lists in text form.
use crate::addr::{canonical_addr, width, IpAddr};
use crate::addr_text::{ip_addr, ip_text, peer_addr};
use crate::number::{lemma_numeral, numeral, unsigned};
use crate::number_laws::law_written_number_reads_back;
use crate::prefix::{
    all_wf, any_matches, host_prefix, net_prefix, prefix_text, subnet, NetPrefix, PrefixSet,
};
use crate::ranges::{bounds, covers, merged, ordered, proper};
use crate::roundtrip::{is_addr_char, law_written_address_reads_back, lemma_ip_text_chars};
use crate::text::{before, is_space, lines, Sep};
use crate::text_laws::{law_before, law_lines, law_tokens};
use crate::whitelist::{
    add_new, any_entry_matches, bad_entry, entries, entry_matches,
    law_list_matches_what_its_entries_match, line_entries, read_entries, whitelist,
};
use vstd::prelude::*;

verus! {

/// An address, a slash and a number make the prefix of just that address and just that length,
/// provided that the family has so many bits. Nothing else with a slash in it is a prefix.
pub proof fn law_cidr(host: Seq<char>, len: Seq<char>)
    requires
        !host.contains('/'),
    ensures
        net_prefix(host.push('/') + len) == match (ip_addr(host), unsigned(len, 10, 255)) {
            (Some(ip), Some(n)) => if n <= width(canonical_addr(ip)) {
                Some(NetPrefix { addr: canonical_addr(ip), plen: n as u8 })
            } else {
                None
            },
            _ => None::<NetPrefix>,
        },
        net_prefix(host) == match ip_addr(host) {
            Some(ip) => Some(
                NetPrefix { addr: canonical_addr(ip), plen: width(canonical_addr(ip)) },
            ),
            None => None,
        },
{
    reveal(net_prefix);
    law_before(host, '/', len);
    let s = host.push('/') + len;
    assert(s.take(host.len() as int) =~= host);
    assert(s.skip(host.len() as int + 1) =~= len);
}

/// Every network that is written as an address and a length reads back with that length.
pub proof fn law_written_network_reads_back(host: Seq<char>, peer: IpAddr, n: nat)
    requires
        !host.contains('/'),
        peer_addr(host) == Some(peer),
    ensures
        n <= width(peer) ==> net_prefix(host + seq!['/'] + numeral(n, 10)) == Some(
            NetPrefix { addr: peer, plen: n as u8 },
        ),
        n > width(peer) ==> net_prefix(host + seq!['/'] + numeral(n, 10)) is None,
{
    assert(host + seq!['/'] =~= host.push('/'));
    law_cidr(host, numeral(n, 10));
    law_written_number_reads_back(n, 10, 255);
}

/// A prefix matches the addresses of its family that agree with it in as many leading bits as its
/// length says.
pub proof fn law_prefix_compares_leading_bits(p: NetPrefix, ip: IpAddr)
    requires
        p.wf(),
    ensures
        p.matches(ip) <==> match (p.addr, ip) {
            (IpAddr::V4(a), IpAddr::V4(b)) => p.plen == 0 || a >> ((32 - p.plen) as u32) == b >> ((32
                - p.plen) as u32),
            (IpAddr::V6(a), IpAddr::V6(b)) => p.plen == 0 || a >> ((128 - p.plen) as u128) == b >> ((
            128 - p.plen) as u128),
            _ => false,
        },
        p.wf() <==> p.plen <= match p.addr {
            IpAddr::V4(_) => 32,
            IpAddr::V6(_) => 128int,
        },
        subnet(p) <==> 0 < p.plen < match p.addr {
            IpAddr::V4(_) => 32,
            IpAddr::V6(_) => 128int,
        },
{
    vstd::arithmetic::power2::lemma2_to64();
    if p.plen == 0 {
        crate::prefix::law_empty_prefix_matches_its_family(p.addr, ip);
        assert(p == NetPrefix { addr: p.addr, plen: 0 });
    } else {
        match (p.addr, ip) {
            (IpAddr::V4(a), IpAddr::V4(b)) => {
                vstd::bits::lemma_u32_shr_is_div(a, (32 - p.plen) as u32);
                vstd::bits::lemma_u32_shr_is_div(b, (32 - p.plen) as u32);
            },
            (IpAddr::V6(a), IpAddr::V6(b)) => {
                vstd::bits::lemma_u128_shr_is_div(a, (128 - p.plen) as u128);
                vstd::bits::lemma_u128_shr_is_div(b, (128 - p.plen) as u128);
            },
            _ => {},
        }
    }
}

/// A set holds an address where one of its ranges of that family does, and prefixes match an
/// address where one of them does.
pub proof fn law_sets_and_lists_hold(set: PrefixSet, list: Seq<NetPrefix>, n: u32, m: u128, ip: IpAddr)
    ensures
        set@.contains(IpAddr::V4(n)) <==> exists|i: int|
            0 <= i < set.v4@.len() && (#[trigger] set.v4@[i]).0 <= n <= set.v4@[i].1,
        set@.contains(IpAddr::V6(m)) <==> exists|i: int|
            0 <= i < set.v6@.len() && (#[trigger] set.v6@[i]).0 <= m <= set.v6@[i].1,
        any_matches(list, ip) <==> exists|i: int|
            0 <= i < list.len() && (#[trigger] list[i]).matches(ip),
        all_wf(list) <==> forall|i: int| 0 <= i < list.len() ==> (#[trigger] list[i]).wf(),
{
    let r4 = bounds(set.v4@);
    let r6 = bounds(set.v6@);
    if covers(r4, n as int) {
        let i = choose|i: int| 0 <= i < r4.len() && (#[trigger] r4[i]).0 <= n <= r4[i].1;
        assert(set.v4@[i].0 <= n <= set.v4@[i].1);
    }
    if covers(r6, m as int) {
        let i = choose|i: int| 0 <= i < r6.len() && (#[trigger] r6[i]).0 <= m <= r6[i].1;
        assert(set.v6@[i].0 <= m <= set.v6@[i].1);
    }
    if exists|i: int| 0 <= i < set.v4@.len() && (#[trigger] set.v4@[i]).0 <= n <= set.v4@[i].1 {
        let i = choose|i: int|
            0 <= i < set.v4@.len() && (#[trigger] set.v4@[i]).0 <= n <= set.v4@[i].1;
        assert(r4[i].0 <= n <= r4[i].1);
    }
    if exists|i: int| 0 <= i < set.v6@.len() && (#[trigger] set.v6@[i]).0 <= m <= set.v6@[i].1 {
        let i = choose|i: int|
            0 <= i < set.v6@.len() && (#[trigger] set.v6@[i]).0 <= m <= set.v6@[i].1;
        assert(r6[i].0 <= m <= r6[i].1);
    }
}

/// The ranges of a set in order are those between which at least one address is missing.
pub proof fn law_ranges_in_order(set: PrefixSet)
    ensures
        set.wf() <==> ({
            &&& forall|i: int| 0 <= i < set.v4@.len() ==> (#[trigger] set.v4@[i]).0 <= set.v4@[i].1
            &&& forall|i: int, j: int|
                0 <= i < j < set.v4@.len() ==> (#[trigger] set.v4@[i]).1 + 1 < (
                #[trigger] set.v4@[j]).0
            &&& forall|i: int| 0 <= i < set.v6@.len() ==> (#[trigger] set.v6@[i]).0 <= set.v6@[i].1
            &&& forall|i: int, j: int|
                0 <= i < j < set.v6@.len() ==> (#[trigger] set.v6@[i]).1 + 1 < (
                #[trigger] set.v6@[j]).0
        }),
{
    let r4 = bounds(set.v4@);
    let r6 = bounds(set.v6@);
    assert(forall|i: int| 0 <= i < r4.len() ==> #[trigger] r4[i] == (set.v4@[i].0 as int, set.v4@[i].1 as int));
    assert(forall|i: int| 0 <= i < r6.len() ==> #[trigger] r6[i] == (set.v6@[i].0 as int, set.v6@[i].1 as int));
    assert(forall|i: int| 0 <= i < set.v4@.len() ==> (#[trigger] set.v4@[i]).0 as int == r4[i].0 && set.v4@[i].1 as int == r4[i].1);
    assert(forall|i: int| 0 <= i < set.v6@.len() ==> (#[trigger] set.v6@[i]).0 as int == r6[i].0 && set.v6@[i].1 as int == r6[i].1);
}

/// The prefix of one peer is written as its address, a slash and the number of its bits.
pub proof fn law_prefix_text(ip: IpAddr)
    ensures
        prefix_text(ip) == ip_text(ip) + seq!['/'] + match ip {
            IpAddr::V4(_) => seq!['3', '2'],
            IpAddr::V6(_) => seq!['1', '2', '8'],
        },
        host_prefix(ip) == (NetPrefix { addr: ip, plen: width(ip) }),
{
    reveal_strlit("/32");
    reveal_strlit("/128");
    match ip {
        IpAddr::V4(_) => {
            assert(prefix_text(ip) =~= ip_text(ip) + seq!['/'] + seq!['3', '2']);
        },
        IpAddr::V6(_) => {
            assert(prefix_text(ip) =~= ip_text(ip) + seq!['/'] + seq!['1', '2', '8']);
        },
    }
}

/// Within a line, a comma, a semicolon or white space parts entries, and a `#` ends them.
#[verifier::rlimit(40)]
pub proof fn law_line_entries(a: Seq<char>, c: char, b: Seq<char>)
    requires
        !a.contains('#'),
    ensures
        c == ',' || c == ';' || is_space(c) ==> line_entries(a.push(c) + b) == line_entries(a)
            + line_entries(b),
        line_entries(a.push('#') + b) == line_entries(a),
        a.len() > 0 && !a.contains(',') && !a.contains(';') && (forall|i: int|
            0 <= i < a.len() ==> !is_space(#[trigger] a[i])) ==> line_entries(a) == seq![a],
        line_entries(Seq::empty()) == Seq::<Seq<char>>::empty(),
{
    let none = Seq::<char>::empty();
    law_before(a, '#', b);
    law_before(none, '#', none);
    law_tokens(none, c, none, Sep::List);
    if c == ',' || c == ';' || is_space(c) {
        let whole = a.push(c) + b;
        lemma_before_concat(a, c, b);
        law_tokens(a, c, before(b, '#'), Sep::List);
    }
    if a.len() > 0 && !a.contains(',') && !a.contains(';') && (forall|i: int|
        0 <= i < a.len() ==> !is_space(#[trigger] a[i])) {
        assert forall|i: int| 0 <= i < a.len() implies !Sep::List.splits(#[trigger] a[i]) by {
            assert(a.contains(a[i]));
            assert(!is_space(a[i]));
        }
        law_tokens(a, c, b, Sep::List);
    }
}

/// A text without the mark before another one does not move what is cut off there.
proof fn lemma_before_concat(a: Seq<char>, c: char, b: Seq<char>)
    requires
        !a.contains('#'),
        c != '#',
    ensures
        before(a.push(c) + b, '#') == a.push(c) + before(b, '#'),
{
    let whole = a.push(c) + b;
    if b.contains('#') {
        let k = lemma_first_mark(b);
        let head = b.take(k);
        let tail = b.skip(k + 1);
        assert(b =~= head.push('#') + tail);
        law_before(head, '#', tail);
        let front = a.push(c) + head;
        assert(!front.contains('#')) by {
            if front.contains('#') {
                let i = choose|i: int| 0 <= i < front.len() && front[i] == '#';
                if i < a.len() {
                    assert(a[i] == '#');
                } else if i > a.len() {
                    assert(head[i - a.len() - 1] == '#');
                }
            }
        }
        assert(whole =~= front.push('#') + tail);
        law_before(front, '#', tail);
    } else {
        assert(!whole.contains('#')) by {
            if whole.contains('#') {
                let i = choose|i: int| 0 <= i < whole.len() && whole[i] == '#';
                if i < a.len() {
                    assert(a[i] == '#');
                } else if i > a.len() {
                    assert(b[i - a.len() - 1] == '#');
                }
            }
        }
        law_before(whole, '#', b);
        law_before(b, '#', b);
    }
}

proof fn lemma_first_mark(b: Seq<char>) -> (k: int)
    requires
        b.contains('#'),
    ensures
        0 <= k < b.len(),
        b[k] == '#',
        !b.take(k).contains('#'),
    decreases b.len(),
{
    let front = b.drop_last();
    if front.contains('#') {
        let k = lemma_first_mark(front);
        assert(front.take(k) =~= b.take(k));
        k
    } else {
        let k = b.len() - 1;
        let i = choose|i: int| 0 <= i < b.len() && b[i] == '#';
        if i < k {
            assert(front[i] == '#');
        }
        assert(b.take(k) =~= front);
        k
    }
}

/// The entries of a text are those of its lines, one line after the other.
pub proof fn law_entries_of_lines(a: Seq<char>, b: Seq<char>)
    ensures
        entries(lines(a.push('\n') + b)) == entries(lines(a)) + entries(lines(b)),
        !a.contains('\n') ==> entries(lines(a)) == line_entries(a),
{
    law_lines(a, b);
    crate::whitelist::lemma_entries_concat(lines(a), lines(b));
    if !a.contains('\n') {
        let one = seq![a];
        assert(one.drop_last() =~= Seq::<Seq<char>>::empty());
        assert(entries(one.drop_last()) =~= Seq::<Seq<char>>::empty());
        assert(entries(one) =~= line_entries(a));
    }
}

/// Entries are read one by one: the first that is no prefix is what the list is refused for, and
/// where there is none the list holds just the prefixes that the entries write, each of them once.
#[verifier::rlimit(40)]
pub proof fn law_entries_are_read_in_order(items: Seq<Seq<char>>, k: int, p: NetPrefix)
    ensures
        0 <= k < items.len() && net_prefix(items[k]) is None && (forall|i: int|
            0 <= i < k ==> net_prefix(#[trigger] items[i]) is Some) ==> read_entries(items) == Err::<
            Seq<NetPrefix>,
            Seq<char>,
        >(items[k]),
        (forall|i: int| 0 <= i < items.len() ==> net_prefix(#[trigger] items[i]) is Some) ==> (
        read_entries(items) matches Ok(list) && list.no_duplicates() && (list.contains(p)
            <==> exists|i: int| 0 <= i < items.len() && net_prefix(#[trigger] items[i]) == Some(p))),
    decreases items.len(),
{
    if items.len() > 0 {
        let front = items.drop_last();
        let last = items.last();
        law_entries_are_read_in_order(front, k, p);
        assert(items[items.len() - 1] == last);
        assert(forall|i: int| 0 <= i < front.len() ==> #[trigger] front[i] == items[i]);
        if 0 <= k < items.len() && net_prefix(items[k]) is None && (forall|i: int|
            0 <= i < k ==> net_prefix(#[trigger] items[i]) is Some) {
            if k == front.len() {
                assert forall|i: int| 0 <= i < front.len() implies net_prefix(
                    #[trigger] front[i],
                ) is Some by {
                    assert(net_prefix(items[i]) is Some);
                }
            } else {
                assert forall|i: int| 0 <= i < k implies net_prefix(#[trigger] front[i]) is Some by {
                    assert(net_prefix(items[i]) is Some);
                }
            }
        }
        if forall|i: int| 0 <= i < items.len() ==> net_prefix(#[trigger] items[i]) is Some {
            assert forall|i: int| 0 <= i < front.len() implies net_prefix(
                #[trigger] front[i],
            ) is Some by {
                assert(net_prefix(items[i]) is Some);
            }
            let list = read_entries(front)->Ok_0;
            let q = net_prefix(last)->0;
            assert(net_prefix(items[items.len() - 1]) is Some);
            let now = add_new(list, q);
            assert(read_entries(items) == Ok::<Seq<NetPrefix>, Seq<char>>(now));
            assert(now.contains(p) <==> list.contains(p) || p == q) by {
                if list.contains(p) && !list.contains(q) {
                    let i = choose|i: int| 0 <= i < list.len() && list[i] == p;
                    assert(now[i] == p);
                }
                if p == q && !list.contains(q) {
                    assert(now[list.len() as int] == q);
                }
                if now.contains(p) && !list.contains(q) {
                    let i = choose|i: int| 0 <= i < now.len() && now[i] == p;
                    if i < list.len() {
                        assert(list[i] == p);
                    }
                }
            }
            if exists|i: int| 0 <= i < front.len() && net_prefix(#[trigger] front[i]) == Some(p) {
                let i = choose|i: int|
                    0 <= i < front.len() && net_prefix(#[trigger] front[i]) == Some(p);
                assert(net_prefix(items[i]) == Some(p));
            }
            if exists|i: int| 0 <= i < items.len() && net_prefix(#[trigger] items[i]) == Some(p) {
                let i = choose|i: int|
                    0 <= i < items.len() && net_prefix(#[trigger] items[i]) == Some(p);
                if i < front.len() {
                    assert(net_prefix(front[i]) == Some(p));
                }
            }
        }
    }
}

/// A list that names one network by an address of it and its length admits exactly the addresses
/// of the same family that agree with that address in so many leading bits.
#[verifier::rlimit(40)]
pub proof fn law_listed_network_admits_its_addresses(net: IpAddr, n: nat, ip: IpAddr)
    requires
        canonical_addr(net) == net,
        n <= width(net),
    ensures
        whitelist(ip_text(net) + seq!['/'] + numeral(n, 10)) == Ok::<Seq<NetPrefix>, Seq<char>>(
            seq![NetPrefix { addr: net, plen: n as u8 }],
        ),
        any_matches(whitelist(ip_text(net) + seq!['/'] + numeral(n, 10))->Ok_0, ip) <==> match (
            net,
            ip,
        ) {
            (IpAddr::V4(a), IpAddr::V4(b)) => n == 0 || a >> ((32 - n) as u32) == b >> ((32
                - n) as u32),
            (IpAddr::V6(a), IpAddr::V6(b)) => n == 0 || a >> ((128 - n) as u128) == b >> ((128
                - n) as u128),
            _ => false,
        },
{
    let host = ip_text(net);
    let num = numeral(n, 10);
    let text = host + seq!['/'] + num;
    let p = NetPrefix { addr: net, plen: n as u8 };
    lemma_ip_text_chars(net);
    lemma_numeral(n, 10);
    law_written_address_reads_back(net);
    assert(!host.contains('/')) by {
        if host.contains('/') {
            let i = choose|i: int| 0 <= i < host.len() && host[i] == '/';
            assert(is_addr_char(host[i]));
        }
    }
    law_written_network_reads_back(host, net, n);
    assert forall|i: int| 0 <= i < text.len() implies ({
        let c = #[trigger] text[i];
        is_addr_char(c) || c == '/'
    }) by {
        if i < host.len() {
            assert(is_addr_char(host[i]));
        } else if i > host.len() {
            assert(crate::number::is_digit(num[i - host.len() - 1], 10));
        }
    }
    assert forall|i: int| 0 <= i < text.len() implies !is_space(#[trigger] text[i]) && text[i] != '#'
        && text[i] != ',' && text[i] != ';' && text[i] != '\n' by {
        let c = text[i];
        assert(is_addr_char(c) || c == '/');
    }
    assert(!text.contains('#') && !text.contains(',') && !text.contains(';') && !text.contains(
        '\n',
    ));
    law_entries_of_lines(text, text);
    law_line_entries(text, ',', text);
    let one = seq![text];
    assert(one.drop_last() =~= Seq::<Seq<char>>::empty());
    assert(read_entries(one.drop_last()) == Ok::<Seq<NetPrefix>, Seq<char>>(Seq::empty()));
    assert(one.last() == text);
    assert(add_new(Seq::empty(), p) =~= seq![p]);
    assert(whitelist(text) == Ok::<Seq<NetPrefix>, Seq<char>>(seq![p]));
    law_prefix_compares_leading_bits(p, ip);
    let list = seq![p];
    assert(any_matches(list, ip) <==> p.matches(ip)) by {
        if p.matches(ip) {
            assert(list[0].matches(ip));
        }
    }
}

/// A list admits an address where one of its entries is a prefix that matches it, and an entry that
/// is none is reported by name.
pub proof fn law_list_admits_by_entries(text: Seq<char>, ip: IpAddr, bad: Seq<char>)
    ensures
        whitelist(text) matches Ok(list) ==> (any_matches(list, ip) <==> exists|i: int|
            0 <= i < entries(lines(text)).len() && (net_prefix(#[trigger] entries(lines(text))[i])
                matches Some(p) && p.matches(ip))),
        whitelist(text) is Ok <==> forall|i: int|
            0 <= i < entries(lines(text)).len() ==> net_prefix(
                #[trigger] entries(lines(text))[i],
            ) is Some,
        bad_entry(bad) == "whitelist 无效项: "@ + bad,
{
    let items = entries(lines(text));
    crate::whitelist::law_list_is_read_whole_or_refused(items);
    if whitelist(text) is Ok {
        law_list_matches_what_its_entries_match(items, ip);
        if any_entry_matches(items, ip) {
            let i = choose|i: int| 0 <= i < items.len() && entry_matches(#[trigger] items[i], ip);
            assert(net_prefix(items[i]) matches Some(p) && p.matches(ip));
        }
        if exists|i: int|
            0 <= i < items.len() && (net_prefix(#[trigger] items[i]) matches Some(p) && p.matches(
                ip,
            )) {
            let i = choose|i: int|
                0 <= i < items.len() && (net_prefix(#[trigger] items[i]) matches Some(p)
                    && p.matches(ip));
            assert(entry_matches(items[i], ip));
        }
    }
}

/// One more entry puts its prefix at the end of the list, unless it is there already; nothing can be
/// added to a list that is refused.
pub proof fn law_one_more_entry(items: Seq<Seq<char>>, item: Seq<char>)
    ensures
        read_entries(Seq::empty()) == Ok::<Seq<NetPrefix>, Seq<char>>(Seq::empty()),
        read_entries(items) matches Err(bad) ==> read_entries(items.push(item)) == Err::<
            Seq<NetPrefix>,
            Seq<char>,
        >(bad),
        read_entries(items) matches Ok(list) ==> read_entries(items.push(item)) == match net_prefix(
            item,
        ) {
            Some(p) => Ok::<Seq<NetPrefix>, Seq<char>>(
                if exists|i: int| 0 <= i < list.len() && list[i] == p {
                    list
                } else {
                    list + seq![p]
                },
            ),
            None => Err(item),
        },
{
    assert(items.push(item).drop_last() =~= items);
    if read_entries(items) is Ok && net_prefix(item) is Some {
        let list = read_entries(items)->Ok_0;
        let p = net_prefix(item)->0;
        assert(list.push(p) =~= list + seq![p]);
    }
}

/// Ranges are merged one by one: the next range is joined to the last one where it starts no later
/// than right behind it, and is kept beside it otherwise.
pub proof fn law_merging(r: Seq<(int, int)>, a: int, b: int)
    ensures
        merged(Seq::empty()) == Seq::<(int, int)>::empty(),
        ({
            let kept = merged(r);
            merged(r.push((a, b))) == if kept.len() > 0 && a <= kept.last().1 + 1 {
                kept.drop_last() + seq![
                    (
                        kept.last().0,
                        if b > kept.last().1 {
                            b
                        } else {
                            kept.last().1
                        },
                    ),
                ]
            } else {
                kept + seq![(a, b)]
            }
        }),
        proper(r) <==> forall|i: int| 0 <= i < r.len() ==> (#[trigger] r[i]).0 <= r[i].1,
        ordered(r) <==> forall|i: int, j: int|
            0 <= i <= j < r.len() ==> (#[trigger] r[i]).0 <= (#[trigger] r[j]).0,
{
    assert(r.push((a, b)).drop_last() =~= r);
    assert(merged(r.push((a, b))) =~= ({
        let kept = merged(r);
        if kept.len() > 0 && a <= kept.last().1 + 1 {
            kept.drop_last() + seq![
                (
                    kept.last().0,
                    if b > kept.last().1 {
                        b
                    } else {
                        kept.last().1
                    },
                ),
            ]
        } else {
            kept + seq![(a, b)]
        }
    }));
}

} // verus!
