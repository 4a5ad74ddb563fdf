//! The written form of an address reads back as the address.
use crate::addr::{canonical_addr, width, IpAddr};
use crate::addr_text::{
    address_of, all_groups, gap, group, group_values, groups, groups_of, ip_addr, ip_text, ipv4,
    ipv4_text, ipv6, ipv6_text, joined, longest_run, octet, peer_addr, run_of, v4_groups, zero_run,
    zeros,
};
use crate::number::{
    all_digits, digits_value, is_digit, lemma_bytes, lemma_numeral, lemma_numeral_len, numeral,
    unsigned,
};
use crate::prefix::{host_prefix, net_prefix, prefix_text};
use crate::rules::{has_rule, rule_peer};
use crate::text::{
    find, first_at, lemma_find_is, lemma_find_none, lemma_split_concat, lemma_split_nonempty,
    lemma_split_single, occurs_at, split, words, Sep,
};
use vstd::prelude::*;

verus! {

proof fn lemma_octet(v: nat)
    requires
        v <= 255,
    ensures
        octet(numeral(v, 10)) == Some(v),
        split(numeral(v, 10), Sep::Char('.')) == seq![numeral(v, 10)],
{
    lemma_numeral(v, 10);
    lemma_numeral_len(v);
    let s = numeral(v, 10);
    assert forall|i: int| 0 <= i < s.len() implies !Sep::Char('.').splits(#[trigger] s[i]) by {
        assert(is_digit(s[i], 10));
    }
    lemma_split_single(s, Sep::Char('.'));
}

/// Four pieces without dots come apart again.
proof fn lemma_four_pieces(a: Seq<char>, b: Seq<char>, c: Seq<char>, d: Seq<char>)
    requires
        split(a, Sep::Char('.')) == seq![a],
        split(b, Sep::Char('.')) == seq![b],
        split(c, Sep::Char('.')) == seq![c],
        split(d, Sep::Char('.')) == seq![d],
    ensures
        split(((a.push('.') + b).push('.') + c).push('.') + d, Sep::Char('.')) == seq![a, b, c, d],
{
    let sep = Sep::Char('.');
    let ab = a.push('.') + b;
    let abc = ab.push('.') + c;
    lemma_split_concat(a, '.', b, sep);
    lemma_split_concat(ab, '.', c, sep);
    lemma_split_concat(abc, '.', d, sep);
    assert(seq![a] + seq![b] + seq![c] + seq![d] =~= seq![a, b, c, d]);
}

proof fn lemma_ipv4_text(n: u32)
    ensures
        ipv4(ipv4_text(n)) == Some(n),
{
    let a = (n / 0x100_0000) as nat;
    let b = (n / 0x1_0000 % 0x100) as nat;
    let c = (n / 0x100 % 0x100) as nat;
    let d = (n % 0x100) as nat;
    lemma_bytes(n, a, b, c, d);
    lemma_octet(a);
    lemma_octet(b);
    lemma_octet(c);
    lemma_octet(d);
    lemma_four_pieces(numeral(a, 10), numeral(b, 10), numeral(c, 10), numeral(d, 10));
}

/// In pieces of digits there are only digits and separators.
proof fn lemma_digit_pieces(s: Seq<char>, sep: Sep)
    requires
        forall|i: int|
            0 <= i < split(s, sep).len() ==> all_digits(#[trigger] split(s, sep)[i], 10),
    ensures
        forall|i: int| 0 <= i < s.len() ==> sep.splits(#[trigger] s[i]) || is_digit(s[i], 10),
    decreases s.len(),
{
    if s.len() > 0 {
        let front = s.drop_last();
        let p = split(s, sep);
        let q = split(front, sep);
        lemma_split_nonempty(front, sep);
        assert forall|i: int| 0 <= i < q.len() implies all_digits(#[trigger] q[i], 10) by {
            if i < q.len() - 1 || sep.splits(s.last()) {
                assert(q[i] == p[i]);
            } else {
                let whole = p[i];
                assert(whole == q[i].push(s.last()));
                assert(all_digits(whole, 10));
                assert forall|k: int| 0 <= k < q[i].len() implies is_digit(#[trigger] q[i][k], 10) by {
                    assert(whole[k] == q[i][k]);
                }
            }
        }
        lemma_digit_pieces(front, sep);
        if !sep.splits(s.last()) {
            let whole = p[p.len() - 1];
            assert(all_digits(whole, 10));
            assert(whole[whole.len() - 1] == s.last());
        }
        assert forall|i: int| 0 <= i < s.len() implies sep.splits(#[trigger] s[i]) || is_digit(
            s[i],
            10,
        ) by {
            if i < front.len() {
                assert(s[i] == front[i]);
            }
        }
    }
}

/// No IPv4 address is written with a colon.
pub proof fn lemma_colon_is_not_ipv4(s: Seq<char>, at: int)
    requires
        0 <= at < s.len(),
        s[at] == ':',
    ensures
        ipv4(s) is None,
{
    if ipv4(s) is Some {
        let p = split(s, Sep::Char('.'));
        assert forall|i: int| 0 <= i < p.len() implies all_digits(#[trigger] p[i], 10) by {
            assert(octet(p[i]) is Some);
        }
        lemma_digit_pieces(s, Sep::Char('.'));
        assert(Sep::Char('.').splits(s[at]) || is_digit(s[at], 10));
    }
}

proof fn lemma_group(v: u16)
    ensures
        group(numeral(v as nat, 16)) == Some(v),
        numeral(v as nat, 16).len() > 0,
        forall|i: int| 0 <= i < numeral(v as nat, 16).len() ==> #[trigger] numeral(v as nat, 16)[i] != ':',
        split(numeral(v as nat, 16), Sep::Char(':')) == seq![numeral(v as nat, 16)],
{
    lemma_numeral(v as nat, 16);
    lemma_numeral_len(v as nat);
    let s = numeral(v as nat, 16);
    assert forall|i: int| 0 <= i < s.len() implies #[trigger] s[i] != ':' by {
        assert(is_digit(s[i], 16));
    }
    lemma_split_single(s, Sep::Char(':'));
}

/// Joined groups come apart again, and no two colons stand side by side among them.
proof fn lemma_joined(g: Seq<u16>)
    requires
        g.len() > 0,
    ensures
        split(joined(g), Sep::Char(':')) == g.map_values(|v: u16| numeral(v as nat, 16)),
        joined(g).len() > 0,
        joined(g).first() != ':',
        joined(g).last() != ':',
        forall|i: int|
            0 <= i < joined(g).len() - 1 ==> !(#[trigger] joined(g)[i] == ':' && joined(g)[i + 1]
                == ':'),
    decreases g.len(),
{
    let s = joined(g);
    lemma_group(g.last());
    let last = numeral(g.last() as nat, 16);
    if g.len() == 1 {
        assert(s == last);
        assert(split(s, Sep::Char(':')) =~= g.map_values(|v: u16| numeral(v as nat, 16)));
    } else {
        let front = g.drop_last();
        lemma_joined(front);
        let f = joined(front);
        lemma_split_concat(f, ':', last, Sep::Char(':'));
        assert(split(s, Sep::Char(':')) =~= g.map_values(|v: u16| numeral(v as nat, 16)));
        assert(s[0] == f[0]);
        assert(s.last() == last[last.len() - 1]);
        assert forall|i: int| 0 <= i < s.len() - 1 implies !(#[trigger] s[i] == ':' && s[i + 1]
            == ':') by {
            if i + 1 < f.len() {
                assert(s[i] == f[i]);
                assert(s[i + 1] == f[i + 1]);
            } else if i + 1 == f.len() {
                assert(s[i] == f.last());
            } else {
                assert(s[i + 1] == last[i - f.len()]);
            }
        }
    }
}

/// Joined groups read back.
proof fn lemma_groups(g: Seq<u16>, tail: bool)
    ensures
        groups(joined(g), tail) == Some(g),
{
    if g.len() == 0 {
        assert(g =~= Seq::<u16>::empty());
    } else {
        lemma_joined(g);
        let p = split(joined(g), Sep::Char(':'));
        assert forall|i: int| 0 <= i < p.len() implies group(#[trigger] p[i]) == Some(g[i]) by {
            lemma_group(g[i]);
        }
        assert forall|i: int| 0 <= i < p.drop_last().len() implies group(
            #[trigger] p.drop_last()[i],
        ) is Some by {
            assert(p.drop_last()[i] == p[i]);
        }
        assert(p.last() == p[p.len() - 1]);
        assert(group_values(p) =~= g);
    }
}

/// The gap between two runs of joined groups is found where it stands.
proof fn lemma_gap_found(h: Seq<u16>, t: Seq<char>)
    ensures
        find(joined(h) + gap() + t, gap()) == Some(joined(h).len() as int),
{
    let f = joined(h);
    let s = f + gap() + t;
    assert(s.subrange(f.len() as int, f.len() as int + 2) =~= gap());
    assert forall|j: int| 0 <= j < f.len() implies !occurs_at(s, gap(), j) by {
        lemma_joined_nonempty(h);
        lemma_joined(h);
        if occurs_at(s, gap(), j) {
            let cut = s.subrange(j, j + 2);
            assert(cut[0] == ':' && cut[1] == ':');
            assert(s[j] == cut[0]);
            assert(s[j + 1] == cut[1]);
            assert(s[j] == f[j]);
            if j + 1 < f.len() {
                assert(s[j + 1] == f[j + 1]);
                assert(!(f[j] == ':' && f[j + 1] == ':'));
            } else {
                assert(f[j] == f.last());
            }
        }
    }
    assert(first_at(s, gap(), f.len() as int));
    lemma_find_is(s, gap(), f.len() as int);
}

proof fn lemma_joined_nonempty(h: Seq<u16>)
    ensures
        joined(h).len() > 0 ==> h.len() > 0,
{
}

/// Joined groups alone hold no gap.
proof fn lemma_no_gap(g: Seq<u16>)
    requires
        g.len() > 0,
    ensures
        find(joined(g), gap()) is None,
{
    let s = joined(g);
    lemma_joined(g);
    lemma_find_none(s, gap());
    assert forall|j: int| !occurs_at(s, gap(), j) by {
        if occurs_at(s, gap(), j) {
            let cut = s.subrange(j, j + 2);
            assert(cut[0] == ':' && cut[1] == ':');
            assert(s[j] == cut[0]);
            assert(s[j + 1] == cut[1]);
            assert(!(s[j] == ':' && s[j + 1] == ':'));
        }
    }
}

proof fn lemma_first_run(g: Seq<u16>, start: int, len: int)
    requires
        zero_run(g, start, len),
        forall|s: int, l: int| #[trigger] zero_run(g, s, l) ==> l <= len,
    ensures
        longest_run(g, run_of(g).0, run_of(g).1),
    decreases start,
{
    if forall|s: int| 0 <= s < start ==> !zero_run(g, s, len) {
        let r = (start, len);
        assert forall|s: int, l: int| #[trigger] zero_run(g, s, l) implies l < len || (l == len
            && start <= s) by {
            if l == len && s < start {
                assert(!zero_run(g, s, len));
            }
        }
        assert(longest_run(g, r.0, r.1));
    } else {
        let s = choose|s: int| 0 <= s < start && zero_run(g, s, len);
        lemma_first_run(g, s, len);
    }
}

/// There is a longest run of zeros, if only an empty one.
pub proof fn lemma_run_exists(g: Seq<u16>, most: int)
    requires
        0 <= most,
        forall|s: int, l: int| #[trigger] zero_run(g, s, l) ==> l <= most,
    ensures
        longest_run(g, run_of(g).0, run_of(g).1),
    decreases most,
{
    if exists|s: int| zero_run(g, s, most) {
        let s = choose|s: int| zero_run(g, s, most);
        lemma_first_run(g, s, most);
    } else {
        assert(zero_run(g, 0, 0));
        assert forall|s: int, l: int| #[trigger] zero_run(g, s, l) implies l <= most - 1 by {
            if l == most {
                assert(zero_run(g, s, most));
            }
        }
        lemma_run_exists(g, most - 1);
    }
}

/// The groups of an address spell the address.
proof fn lemma_groups_of(n: u128)
    ensures
        address_of(groups_of(n)) == n,
        groups_of(n).len() == 8,
{
    let q6 = n / 0x1_0000;
    let q5 = q6 / 0x1_0000;
    let q4 = q5 / 0x1_0000;
    let q3 = q4 / 0x1_0000;
    let q2 = q3 / 0x1_0000;
    let q1 = q2 / 0x1_0000;
    let q0 = q1 / 0x1_0000;
    assert(q0 <= 0xffff);
    assert(n == q6 * 0x1_0000 + n % 0x1_0000);
    assert(q6 == q5 * 0x1_0000 + q6 % 0x1_0000);
    assert(q5 == q4 * 0x1_0000 + q5 % 0x1_0000);
    assert(q4 == q3 * 0x1_0000 + q4 % 0x1_0000);
    assert(q3 == q2 * 0x1_0000 + q3 % 0x1_0000);
    assert(q2 == q1 * 0x1_0000 + q2 % 0x1_0000);
    assert(q1 == q0 * 0x1_0000 + q1 % 0x1_0000);
}

proof fn lemma_mapped_text(n: u128)
    requires
        n / 0x1_0000_0000 == 0xffff,
    ensures
        ipv6(ipv6_text(n)) == Some(n),
{
    let low = (n % 0x1_0000_0000) as u32;
    let v4 = ipv4_text(low);
    let t = numeral(0xffff, 16).push(':') + v4;
    let h = Seq::<u16>::empty();
    let s = ipv6_text(n);
    assert(s =~= joined(h) + gap() + t);
    lemma_gap_found(h, t);
    assert(s.take(0) =~= joined(h));
    assert(s.skip(2) =~= t);
    lemma_groups(h, false);
    lemma_ipv4_text(low);
    lemma_group(0xffff);
    lemma_split_concat(numeral(0xffff, 16), ':', v4, Sep::Char(':'));
    assert forall|i: int| 0 <= i < v4.len() implies #[trigger] v4[i] != ':' by {
        if v4[i] == ':' {
            lemma_colon_is_not_ipv4(v4, i);
        }
    }
    lemma_split_single(v4, Sep::Char(':'));
    let p = split(t, Sep::Char(':'));
    assert(p =~= seq![numeral(0xffff, 16), v4]);
    assert(p.drop_last() =~= seq![numeral(0xffff, 16)]);
    assert(all_groups(p.drop_last()));
    assert(group(v4) is None) by {
        lemma_v4_is_no_group(low);
    }
    assert(group_values(p.drop_last()) =~= seq![0xffffu16]);
    let g = seq![0xffffu16] + v4_groups(low);
    assert(groups(t, true) == Some(g));
    let all = h + zeros(5) + g;
    assert(all =~= seq![
        0u16,
        0u16,
        0u16,
        0u16,
        0u16,
        0xffffu16,
        (low / 0x1_0000) as u16,
        (low % 0x1_0000) as u16,
    ]);
    assert(address_of(all) == n);
}

/// A dot is no hexadecimal digit.
proof fn lemma_v4_is_no_group(n: u32)
    ensures
        group(ipv4_text(n)) is None,
{
    let a = numeral((n / 0x100_0000) as nat, 10);
    let s = ipv4_text(n);
    assert(s[a.len() as int] == '.');
    if group(s) is Some {
        assert(all_digits(s, 16));
        assert(is_digit(s[a.len() as int], 16));
    }
}

/// Eight groups written in full read back.
proof fn lemma_full_text(g: Seq<u16>)
    requires
        g.len() == 8,
    ensures
        ipv6(joined(g)) == Some(address_of(g)),
        joined(g)[joined(g.drop_last()).len() as int] == ':',
        joined(g.drop_last()).len() < joined(g).len(),
{
    lemma_no_gap(g);
    lemma_groups(g, true);
    lemma_group(g.last());
}

/// Groups around a gap read back.
proof fn lemma_gap_text(h: Seq<u16>, t: Seq<u16>)
    requires
        h.len() + t.len() <= 7,
    ensures
        ipv6(joined(h) + gap() + joined(t)) == Some(
            address_of(h + zeros(8 - h.len() - t.len()) + t),
        ),
{
    let f = joined(h);
    let s = f + gap() + joined(t);
    lemma_gap_found(h, joined(t));
    assert(s.take(f.len() as int) =~= f);
    assert(s.skip(f.len() as int + 2) =~= joined(t));
    lemma_groups(h, false);
    lemma_groups(t, true);
}

/// Groups written with a run of zeros left out read back.
proof fn lemma_run_text(g: Seq<u16>, run: (int, int))
    requires
        g.len() == 8,
        zero_run(g, run.0, run.1),
        run.1 > 1,
    ensures
        ipv6(joined(g.take(run.0)) + gap() + joined(g.skip(run.0 + run.1))) == Some(address_of(g)),
{
    let h = g.take(run.0);
    let t = g.skip(run.0 + run.1);
    lemma_gap_text(h, t);
    assert(h + zeros(8 - h.len() - t.len()) + t =~= g);
}

proof fn lemma_ipv6_text(n: u128)
    ensures
        ipv6(ipv6_text(n)) == Some(n),
        exists|i: int| 0 <= i < ipv6_text(n).len() && ipv6_text(n)[i] == ':',
{
    let g = groups_of(n);
    let s = ipv6_text(n);
    lemma_groups_of(n);
    if n / 0x1_0000_0000 == 0xffff {
        lemma_mapped_text(n);
        assert(s[0] == ':');
    } else {
        lemma_run_exists(g, 8);
        let run = run_of(g);
        if run.1 > 1 {
            lemma_run_text(g, run);
            assert(s[joined(g.take(run.0)).len() as int] == ':');
        } else {
            lemma_full_text(g);
            assert(s[joined(g.drop_last()).len() as int] == ':');
        }
    }
}

/// The written form of every address reads back as that address.
pub proof fn law_written_address_reads_back(ip: IpAddr)
    ensures
        ip_addr(ip_text(ip)) == Some(ip),
{
    reveal(ip_addr);
    match ip {
        IpAddr::V4(n) => {
            lemma_ipv4_text(n);
        },
        IpAddr::V6(n) => {
            lemma_ipv6_text(n);
            let s = ipv6_text(n);
            let i = choose|i: int| 0 <= i < s.len() && s[i] == ':';
            lemma_colon_is_not_ipv4(s, i);
        },
    }
}

/// No two addresses are written alike.
pub proof fn law_written_addresses_differ(a: IpAddr, b: IpAddr)
    requires
        ip_text(a) == ip_text(b),
    ensures
        a == b,
{
    law_written_address_reads_back(a);
    law_written_address_reads_back(b);
}

/// The characters that addresses are written with.
pub open spec fn is_addr_char(c: char) -> bool {
    is_digit(c, 16) || c == ':' || c == '.'
}

/// Joined groups hold nothing but hexadecimal digits and colons.
proof fn lemma_joined_chars(g: Seq<u16>)
    ensures
        forall|i: int| 0 <= i < joined(g).len() ==> is_addr_char(#[trigger] joined(g)[i]),
    decreases g.len(),
{
    if g.len() > 0 {
        let last = numeral(g.last() as nat, 16);
        lemma_numeral(g.last() as nat, 16);
        assert forall|i: int| 0 <= i < last.len() implies is_addr_char(#[trigger] last[i]) by {
            assert(is_digit(last[i], 16));
        }
        if g.len() > 1 {
            lemma_joined_chars(g.drop_last());
            let s = joined(g);
            let f = joined(g.drop_last());
            assert forall|i: int| 0 <= i < s.len() implies is_addr_char(#[trigger] s[i]) by {
                if i < f.len() {
                    assert(s[i] == f[i]);
                } else if i > f.len() {
                    assert(s[i] == last[i - f.len() - 1]);
                }
            }
        }
    }
}

proof fn lemma_ipv4_text_chars(n: u32)
    ensures
        forall|i: int| 0 <= i < ipv4_text(n).len() ==> is_addr_char(#[trigger] ipv4_text(n)[i]),
{
    let s = ipv4_text(n);
    lemma_ipv4_text(n);
    let p = split(s, Sep::Char('.'));
    assert forall|i: int| 0 <= i < p.len() implies all_digits(#[trigger] p[i], 10) by {
        assert(octet(p[i]) is Some);
    }
    lemma_digit_pieces(s, Sep::Char('.'));
    assert forall|i: int| 0 <= i < s.len() implies is_addr_char(#[trigger] s[i]) by {
        assert(Sep::Char('.').splits(s[i]) || is_digit(s[i], 10));
    }
}

/// A written address holds nothing but hexadecimal digits, colons and dots.
pub proof fn lemma_ip_text_chars(ip: IpAddr)
    ensures
        forall|i: int| 0 <= i < ip_text(ip).len() ==> is_addr_char(#[trigger] ip_text(ip)[i]),
{
    match ip {
        IpAddr::V4(n) => lemma_ipv4_text_chars(n),
        IpAddr::V6(n) => {
            let g = groups_of(n);
            let run = run_of(g);
            lemma_joined_chars(g);
            lemma_joined_chars(g.take(run.0));
            lemma_joined_chars(g.skip(run.0 + run.1));
            lemma_ipv4_text_chars((n % 0x1_0000_0000) as u32);
            lemma_numeral(0xffff, 16);
            let f = numeral(0xffff, 16);
            assert forall|i: int| 0 <= i < f.len() implies is_addr_char(#[trigger] f[i]) by {
                assert(is_digit(f[i], 16));
            }
        },
    }
}

proof fn lemma_joined_has_no_slash(g: Seq<u16>)
    ensures
        forall|i: int| 0 <= i < joined(g).len() ==> #[trigger] joined(g)[i] != '/',
{
    lemma_joined_chars(g);
    assert forall|i: int| 0 <= i < joined(g).len() implies #[trigger] joined(g)[i] != '/' by {
        assert(is_addr_char(joined(g)[i]));
    }
}

proof fn lemma_ipv4_text_has_no_slash(n: u32)
    ensures
        forall|i: int| 0 <= i < ipv4_text(n).len() ==> #[trigger] ipv4_text(n)[i] != '/',
{
    lemma_ipv4_text_chars(n);
    assert forall|i: int| 0 <= i < ipv4_text(n).len() implies #[trigger] ipv4_text(n)[i] != '/' by {
        assert(is_addr_char(ipv4_text(n)[i]));
    }
}

proof fn lemma_ip_text_has_no_slash(ip: IpAddr)
    ensures
        forall|i: int| 0 <= i < ip_text(ip).len() ==> #[trigger] ip_text(ip)[i] != '/',
{
    match ip {
        IpAddr::V4(n) => lemma_ipv4_text_has_no_slash(n),
        IpAddr::V6(n) => {
            let g = groups_of(n);
            let run = run_of(g);
            lemma_joined_has_no_slash(g);
            lemma_joined_has_no_slash(g.take(run.0));
            lemma_joined_has_no_slash(g.skip(run.0 + run.1));
            lemma_ipv4_text_has_no_slash((n % 0x1_0000_0000) as u32);
            lemma_numeral(0xffff, 16);
            let f = numeral(0xffff, 16);
            assert forall|i: int| 0 <= i < f.len() implies #[trigger] f[i] != '/' by {
                assert(is_digit(f[i], 16));
            }
        },
    }
}

proof fn lemma_slash_found(host: Seq<char>, len: Seq<char>)
    requires
        forall|i: int| 0 <= i < host.len() ==> #[trigger] host[i] != '/',
        len.len() > 0,
        len[0] == '/',
    ensures
        find(host + len, seq!['/']) == Some(host.len() as int),
{
    let s = host + len;
    let k = host.len() as int;
    assert(s.subrange(k, k + 1) =~= seq!['/']);
    assert forall|j: int| 0 <= j < k implies !occurs_at(s, seq!['/'], j) by {
        if occurs_at(s, seq!['/'], j) {
            assert(s.subrange(j, j + 1)[0] == '/');
            assert(s[j] == host[j]);
        }
    }
    assert(first_at(s, seq!['/'], k));
    lemma_find_is(s, seq!['/'], k);
}

proof fn lemma_full_lengths()
    ensures
        unsigned(seq!['3', '2'], 10, 255) == Some(32nat),
        unsigned(seq!['1', '2', '8'], 10, 255) == Some(128nat),
{
    let a = seq!['3', '2'];
    let b = seq!['1', '2', '8'];
    let none = Seq::<char>::empty();
    assert(a.drop_last() =~= seq!['3']);
    assert(seq!['3'].drop_last() =~= none);
    assert(digits_value(none, 10) == 0);
    assert(digits_value(seq!['3'], 10) == 3);
    assert(digits_value(a, 10) == 32);
    assert(b.drop_last() =~= seq!['1', '2']);
    assert(seq!['1', '2'].drop_last() =~= seq!['1']);
    assert(seq!['1'].drop_last() =~= none);
    assert(digits_value(seq!['1'], 10) == 1);
    assert(digits_value(seq!['1', '2'], 10) == 12);
    assert(digits_value(b, 10) == 128);
    assert(all_digits(a, 10));
    assert(all_digits(b, 10));
}

proof fn lemma_prefix_reads(host: Seq<char>, d: Seq<char>, ip: IpAddr)
    requires
        peer_addr(host) == Some(ip),
        unsigned(d, 10, 255) == Some(width(ip) as nat),
        forall|i: int| 0 <= i < host.len() ==> #[trigger] host[i] != '/',
    ensures
        net_prefix(host + (seq!['/'] + d)) == Some(host_prefix(ip)),
{
    reveal(net_prefix);
    let s = host + (seq!['/'] + d);
    lemma_slash_found(host, seq!['/'] + d);
    assert(s.skip(host.len() as int + 1) =~= d);
    assert(s.take(host.len() as int) =~= host);
}

/// The written form of a peer's own prefix reads back as the prefix that matches that peer alone.
pub proof fn law_written_prefix_reads_back(ip: IpAddr)
    requires
        canonical_addr(ip) == ip,
    ensures
        net_prefix(prefix_text(ip)) == Some(host_prefix(ip)),
{
    law_written_address_reads_back(ip);
    lemma_ip_text_has_no_slash(ip);
    lemma_full_lengths();
    reveal_strlit("/32");
    reveal_strlit("/128");
    assert("/32"@ =~= seq!['/'] + seq!['3', '2']);
    assert("/128"@ =~= seq!['/'] + seq!['1', '2', '8']);
    match ip {
        IpAddr::V4(_) => lemma_prefix_reads(ip_text(ip), seq!['3', '2'], ip),
        IpAddr::V6(_) => lemma_prefix_reads(ip_text(ip), seq!['1', '2', '8'], ip),
    }
}

/// A table that lists the rule of a peer by its own prefix holds a rule for that peer.
pub proof fn law_rule_of_a_peer_is_found(text: Seq<char>, ip: IpAddr)
    requires
        words(text).contains("dst="@ + prefix_text(ip)),
    ensures
        has_rule(text, canonical_addr(ip)),
{
    let word = "dst="@ + prefix_text(ip);
    let host = ip_text(ip);
    law_written_address_reads_back(ip);
    lemma_ip_text_has_no_slash(ip);
    reveal_strlit("dst=");
    reveal_strlit("/32");
    reveal_strlit("/128");
    let len = match ip {
        IpAddr::V4(_) => "/32"@,
        IpAddr::V6(_) => "/128"@,
    };
    assert(word.subrange(0, 4) =~= "dst="@);
    assert(word.skip(4) =~= host + len);
    lemma_slash_found(host, len);
    assert((host + len).take(host.len() as int) =~= host);
    assert(rule_peer(word) == Some(canonical_addr(ip)));
    let i = choose|i: int| 0 <= i < words(text).len() && words(text)[i] == word;
    assert(rule_peer(words(text)[i]) == Some(canonical_addr(ip)));
}

} // verus!
