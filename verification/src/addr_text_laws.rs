//! What holds of addresses in text.
use crate::addr::{canonical_addr, IpAddr};
use crate::addr_text::{
    address_of, all_groups, gap, group, group_values, groups, groups_of, ip_addr, ip_text, ipv4,
    ipv6, joined, lemma_group_value, lemma_run_is, longest_run, octet, peer_addr, run_of, v4_groups,
    zero_run, zeros,
};
use crate::number::{digits, is_digit, lemma_bytes, numeral};
use crate::number_laws::law_numeral;
use crate::roundtrip::{law_written_address_reads_back, lemma_colon_is_not_ipv4, lemma_run_exists};
use crate::text::{
    first_at, lemma_find_is, lemma_find_none, lemma_split_concat, lemma_split_nonempty,
    lemma_split_single, occurs_at, split, Sep,
};
use vstd::prelude::*;

verus! {

/// The pieces with `c` between them.
pub open spec fn glued(p: Seq<Seq<char>>, c: char) -> Seq<char>
    decreases p.len(),
{
    if p.len() == 0 {
        Seq::empty()
    } else if p.len() == 1 {
        p[0]
    } else {
        glued(p.drop_last(), c).push(c) + p.last()
    }
}

/// Gluing puts back together what was parted.
pub proof fn law_gluing_undoes_splitting(s: Seq<char>, c: char)
    ensures
        glued(split(s, Sep::Char(c)), c) == s,
    decreases s.len(),
{
    let sep = Sep::Char(c);
    if s.len() == 0 {
        assert(split(s, sep) =~= seq![Seq::<char>::empty()]);
        assert(glued(split(s, sep), c) =~= s);
    } else {
        let f = split(s.drop_last(), sep);
        let p = split(s, sep);
        law_gluing_undoes_splitting(s.drop_last(), c);
        lemma_split_nonempty(s.drop_last(), sep);
        if s.last() == c {
            assert(p.drop_last() =~= f);
            assert(glued(p, c) =~= s);
        } else {
            assert(p.drop_last() =~= f.drop_last());
            assert(p.last() == f.last().push(s.last()));
            assert(s =~= s.drop_last().push(s.last()));
            if f.len() == 1 {
                assert(f[0] == f.last());
                assert(p.len() == 1 && p[0] == p.last());
                assert(glued(f, c) == f[0]);
            } else {
                assert(p.len() > 1);
                assert(glued(f, c) == glued(f.drop_last(), c).push(c) + f.last());
                assert(glued(p, c) == glued(f.drop_last(), c).push(c) + p.last());
                assert(glued(p, c) =~= glued(f, c).push(s.last()));
            }
        }
    }
}

/// Splitting parts again what was glued together.
pub proof fn law_splitting_undoes_gluing(p: Seq<Seq<char>>, c: char)
    requires
        p.len() > 0,
        forall|i: int| 0 <= i < p.len() ==> !(#[trigger] p[i]).contains(c),
    ensures
        split(glued(p, c), Sep::Char(c)) == p,
    decreases p.len(),
{
    let sep = Sep::Char(c);
    let last = p.last();
    assert(p[p.len() - 1] == last);
    assert forall|i: int| 0 <= i < last.len() implies !sep.splits(#[trigger] last[i]) by {
        assert(last.contains(last[i]));
    }
    lemma_split_single(last, sep);
    if p.len() == 1 {
        assert(p =~= seq![last]);
    } else {
        let f = p.drop_last();
        assert forall|i: int| 0 <= i < f.len() implies !(#[trigger] f[i]).contains(c) by {
            assert(f[i] == p[i]);
        }
        law_splitting_undoes_gluing(f, c);
        lemma_split_concat(glued(f, c), c, last, sep);
        assert(f + seq![last] =~= p);
    }
}

/// Four decimal numbers with dots between them are an IPv4 address, and each IPv4 address is
/// written in this one way only.
#[verifier::rlimit(40)]
pub proof fn law_ipv4_form(a: u8, b: u8, c: u8, d: u8, s: Seq<char>)
    ensures
        ({
            let ip = IpAddr::V4((a * 0x100_0000 + b * 0x1_0000 + c * 0x100 + d) as u32);
            let text = glued(
                seq![
                    numeral(a as nat, 10),
                    numeral(b as nat, 10),
                    numeral(c as nat, 10),
                    numeral(d as nat, 10),
                ],
                '.',
            );
            &&& ip_text(ip) == text
            &&& ip_addr(s) == Some(ip) <==> s == text
        }),
{
    let n = (a * 0x100_0000 + b * 0x1_0000 + c * 0x100 + d) as u32;
    let ip = IpAddr::V4(n);
    lemma_bytes(n, a as nat, b as nat, c as nat, d as nat);
    let p = seq![
        numeral(a as nat, 10),
        numeral(b as nat, 10),
        numeral(c as nat, 10),
        numeral(d as nat, 10),
    ];
    lemma_glue_four(p, '.');
    assert(ip_text(ip) =~= glued(p, '.'));
    law_written_address_reads_back(ip);
    if ip_addr(s) == Some(ip) {
        reveal(ip_addr);
        assert(ipv4(s) == Some(n));
        let q = split(s, Sep::Char('.'));
        lemma_octet_form(q[0]);
        lemma_octet_form(q[1]);
        lemma_octet_form(q[2]);
        lemma_octet_form(q[3]);
        lemma_bytes(n, octet(q[0])->0, octet(q[1])->0, octet(q[2])->0, octet(q[3])->0);
        assert(q =~= p);
        law_gluing_undoes_splitting(s, '.');
    }
}

proof fn lemma_glue_four(p: Seq<Seq<char>>, c: char)
    requires
        p.len() == 4,
    ensures
        glued(p, c) == ((p[0].push(c) + p[1]).push(c) + p[2]).push(c) + p[3],
{
    let p3 = p.drop_last();
    let p2 = p3.drop_last();
    let p1 = p2.drop_last();
    assert(glued(p1, c) == p[0]);
    assert(glued(p2, c) == glued(p1, c).push(c) + p2.last());
    assert(glued(p3, c) == glued(p2, c).push(c) + p3.last());
    assert(glued(p, c) == glued(p3, c).push(c) + p.last());
}

proof fn lemma_octet_form(s: Seq<char>)
    requires
        octet(s) is Some,
    ensures
        s == numeral(octet(s)->0, 10),
        octet(s)->0 <= 255,
{
    assert forall|i: int| 0 <= i < s.len() implies !('A' <= #[trigger] s[i] <= 'F') by {
        assert(is_digit(s[i], 10));
    }
    law_numeral(octet(s)->0, 10, s);
}

/// The number that eight groups of 16 bits spell, the most significant one first.
pub open spec fn spelled(v: Seq<int>) -> int {
    v[0] * 0x1_0000_0000_0000_0000_0000_0000_0000 + v[1] * 0x1_0000_0000_0000_0000_0000_0000 + v[2]
        * 0x1_0000_0000_0000_0000_0000 + v[3] * 0x1_0000_0000_0000_0000 + v[4] * 0x1_0000_0000_0000
        + v[5] * 0x1_0000_0000 + v[6] * 0x1_0000 + v[7]
}

/// Whether a text is one to four hexadecimal digits.
pub open spec fn is_hex_group(s: Seq<char>) -> bool {
    1 <= s.len() <= 4 && forall|i: int| 0 <= i < s.len() ==> is_digit(#[trigger] s[i], 16)
}

/// The numbers that the pieces spell in hexadecimal.
pub open spec fn hex_values(p: Seq<Seq<char>>) -> Seq<int> {
    p.map_values(|s: Seq<char>| digits(s, 16)->0 as int)
}

/// Whether the pieces are neither empty nor hold a colon.
pub open spec fn between_colons(p: Seq<Seq<char>>) -> bool {
    forall|i: int| 0 <= i < p.len() ==> (#[trigger] p[i]).len() > 0 && !p[i].contains(':')
}

proof fn lemma_group(s: Seq<char>)
    ensures
        group(s) is Some <==> is_hex_group(s),
        group(s) matches Some(v) ==> v == digits(s, 16)->0,
{
    if is_hex_group(s) {
        lemma_group_value(s);
    }
}

/// Between colons no two colons stand side by side.
proof fn lemma_no_side_by_side(p: Seq<Seq<char>>)
    requires
        p.len() > 0,
        between_colons(p),
    ensures
        glued(p, ':').len() > 0,
        glued(p, ':').first() != ':',
        glued(p, ':').last() != ':',
        forall|j: int| 0 <= j < glued(p, ':').len() - 1 ==> #[trigger] glued(p, ':')[j] != ':' || glued(p, ':')[j + 1] != ':',
        p.len() > 1 ==> glued(p, ':').contains(':'),
    decreases p.len(),
{
    let s = glued(p, ':');
    let last = p.last();
    assert(p[p.len() - 1] == last);
    assert forall|i: int| 0 <= i < last.len() implies #[trigger] last[i] != ':' by {
        assert(last.contains(last[i]));
    }
    assert(last[0] != ':' && last[last.len() - 1] != ':');
    if p.len() > 1 {
        let f = p.drop_last();
        assert forall|i: int| 0 <= i < f.len() implies (#[trigger] f[i]).len() > 0
            && !f[i].contains(':') by {
            assert(f[i] == p[i]);
        }
        lemma_no_side_by_side(f);
        let g = glued(f, ':');
        assert(s =~= g.push(':') + last);
        assert(s[g.len() as int] == ':');
        assert(s.first() == g.first());
        assert(s.last() == last.last());
        assert forall|j: int| 0 <= j < s.len() - 1 implies #[trigger] s[j] != ':' || s[j + 1]
            != ':' by {
            if j < g.len() - 1 {
                assert(s[j] == g[j] && s[j + 1] == g[j + 1]);
            } else if j == g.len() - 1 {
                assert(s[j] == g.last());
            } else if j == g.len() {
                assert(s[j + 1] == last[0]);
            } else {
                assert(s[j] == last[j - g.len() - 1]);
            }
        }
    }
}

proof fn lemma_groups_glued(p: Seq<Seq<char>>, tail: bool)
    requires
        between_colons(p),
    ensures
        p.len() == 0 ==> groups(glued(p, ':'), tail) == Some(Seq::<u16>::empty()),
        p.len() > 0 ==> groups(glued(p, ':'), tail) == if !all_groups(p.drop_last()) {
            None
        } else if group(p.last()) is Some {
            Some(group_values(p))
        } else if tail && ipv4(p.last()) is Some {
            Some(group_values(p.drop_last()) + v4_groups(ipv4(p.last())->0))
        } else {
            None
        },
{
    if p.len() > 0 {
        lemma_no_side_by_side(p);
        law_splitting_undoes_gluing(p, ':');
    }
}

proof fn lemma_values(p: Seq<Seq<char>>)
    requires
        forall|i: int| 0 <= i < p.len() ==> is_hex_group(#[trigger] p[i]),
    ensures
        all_groups(p),
        group_values(p).len() == p.len(),
        hex_values(p).len() == p.len(),
        forall|i: int| 0 <= i < p.len() ==> #[trigger] group_values(p)[i] == hex_values(p)[i],
{
    assert forall|i: int| 0 <= i < p.len() implies group(#[trigger] p[i]) is Some by {
        lemma_group(p[i]);
    }
    assert forall|i: int| 0 <= i < p.len() implies #[trigger] group_values(p)[i] == hex_values(p)[i] by {
        lemma_group(p[i]);
    }
}

/// Pieces with colons between them, none of them empty, are an IPv6 address exactly where there are
/// eight groups of hexadecimal digits, or six and an IPv4 address.
#[verifier::rlimit(40)]
pub proof fn law_ipv6_without_gap(p: Seq<Seq<char>>, n: u32)
    requires
        p.len() > 1,
        between_colons(p),
    ensures
        p.len() == 8 && (forall|i: int| 0 <= i < 8 ==> is_hex_group(#[trigger] p[i])) ==> ip_addr(
            glued(p, ':'),
        ) == Some(IpAddr::V6(spelled(hex_values(p)) as u128)),
        p.len() == 7 && (forall|i: int| 0 <= i < 6 ==> is_hex_group(#[trigger] p[i])) && ip_addr(
            p[6],
        ) == Some(IpAddr::V4(n)) ==> ip_addr(glued(p, ':')) == Some(
            IpAddr::V6(
                spelled(
                    hex_values(p.take(6)) + seq![n as int / 0x1_0000, n as int % 0x1_0000],
                ) as u128,
            ),
        ),
        p.len() != 7 && p.len() != 8 ==> ip_addr(glued(p, ':')) is None,
        (exists|i: int| 0 <= i < p.len() - 1 && !is_hex_group(#[trigger] p[i])) ==> ip_addr(
            glued(p, ':'),
        ) is None,
        p.len() == 8 && !is_hex_group(p[7]) ==> ip_addr(glued(p, ':')) is None,
        p.len() == 7 && !(ip_addr(p[6]) is Some && ip_addr(p[6])->0 is V4) ==> ip_addr(
            glued(p, ':'),
        ) is None,
{
    reveal(ip_addr);
    let s = glued(p, ':');
    lemma_no_side_by_side(p);
    lemma_find_none(s, gap());
    assert forall|j: int| !occurs_at(s, gap(), j) by {
        if occurs_at(s, gap(), j) {
            let t = s.subrange(j, j + 2);
            assert(t[0] == ':' && t[1] == ':');
            assert(s[j] == ':' && s[j + 1] == ':');
        }
    }
    let at = choose|i: int| 0 <= i < s.len() && s[i] == ':';
    lemma_colon_is_not_ipv4(s, at);
    lemma_groups_glued(p, true);
    lemma_group(p.last());
    let f = p.drop_last();
    assert(forall|i: int| 0 <= i < f.len() ==> #[trigger] f[i] == p[i]);
    if p.len() == 8 && (forall|i: int| 0 <= i < 8 ==> is_hex_group(#[trigger] p[i])) {
        lemma_values(p);
        assert forall|i: int| 0 <= i < f.len() implies group(#[trigger] f[i]) is Some by {
            assert(group(p[i]) is Some);
        }
        let g = group_values(p);
        let v = hex_values(p);
        assert(g[0] == v[0] && g[1] == v[1] && g[2] == v[2] && g[3] == v[3] && g[4] == v[4] && g[5]
            == v[5] && g[6] == v[6] && g[7] == v[7]);
        assert(address_of(g) == spelled(v));
    }
    if exists|i: int| 0 <= i < p.len() - 1 && !is_hex_group(#[trigger] p[i]) {
        let i = choose|i: int| 0 <= i < p.len() - 1 && !is_hex_group(#[trigger] p[i]);
        lemma_group(p[i]);
        assert(group(f[i]) is None);
    }
    if p.len() == 7 {
        assert(p[6] == p.last());
        if group(p.last()) is Some {
            lemma_hex_is_not_ipv4(p[6]);
        }
        lemma_no_colon_is_not_ipv6(p[6]);
        if (forall|i: int| 0 <= i < 6 ==> is_hex_group(#[trigger] p[i])) && ip_addr(p[6]) == Some(
            IpAddr::V4(n),
        ) {
            let six = p.take(6);
            assert(six =~= f);
            assert forall|i: int| 0 <= i < six.len() implies is_hex_group(#[trigger] six[i]) by {
                assert(six[i] == p[i]);
            }
            lemma_values(six);
            let g = group_values(f) + v4_groups(n);
            let v = hex_values(six) + seq![n as int / 0x1_0000, n as int % 0x1_0000];
            let w = group_values(six);
            let x = hex_values(six);
            assert(w[0] == x[0] && w[1] == x[1] && w[2] == x[2] && w[3] == x[3] && w[4] == x[4]
                && w[5] == x[5]);
            assert(g[0] == v[0] && g[1] == v[1] && g[2] == v[2] && g[3] == v[3] && g[4] == v[4]
                && g[5] == v[5] && g[6] == v[6] && g[7] == v[7]);
            assert(address_of(g) == spelled(v));
        }
    }
}

/// Hexadecimal digits alone are no IPv4 address.
proof fn lemma_hex_is_not_ipv4(s: Seq<char>)
    requires
        is_hex_group(s),
    ensures
        ipv4(s) is None,
{
    assert forall|i: int| 0 <= i < s.len() implies !Sep::Char('.').splits(#[trigger] s[i]) by {
        assert(is_digit(s[i], 16));
    }
    lemma_split_single(s, Sep::Char('.'));
}

/// A text without a colon is no IPv6 address.
proof fn lemma_no_colon_is_not_ipv6(s: Seq<char>)
    requires
        !s.contains(':'),
    ensures
        ipv6(s) is None,
{
    lemma_find_none(s, gap());
    assert forall|j: int| !occurs_at(s, gap(), j) by {
        if occurs_at(s, gap(), j) {
            assert(s.subrange(j, j + 2)[0] == ':');
            assert(s.contains(s[j]));
        }
    }
    let sep = Sep::Char(':');
    assert forall|i: int| 0 <= i < s.len() implies !sep.splits(#[trigger] s[i]) by {
        assert(s.contains(s[i]));
    }
    lemma_split_single(s, sep);
}

/// Two colons part an address into what stands before and after them.
#[verifier::rlimit(40)]
proof fn lemma_gap_parts(h: Seq<Seq<char>>, t: Seq<Seq<char>>)
    requires
        between_colons(h),
        between_colons(t),
    ensures
        ip_addr(glued(h, ':') + seq![':', ':'] + glued(t, ':')) == match (
            groups(glued(h, ':'), false),
            groups(glued(t, ':'), true),
        ) {
            (Some(a), Some(b)) => if a.len() + b.len() <= 7 {
                Some(IpAddr::V6(address_of(a + zeros(8 - a.len() - b.len()) + b)))
            } else {
                None
            },
            _ => None::<IpAddr>,
        },
{
    reveal(ip_addr);
    let a = glued(h, ':');
    let b = glued(t, ':');
    let s = a + seq![':', ':'] + b;
    let k = a.len() as int;
    assert(seq![':', ':'] =~= gap());
    assert(s.subrange(k, k + 2) =~= gap());
    if h.len() > 0 {
        lemma_no_side_by_side(h);
    }
    assert forall|j: int| 0 <= j < k implies !occurs_at(s, gap(), j) by {
        if occurs_at(s, gap(), j) {
            let u = s.subrange(j, j + 2);
            assert(u[0] == ':' && u[1] == ':');
            assert(s[j] == ':' && s[j + 1] == ':');
            if j < k - 1 {
                assert(a[j] == s[j] && a[j + 1] == s[j + 1]);
            } else {
                assert(s[j] == a.last());
            }
        }
    }
    assert(first_at(s, gap(), k));
    lemma_find_is(s, gap(), k);
    assert(s[k] == ':');
    lemma_colon_is_not_ipv4(s, k);
    assert(s.take(k) =~= a);
    assert(s.skip(k + 2) =~= b);
}

/// Groups of hexadecimal digits before and after two colons are an IPv6 address exactly where at
/// least one group is left for the two colons: they stand for as many groups of zero as are missing.
#[verifier::rlimit(40)]
pub proof fn law_ipv6_with_gap(h: Seq<Seq<char>>, t: Seq<Seq<char>>)
    requires
        forall|i: int| 0 <= i < h.len() ==> is_hex_group(#[trigger] h[i]),
        forall|i: int| 0 <= i < t.len() ==> is_hex_group(#[trigger] t[i]),
    ensures
        ip_addr(glued(h, ':') + seq![':', ':'] + glued(t, ':')) == if h.len() + t.len() <= 7 {
            Some(
                IpAddr::V6(
                    spelled(
                        hex_values(h) + Seq::new((8 - h.len() - t.len()) as nat, |i: int| 0int)
                            + hex_values(t),
                    ) as u128,
                ),
            )
        } else {
            None
        },
{
    lemma_hex_between_colons(h);
    lemma_hex_between_colons(t);
    lemma_gap_parts(h, t);
    lemma_head_groups(h);
    lemma_tail_groups(t);
    if h.len() + t.len() <= 7 {
        let fill = 8 - h.len() - t.len();
        let g = group_values(h) + zeros(fill) + group_values(t);
        let v = hex_values(h) + Seq::new(fill as nat, |i: int| 0int) + hex_values(t);
        assert forall|i: int| 0 <= i < 8 implies #[trigger] g[i] == v[i] by {
            if i < h.len() {
                assert(group_values(h)[i] == hex_values(h)[i]);
            } else if i >= 8 - t.len() {
                assert(group_values(t)[i - (8 - t.len())] == hex_values(t)[i - (8 - t.len())]);
            }
        }
        lemma_spelled(g, v);
    }
}

/// An IPv4 address may take the place of the last two groups behind two colons.
#[verifier::rlimit(40)]
pub proof fn law_ipv6_with_gap_and_ipv4(
    h: Seq<Seq<char>>,
    t: Seq<Seq<char>>,
    last: Seq<char>,
    n: u32,
)
    requires
        forall|i: int| 0 <= i < h.len() ==> is_hex_group(#[trigger] h[i]),
        forall|i: int| 0 <= i < t.len() ==> is_hex_group(#[trigger] t[i]),
        ip_addr(last) == Some(IpAddr::V4(n)),
    ensures
        ip_addr(glued(h, ':') + seq![':', ':'] + glued(t.push(last), ':')) == if h.len() + t.len()
            <= 5 {
            Some(
                IpAddr::V6(
                    spelled(
                        hex_values(h) + Seq::new((6 - h.len() - t.len()) as nat, |i: int| 0int)
                            + hex_values(t) + seq![n as int / 0x1_0000, n as int % 0x1_0000],
                    ) as u128,
                ),
            )
        } else {
            None
        },
{
    let all = t.push(last);
    lemma_hex_between_colons(h);
    lemma_tail_ipv4(t, last, n);
    lemma_gap_parts(h, all);
    lemma_head_groups(h);
    if h.len() + t.len() <= 5 {
        let fill = 6 - h.len() - t.len();
        let tg = group_values(t) + v4_groups(n);
        let g = group_values(h) + zeros(fill) + tg;
        let v = hex_values(h) + Seq::new(fill as nat, |i: int| 0int) + hex_values(t) + seq![
            n as int / 0x1_0000,
            n as int % 0x1_0000,
        ];
        assert forall|i: int| 0 <= i < 8 implies #[trigger] g[i] == v[i] by {
            if i < h.len() {
                assert(group_values(h)[i] == hex_values(h)[i]);
            } else if i >= h.len() + fill && i < 6 {
                let m = i - h.len() - fill;
                assert(g[i] == tg[m]);
                assert(group_values(t)[m] == hex_values(t)[m]);
            }
        }
        lemma_spelled(g, v);
    }
}

/// With two colons in it, a text is no address where a piece is no group of hexadecimal digits,
/// unless it is the last one.
pub proof fn law_ipv6_refuses_other_pieces(h: Seq<Seq<char>>, t: Seq<Seq<char>>)
    requires
        between_colons(h),
        between_colons(t),
        (exists|i: int| 0 <= i < h.len() && !is_hex_group(#[trigger] h[i])) || (exists|i: int|
            0 <= i < t.len() - 1 && !is_hex_group(#[trigger] t[i])),
    ensures
        ip_addr(glued(h, ':') + seq![':', ':'] + glued(t, ':')) is None,
{
    lemma_gap_parts(h, t);
    if exists|i: int| 0 <= i < h.len() && !is_hex_group(#[trigger] h[i]) {
        let i = choose|i: int| 0 <= i < h.len() && !is_hex_group(#[trigger] h[i]);
        lemma_refused_piece(h, i, false);
    } else {
        let i = choose|i: int| 0 <= i < t.len() - 1 && !is_hex_group(#[trigger] t[i]);
        lemma_refused_piece(t, i, true);
    }
}

proof fn lemma_refused_piece(p: Seq<Seq<char>>, i: int, tail: bool)
    requires
        between_colons(p),
        0 <= i < p.len(),
        !is_hex_group(p[i]),
        i < p.len() - 1 || !tail,
    ensures
        groups(glued(p, ':'), tail) is None,
{
    lemma_groups_glued(p, tail);
    lemma_group(p[i]);
    let f = p.drop_last();
    if i < f.len() {
        assert(group(f[i]) is None);
    }
}

#[verifier::rlimit(40)]
proof fn lemma_tail_ipv4(t: Seq<Seq<char>>, last: Seq<char>, n: u32)
    requires
        forall|i: int| 0 <= i < t.len() ==> is_hex_group(#[trigger] t[i]),
        ip_addr(last) == Some(IpAddr::V4(n)),
    ensures
        between_colons(t.push(last)),
        groups(glued(t.push(last), ':'), true) == Some(group_values(t) + v4_groups(n)),
        group_values(t).len() == t.len(),
        hex_values(t).len() == t.len(),
        forall|i: int| 0 <= i < t.len() ==> #[trigger] group_values(t)[i] == hex_values(t)[i],
{
    let all = t.push(last);
    lemma_ipv4_chars(last, n);
    lemma_hex_between_colons(t);
    assert forall|i: int| 0 <= i < all.len() implies (#[trigger] all[i]).len() > 0
        && !all[i].contains(':') by {
        if i < t.len() {
            assert(all[i] == t[i]);
        }
    }
    lemma_groups_glued(all, true);
    assert(all.drop_last() =~= t);
    lemma_values(t);
    lemma_group(last);
    if group(last) is Some {
        lemma_hex_is_not_ipv4(last);
    }
}

proof fn lemma_hex_between_colons(p: Seq<Seq<char>>)
    requires
        forall|i: int| 0 <= i < p.len() ==> is_hex_group(#[trigger] p[i]),
    ensures
        between_colons(p),
{
    assert forall|i: int| 0 <= i < p.len() implies (#[trigger] p[i]).len() > 0 && !p[i].contains(
        ':',
    ) by {
        let s = p[i];
        assert(is_hex_group(s));
        if s.contains(':') {
            let k = choose|k: int| 0 <= k < s.len() && s[k] == ':';
            assert(is_digit(s[k], 16));
        }
    }
}

/// A written IPv4 address is not empty and holds no colon.
proof fn lemma_ipv4_chars(s: Seq<char>, n: u32)
    requires
        ip_addr(s) == Some(IpAddr::V4(n)),
    ensures
        s.len() > 0,
        !s.contains(':'),
        ipv4(s) == Some(n),
{
    reveal(ip_addr);
    if s.contains(':') {
        let k = choose|k: int| 0 <= k < s.len() && s[k] == ':';
        lemma_colon_is_not_ipv4(s, k);
    }
    if s.len() == 0 {
        assert(split(s, Sep::Char('.')).len() == 1);
    }
}

proof fn lemma_head_groups(h: Seq<Seq<char>>)
    requires
        between_colons(h),
        forall|i: int| 0 <= i < h.len() ==> is_hex_group(#[trigger] h[i]),
    ensures
        groups(glued(h, ':'), false) == Some(group_values(h)),
        group_values(h).len() == h.len(),
        hex_values(h).len() == h.len(),
        forall|i: int| 0 <= i < h.len() ==> #[trigger] group_values(h)[i] == hex_values(h)[i],
{
    lemma_groups_glued(h, false);
    lemma_values(h);
    if h.len() == 0 {
        assert(group_values(h) =~= Seq::<u16>::empty());
    } else {
        let f = h.drop_last();
        assert forall|i: int| 0 <= i < f.len() implies group(#[trigger] f[i]) is Some by {
            assert(group(h[i]) is Some);
        }
        assert(group(h[h.len() - 1]) is Some);
    }
}

proof fn lemma_tail_groups(t: Seq<Seq<char>>)
    requires
        between_colons(t),
        forall|i: int| 0 <= i < t.len() ==> is_hex_group(#[trigger] t[i]),
    ensures
        groups(glued(t, ':'), true) == Some(group_values(t)),
        group_values(t).len() == t.len(),
        hex_values(t).len() == t.len(),
        forall|i: int| 0 <= i < t.len() ==> #[trigger] group_values(t)[i] == hex_values(t)[i],
{
    lemma_groups_glued(t, true);
    lemma_values(t);
    if t.len() == 0 {
        assert(group_values(t) =~= Seq::<u16>::empty());
    } else {
        let f = t.drop_last();
        assert forall|i: int| 0 <= i < f.len() implies group(#[trigger] f[i]) is Some by {
            assert(group(t[i]) is Some);
        }
        assert(group(t[t.len() - 1]) is Some);
    }
}

proof fn lemma_spelled(g: Seq<u16>, v: Seq<int>)
    requires
        g.len() == 8,
        forall|i: int| 0 <= i < 8 ==> #[trigger] g[i] == v[i],
    ensures
        address_of(g) == spelled(v),
{
    assert(g[0] == v[0] && g[1] == v[1] && g[2] == v[2] && g[3] == v[3] && g[4] == v[4] && g[5]
        == v[5] && g[6] == v[6] && g[7] == v[7]);
}

/// The hexadecimal numerals of groups.
pub open spec fn hex_numerals(g: Seq<u16>) -> Seq<Seq<char>> {
    g.map_values(|v: u16| numeral(v as nat, 16))
}

proof fn lemma_joined_is_glued(g: Seq<u16>)
    ensures
        joined(g) == glued(hex_numerals(g), ':'),
    decreases g.len(),
{
    if g.len() > 1 {
        lemma_joined_is_glued(g.drop_last());
        assert(hex_numerals(g).drop_last() =~= hex_numerals(g.drop_last()));
    }
}

/// The groups of a number are those that spell it.
#[verifier::rlimit(40)]
proof fn lemma_groups_are(n: u128, g: Seq<u16>)
    requires
        g.len() == 8,
        spelled(g.map_values(|v: u16| v as int)) == n,
    ensures
        groups_of(n) == g,
{
    let v = g.map_values(|v: u16| v as int);
    let m7: int = n as int;
    let m6 = v[0] * 0x1_0000_0000_0000_0000_0000_0000 + v[1] * 0x1_0000_0000_0000_0000_0000 + v[2]
        * 0x1_0000_0000_0000_0000 + v[3] * 0x1_0000_0000_0000 + v[4] * 0x1_0000_0000 + v[5]
        * 0x1_0000 + v[6];
    let m5 = v[0] * 0x1_0000_0000_0000_0000_0000 + v[1] * 0x1_0000_0000_0000_0000 + v[2]
        * 0x1_0000_0000_0000 + v[3] * 0x1_0000_0000 + v[4] * 0x1_0000 + v[5];
    let m4 = v[0] * 0x1_0000_0000_0000_0000 + v[1] * 0x1_0000_0000_0000 + v[2] * 0x1_0000_0000 + v[3]
        * 0x1_0000 + v[4];
    let m3 = v[0] * 0x1_0000_0000_0000 + v[1] * 0x1_0000_0000 + v[2] * 0x1_0000 + v[3];
    let m2 = v[0] * 0x1_0000_0000 + v[1] * 0x1_0000 + v[2];
    let m1 = v[0] * 0x1_0000 + v[1];
    assert(m7 == m6 * 0x1_0000 + v[7]);
    assert(m6 == m5 * 0x1_0000 + v[6]);
    assert(m5 == m4 * 0x1_0000 + v[5]);
    assert(m4 == m3 * 0x1_0000 + v[4]);
    assert(m3 == m2 * 0x1_0000 + v[3]);
    assert(m2 == m1 * 0x1_0000 + v[2]);
    assert(n / 0x1_0000 == m6);
    assert(n / 0x1_0000 / 0x1_0000 == m5);
    assert(n / 0x1_0000 / 0x1_0000 / 0x1_0000 == m4);
    assert(n / 0x1_0000 / 0x1_0000 / 0x1_0000 / 0x1_0000 == m3);
    assert(n / 0x1_0000 / 0x1_0000 / 0x1_0000 / 0x1_0000 / 0x1_0000 == m2);
    assert(n / 0x1_0000 / 0x1_0000 / 0x1_0000 / 0x1_0000 / 0x1_0000 / 0x1_0000 == m1);
    assert(groups_of(n) =~= g);
}

/// Whether the `len` groups from `start` on are there and zero.
pub open spec fn zero_from(g: Seq<u16>, start: int, len: int) -> bool {
    0 <= start && 0 <= len && start + len <= g.len() && forall|i: int|
        start <= i < start + len ==> #[trigger] g[i] == 0
}

/// An IPv6 address that stands for an IPv4 address ends in that address; any other one without two
/// groups of zero in a row is written with all of its groups.
pub proof fn law_ipv6_is_written_in_full(n: u128, g: Seq<u16>, m: u32)
    requires
        g.len() == 8,
        spelled(g.map_values(|v: u16| v as int)) == n,
    ensures
        n == 0xffff_0000_0000 + m ==> ip_text(IpAddr::V6(n)) == seq![
            ':',
            ':',
            'f',
            'f',
            'f',
            'f',
            ':',
        ] + ip_text(IpAddr::V4(m)),
        !(0xffff_0000_0000 <= n <= 0xffff_ffff_ffff) && (forall|i: int|
            0 <= i < 7 ==> !(#[trigger] g[i] == 0 && g[i + 1] == 0)) ==> ip_text(IpAddr::V6(n))
            == glued(hex_numerals(g), ':'),
{
    lemma_groups_are(n, g);
    lemma_joined_is_glued(g);
    if n == 0xffff_0000_0000 + m {
        assert(n / 0x1_0000_0000 == 0xffff && n % 0x1_0000_0000 == m);
        lemma_ffff();
        assert(ip_text(IpAddr::V6(n)) =~= seq![':', ':', 'f', 'f', 'f', 'f', ':'] + ip_text(
            IpAddr::V4(m),
        ));
    }
    if !(0xffff_0000_0000 <= n <= 0xffff_ffff_ffff) {
        assert(n / 0x1_0000_0000 != 0xffff);
        if forall|i: int| 0 <= i < 7 ==> !(#[trigger] g[i] == 0 && g[i + 1] == 0) {
            lemma_run_exists(g, 8);
            let run = run_of(g);
            if run.1 > 1 {
                assert(g[run.0] == 0 && g[run.0 + 1] == 0);
            }
        }
    }
}

/// An IPv6 address is written without its longest run of two or more groups of zero, the first of
/// that length.
pub proof fn law_ipv6_is_written_short(n: u128, g: Seq<u16>, start: int, len: int)
    requires
        g.len() == 8,
        spelled(g.map_values(|v: u16| v as int)) == n,
        !(0xffff_0000_0000 <= n <= 0xffff_ffff_ffff),
        len >= 2,
        zero_from(g, start, len),
        forall|s: int, l: int| #[trigger]
            zero_from(g, s, l) ==> l < len || (l == len && start <= s),
    ensures
        ip_text(IpAddr::V6(n)) == glued(hex_numerals(g.take(start)), ':') + seq![':', ':'] + glued(
            hex_numerals(g.skip(start + len)),
            ':',
        ),
{
    lemma_groups_are(n, g);
    assert(n / 0x1_0000_0000 != 0xffff);
    assert(longest_run(g, start, len)) by {
        assert forall|s: int, l: int| #[trigger] zero_run(g, s, l) implies l < len || (l == len
            && start <= s) by {
            assert(zero_from(g, s, l));
        }
    }
    lemma_run_is(g, start, len);
    lemma_joined_is_glued(g.take(start));
    lemma_joined_is_glued(g.skip(start + len));
    assert(gap() =~= seq![':', ':']);
}

proof fn lemma_ffff()
    ensures
        numeral(0xffff, 16) == seq!['f', 'f', 'f', 'f'],
{
    reveal_with_fuel(numeral, 5);
    assert(numeral(0xffff, 16) =~= seq!['f', 'f', 'f', 'f']);
}

/// With two colons in it, a text is no address where its last piece is neither a group of
/// hexadecimal digits nor an IPv4 address.
pub proof fn law_ipv6_refuses_other_endings(h: Seq<Seq<char>>, t: Seq<Seq<char>>)
    requires
        between_colons(h),
        between_colons(t),
        t.len() > 0,
        !is_hex_group(t.last()),
        !(ip_addr(t.last()) is Some && ip_addr(t.last())->0 is V4),
    ensures
        ip_addr(glued(h, ':') + seq![':', ':'] + glued(t, ':')) is None,
{
    lemma_gap_parts(h, t);
    lemma_groups_glued(t, true);
    lemma_group(t.last());
    lemma_ipv4_or_not(t.last());
}

proof fn lemma_ipv4_or_not(s: Seq<char>)
    ensures
        ipv4(s) is Some <==> ip_addr(s) is Some && ip_addr(s)->0 is V4,
{
    reveal(ip_addr);
}

/// A text without colons is an IPv4 address or none at all.
pub proof fn law_no_colon_no_ipv6(s: Seq<char>)
    ensures
        !s.contains(':') ==> ip_addr(s) is None || ip_addr(s)->0 is V4,
        ip_addr(s) is Some && ip_addr(s)->0 is V4 ==> !s.contains(':'),
        peer_addr(s) == match ip_addr(s) {
            Some(ip) => Some(canonical_addr(ip)),
            None => None,
        },
{
    reveal(ip_addr);
    if !s.contains(':') {
        lemma_no_colon_is_not_ipv6(s);
    } else {
        let k = choose|k: int| 0 <= k < s.len() && s[k] == ':';
        lemma_colon_is_not_ipv4(s, k);
    }
}

/// Whether a text begins or ends with a colon, or holds two in a row.
pub open spec fn colon_astray(s: Seq<char>) -> bool {
    s.len() > 0 && (s.first() == ':' || s.last() == ':' || exists|j: int|
        0 <= j < s.len() - 1 && #[trigger] s[j] == ':' && s[j + 1] == ':')
}

#[verifier::rlimit(40)]
proof fn lemma_astray(s: Seq<char>, tail: bool)
    requires
        colon_astray(s),
    ensures
        groups(s, tail) is None,
{
    let sep = Sep::Char(':');
    let p = split(s, sep);
    let none = Seq::<char>::empty();
    assert(group(none) is None);
    assert(ipv4(none) is None) by {
        assert(split(none, Sep::Char('.')).len() == 1);
    }
    lemma_split_single(none, sep);
    if s.first() == ':' {
        let rest = s.skip(1);
        assert(s =~= none.push(':') + rest);
        lemma_split_concat(none, ':', rest, sep);
        lemma_split_nonempty(rest, sep);
        assert(p.drop_last()[0] == none);
    } else if s.last() == ':' {
        let front = s.drop_last();
        assert(s =~= front.push(':') + none);
        lemma_split_concat(front, ':', none, sep);
        assert(p.last() == none);
    } else {
        let j = choose|j: int| 0 <= j < s.len() - 1 && #[trigger] s[j] == ':' && s[j + 1] == ':';
        let u = s.take(j);
        let v = s.skip(j + 2);
        let w = none.push(':') + v;
        assert(s =~= u.push(':') + w);
        lemma_split_concat(u, ':', w, sep);
        lemma_split_concat(none, ':', v, sep);
        lemma_split_nonempty(u, sep);
        lemma_split_nonempty(v, sep);
        let k = split(u, sep).len() as int;
        assert(p.drop_last()[k] == none);
    }
}

/// A colon that stands alone at an end of a text, and two colons in a second place, keep it from
/// being an address.
#[verifier::rlimit(40)]
pub proof fn law_ipv6_refuses_stray_colons(s: Seq<char>, x: Seq<char>, y: Seq<char>)
    ensures
        colon_astray(s) && (forall|j: int|
            0 <= j < s.len() - 1 ==> !(#[trigger] s[j] == ':' && s[j + 1] == ':')) ==> ip_addr(
            s,
        ) is None,
        (forall|j: int| 0 <= j < x.len() - 1 ==> !(#[trigger] x[j] == ':' && x[j + 1] == ':')) && !(
        x.len() > 0 && x.last() == ':') && (colon_astray(x) || colon_astray(y)) ==> ip_addr(
            x + seq![':', ':'] + y,
        ) is None,
{
    reveal(ip_addr);
    if colon_astray(s) && (forall|j: int|
        0 <= j < s.len() - 1 ==> !(#[trigger] s[j] == ':' && s[j + 1] == ':')) {
        lemma_find_none(s, gap());
        assert forall|j: int| !occurs_at(s, gap(), j) by {
            if occurs_at(s, gap(), j) {
                let t = s.subrange(j, j + 2);
                assert(t[0] == ':' && t[1] == ':');
                assert(s[j] == ':' && s[j + 1] == ':');
            }
        }
        lemma_astray(s, true);
        let k = if s.first() == ':' {
            0
        } else {
            s.len() - 1
        };
        assert(s[k] == ':');
        lemma_colon_is_not_ipv4(s, k);
    }
    if (forall|j: int| 0 <= j < x.len() - 1 ==> !(#[trigger] x[j] == ':' && x[j + 1] == ':')) && !(
    x.len() > 0 && x.last() == ':') && (colon_astray(x) || colon_astray(y)) {
        let whole = x + seq![':', ':'] + y;
        let k = x.len() as int;
        assert(whole.subrange(k, k + 2) =~= gap());
        assert forall|j: int| 0 <= j < k implies !occurs_at(whole, gap(), j) by {
            if occurs_at(whole, gap(), j) {
                let t = whole.subrange(j, j + 2);
                assert(t[0] == ':' && t[1] == ':');
                assert(whole[j] == ':' && whole[j + 1] == ':');
                if j < k - 1 {
                    assert(x[j] == ':' && x[j + 1] == ':');
                } else {
                    assert(x.last() == ':');
                }
            }
        }
        assert(first_at(whole, gap(), k));
        lemma_find_is(whole, gap(), k);
        assert(whole[k] == ':');
        lemma_colon_is_not_ipv4(whole, k);
        assert(whole.take(k) =~= x);
        assert(whole.skip(k + 2) =~= y);
        if colon_astray(x) {
            lemma_astray(x, false);
        } else {
            lemma_astray(y, true);
        }
    }
}

} // verus!
