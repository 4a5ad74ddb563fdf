//! The written form of IP addresses.
use crate::addr::{canonical_addr, canonicalize, IpAddr};
use crate::number::{
    all_digits, digits, digits_value, is_digit, numeral, parse_digits, push_numeral,
};
use crate::text::{
    chars_of, find, find_slice, lemma_split_nonempty, split, split_slices, views, Sep,
};
use vstd::prelude::*;
use vstd::slice::slice_subrange;

verus! {

/// A decimal number up to 255 without needless zeros.
pub open spec fn octet(s: Seq<char>) -> Option<nat> {
    match digits(s, 10) {
        Some(v) => if s.len() <= 3 && v <= 255 && (s.len() > 1 ==> s[0] != '0') {
            Some(v)
        } else {
            None
        },
        None => None,
    }
}

/// Four octets with dots between them.
pub open spec fn ipv4(s: Seq<char>) -> Option<u32> {
    let p = split(s, Sep::Char('.'));
    if p.len() == 4 && octet(p[0]) is Some && octet(p[1]) is Some && octet(p[2]) is Some && octet(
        p[3],
    ) is Some {
        Some(
            (octet(p[0])->0 * 0x100_0000 + octet(p[1])->0 * 0x1_0000 + octet(p[2])->0 * 0x100
                + octet(p[3])->0) as u32,
        )
    } else {
        None
    }
}

/// One to four hexadecimal digits.
pub open spec fn group(s: Seq<char>) -> Option<u16> {
    if s.len() <= 4 && digits(s, 16) is Some {
        Some(digits(s, 16)->0 as u16)
    } else {
        None
    }
}

/// Whether every piece is a group.
pub open spec fn all_groups(pieces: Seq<Seq<char>>) -> bool {
    forall|i: int| 0 <= i < pieces.len() ==> group(#[trigger] pieces[i]) is Some
}

/// The values of the pieces, each of them a group.
pub open spec fn group_values(pieces: Seq<Seq<char>>) -> Seq<u16> {
    pieces.map_values(|p: Seq<char>| group(p)->0)
}

/// The two groups that an IPv4 address fills.
pub open spec fn v4_groups(n: u32) -> Seq<u16> {
    seq![(n / 0x1_0000) as u16, (n % 0x1_0000) as u16]
}

/// Groups with colons between them, or nothing; where `tail` holds, an IPv4 address may take the
/// place of the last two.
pub open spec fn groups(s: Seq<char>, tail: bool) -> Option<Seq<u16>> {
    let p = split(s, Sep::Char(':'));
    if s.len() == 0 {
        Some(Seq::empty())
    } else if !all_groups(p.drop_last()) {
        None
    } else if group(p.last()) is Some {
        Some(group_values(p))
    } else if tail && ipv4(p.last()) is Some {
        Some(group_values(p.drop_last()) + v4_groups(ipv4(p.last())->0))
    } else {
        None
    }
}

/// The address that eight groups spell.
pub open spec fn address_of(g: Seq<u16>) -> u128 {
    (g[0] * 0x1_0000_0000_0000_0000_0000_0000_0000 + g[1] * 0x1_0000_0000_0000_0000_0000_0000
        + g[2] * 0x1_0000_0000_0000_0000_0000 + g[3] * 0x1_0000_0000_0000_0000 + g[4]
        * 0x1_0000_0000_0000 + g[5] * 0x1_0000_0000 + g[6] * 0x1_0000 + g[7]) as u128
}

/// `n` groups of zero.
pub open spec fn zeros(n: int) -> Seq<u16> {
    Seq::new(n as nat, |i: int| 0u16)
}

/// The two colons that stand for one group of zero or more.
pub open spec fn gap() -> Seq<char> {
    seq![':', ':']
}

/// Eight groups, or fewer with one gap among them.
pub open spec fn ipv6(s: Seq<char>) -> Option<u128> {
    match find(s, gap()) {
        None => match groups(s, true) {
            Some(g) => if g.len() == 8 {
                Some(address_of(g))
            } else {
                None
            },
            None => None,
        },
        Some(i) => match (groups(s.take(i), false), groups(s.skip(i + 2), true)) {
            (Some(h), Some(t)) => if h.len() + t.len() <= 7 {
                Some(address_of(h + zeros(8 - h.len() - t.len()) + t))
            } else {
                None
            },
            _ => None,
        },
    }
}

/// The address that `s` is the written form of.
#[verifier::opaque]
pub open spec fn ip_addr(s: Seq<char>) -> Option<IpAddr> {
    match ipv4(s) {
        Some(n) => Some(IpAddr::V4(n)),
        None => match ipv6(s) {
            Some(n) => Some(IpAddr::V6(n)),
            None => None,
        },
    }
}

fn parse_octet(s: &[char]) -> (r: Option<u32>)
    ensures
        match r {
            Some(v) => octet(s@) == Some(v as nat) && v <= 255,
            None => octet(s@) is None,
        },
{
    if s.len() > 3 || (s.len() > 1 && s[0] == '0') {
        return None;
    }
    match parse_digits(s, 10, 255) {
        Some(v) => Some(v as u32),
        None => None,
    }
}

fn parse_ipv4(s: &[char]) -> (r: Option<u32>)
    ensures
        r == ipv4(s@),
{
    let p = split_slices(s, Sep::Char('.'));
    let ghost v = views(p@);
    if p.len() != 4 {
        return None;
    }
    assert(v[0] == p@[0]@ && v[1] == p@[1]@ && v[2] == p@[2]@ && v[3] == p@[3]@);
    match (parse_octet(p[0]), parse_octet(p[1]), parse_octet(p[2]), parse_octet(p[3])) {
        (Some(a), Some(b), Some(c), Some(d)) => Some(
            a * 0x100_0000 + b * 0x1_0000 + c * 0x100 + d,
        ),
        _ => None,
    }
}

pub proof fn lemma_group_value(s: Seq<char>)
    requires
        all_digits(s, 16),
        s.len() <= 4,
    ensures
        digits_value(s, 16) <= 0xffff,
{
    reveal_with_fuel(digits_value, 5);
    if s.len() > 0 {
        assert(is_digit(s[s.len() - 1], 16));
    }
    if s.len() > 1 {
        assert(is_digit(s[s.len() - 2], 16));
    }
    if s.len() > 2 {
        assert(is_digit(s[s.len() - 3], 16));
    }
    if s.len() > 3 {
        assert(is_digit(s[s.len() - 4], 16));
    }
}

fn parse_group(s: &[char]) -> (r: Option<u16>)
    ensures
        r == group(s@),
{
    if s.len() > 4 {
        return None;
    }
    let r = parse_digits(s, 16, 0xffff);
    proof {
        if digits(s@, 16) is Some {
            lemma_group_value(s@);
        }
    }
    match r {
        Some(v) => Some(v as u16),
        None => None,
    }
}

fn parse_groups(s: &[char], tail: bool) -> (r: Option<Vec<u16>>)
    ensures
        match r {
            Some(g) => groups(s@, tail) == Some(g@),
            None => groups(s@, tail) is None,
        },
{
    let mut out: Vec<u16> = Vec::new();
    if s.len() == 0 {
        assert(out@ =~= Seq::<u16>::empty());
        return Some(out);
    }
    let p = split_slices(s, Sep::Char(':'));
    let ghost v = views(p@);
    proof {
        lemma_split_nonempty(s@, Sep::Char(':'));
    }
    let last: usize = p.len() - 1;
    let mut i: usize = 0;
    assert(out@ =~= group_values(v.take(0)));
    while i < last
        invariant
            i <= last,
            last == p@.len() - 1,
            s@.len() > 0,
            v == views(p@),
            v == split(s@, Sep::Char(':')),
            all_groups(v.take(i as int)),
            out@ == group_values(v.take(i as int)),
        decreases last - i,
    {
        assert(v[i as int] == p@[i as int]@);
        match parse_group(p[i]) {
            Some(g) => {
                out.push(g);
                assert(v.take(i + 1) =~= v.take(i as int).push(v[i as int]));
                assert(out@ =~= group_values(v.take(i + 1)));
                assert forall|k: int| 0 <= k < i + 1 implies group(
                    #[trigger] v.take(i + 1)[k],
                ) is Some by {
                    if k < i {
                        assert(v.take(i + 1)[k] == v.take(i as int)[k]);
                    }
                }
            },
            None => {
                assert(v.drop_last()[i as int] == v[i as int]);
                return None;
            },
        }
        i += 1;
    }
    assert(v.take(last as int) =~= v.drop_last());
    assert(v[last as int] == p@[last as int]@);
    assert(v.last() == p@[last as int]@);
    match parse_group(p[last]) {
        Some(g) => {
            out.push(g);
            assert(v =~= v.drop_last().push(v.last()));
            assert(out@ =~= group_values(v));
            Some(out)
        },
        None => {
            if !tail {
                return None;
            }
            match parse_ipv4(p[last]) {
                Some(n) => {
                    let ghost was = out@;
                    out.push((n / 0x1_0000) as u16);
                    out.push((n % 0x1_0000) as u16);
                    assert(out@ =~= was + v4_groups(n));
                    Some(out)
                },
                None => None,
            }
        },
    }
}

fn address(g: &Vec<u16>) -> (n: u128)
    requires
        g@.len() == 8,
    ensures
        n == address_of(g@),
{
    g[0] as u128 * 0x1_0000_0000_0000_0000_0000_0000_0000 + g[1] as u128
        * 0x1_0000_0000_0000_0000_0000_0000 + g[2] as u128 * 0x1_0000_0000_0000_0000_0000
        + g[3] as u128 * 0x1_0000_0000_0000_0000 + g[4] as u128 * 0x1_0000_0000_0000
        + g[5] as u128 * 0x1_0000_0000 + g[6] as u128 * 0x1_0000 + g[7] as u128
}

fn parse_ipv6(s: &[char]) -> (r: Option<u128>)
    ensures
        r == ipv6(s@),
{
    let colons: [char; 2] = [':', ':'];
    assert(colons@ =~= gap());
    match find_slice(s, &colons) {
        None => match parse_groups(s, true) {
            Some(g) => if g.len() == 8 {
                Some(address(&g))
            } else {
                None
            },
            None => None,
        },
        Some(i) => {
            assert(s@.subrange(0, i as int) =~= s@.take(i as int));
            assert(s@.subrange(i + 2, s@.len() as int) =~= s@.skip(i + 2));
            let end: usize = s.len();
            let head = parse_groups(slice_subrange(s, 0, i), false);
            let tail = parse_groups(slice_subrange(s, i + 2, end), true);
            match (head, tail) {
                (Some(h), Some(t)) => {
                    if h.len() > 7 || t.len() > 7 - h.len() {
                        return None;
                    }
                    let mut g: Vec<u16> = Vec::new();
                    let mut k: usize = 0;
                    while k < 8
                        invariant
                            k <= 8,
                            h@.len() + t@.len() <= 7,
                            g@ == (h@ + zeros(8 - h@.len() - t@.len()) + t@).take(k as int),
                        decreases 8 - k,
                    {
                        let ghost all = h@ + zeros(8 - h@.len() - t@.len()) + t@;
                        let fill: usize = 8 - t.len();
                        if k < h.len() {
                            g.push(h[k]);
                        } else if k < fill {
                            g.push(0);
                        } else {
                            g.push(t[k - fill]);
                        }
                        assert(g@ =~= all.take(k + 1));
                        k += 1;
                    }
                    assert(g@ =~= h@ + zeros(8 - h@.len() - t@.len()) + t@);
                    Some(address(&g))
                },
                _ => None,
            }
        },
    }
}

/// The address that `s` is the written form of.
pub fn parse_ip(s: &[char]) -> (r: Option<IpAddr>)
    ensures
        r == ip_addr(s@),
{
    reveal(ip_addr);
    match parse_ipv4(s) {
        Some(n) => Some(IpAddr::V4(n)),
        None => match parse_ipv6(s) {
            Some(n) => Some(IpAddr::V6(n)),
            None => None,
        },
    }
}

/// The eight groups of an IPv6 address.
pub open spec fn groups_of(n: u128) -> Seq<u16> {
    let q6 = n / 0x1_0000;
    let q5 = q6 / 0x1_0000;
    let q4 = q5 / 0x1_0000;
    let q3 = q4 / 0x1_0000;
    let q2 = q3 / 0x1_0000;
    let q1 = q2 / 0x1_0000;
    let q0 = q1 / 0x1_0000;
    seq![
        q0 as u16,
        (q1 % 0x1_0000) as u16,
        (q2 % 0x1_0000) as u16,
        (q3 % 0x1_0000) as u16,
        (q4 % 0x1_0000) as u16,
        (q5 % 0x1_0000) as u16,
        (q6 % 0x1_0000) as u16,
        (n % 0x1_0000) as u16,
    ]
}

/// An IPv4 address in decimal, with dots.
pub open spec fn ipv4_text(n: u32) -> Seq<char> {
    ((numeral((n / 0x100_0000) as nat, 10).push('.') + numeral(
        (n / 0x1_0000 % 0x100) as nat,
        10,
    )).push('.') + numeral((n / 0x100 % 0x100) as nat, 10)).push('.') + numeral(
        (n % 0x100) as nat,
        10,
    )
}

/// Groups in hexadecimal, with colons between them.
pub open spec fn joined(g: Seq<u16>) -> Seq<char>
    decreases g.len(),
{
    if g.len() == 0 {
        Seq::empty()
    } else if g.len() == 1 {
        numeral(g[0] as nat, 16)
    } else {
        joined(g.drop_last()).push(':') + numeral(g.last() as nat, 16)
    }
}

/// Whether the `len` groups from `start` on are zero.
pub open spec fn zero_run(g: Seq<u16>, start: int, len: int) -> bool {
    &&& 0 <= start
    &&& 0 <= len
    &&& start + len <= g.len()
    &&& forall|i: int| start <= i < start + len ==> #[trigger] g[i] == 0
}

/// Whether no run of zeros is longer than the `len` groups from `start` on, and none of that length
/// comes before.
pub open spec fn longest_run(g: Seq<u16>, start: int, len: int) -> bool {
    &&& zero_run(g, start, len)
    &&& forall|s: int, l: int| #[trigger]
        zero_run(g, s, l) ==> l < len || (l == len && start <= s)
}

/// The longest run of zeros, as its start and its length; the first one of that length.
pub open spec fn run_of(g: Seq<u16>) -> (int, int) {
    choose|r: (int, int)| #[trigger] longest_run(g, r.0, r.1)
}

/// An IPv6 address in hexadecimal, its longest run of two or more zero groups left out; the
/// IPv4-mapped ones end in the IPv4 address.
pub open spec fn ipv6_text(n: u128) -> Seq<char> {
    let g = groups_of(n);
    let run = run_of(g);
    if n / 0x1_0000_0000 == 0xffff {
        gap() + (numeral(0xffff, 16).push(':') + ipv4_text((n % 0x1_0000_0000) as u32))
    } else if run.1 > 1 {
        joined(g.take(run.0)) + gap() + joined(g.skip(run.0 + run.1))
    } else {
        joined(g)
    }
}

/// The written form of an address.
pub open spec fn ip_text(ip: IpAddr) -> Seq<char> {
    match ip {
        IpAddr::V4(n) => ipv4_text(n),
        IpAddr::V6(n) => ipv6_text(n),
    }
}

pub proof fn lemma_run_is(g: Seq<u16>, start: int, len: int)
    requires
        longest_run(g, start, len),
    ensures
        run_of(g) == (start, len),
{
    let r = (start, len);
    assert(longest_run(g, r.0, r.1));
    let c = run_of(g);
    assert(longest_run(g, c.0, c.1));
    assert(zero_run(g, c.0, c.1));
    assert(zero_run(g, start, len));
}

fn push_ipv4(s: &mut String, n: u32)
    ensures
        final(s)@ == old(s)@ + ipv4_text(n),
{
    push_numeral(s, (n / 0x100_0000) as u64, 10);
    s.push('.');
    push_numeral(s, (n / 0x1_0000 % 0x100) as u64, 10);
    s.push('.');
    push_numeral(s, (n / 0x100 % 0x100) as u64, 10);
    s.push('.');
    push_numeral(s, (n % 0x100) as u64, 10);
    assert(s@ =~= old(s)@ + ipv4_text(n));
}

/// Appends the groups from `from` up to `to`.
fn push_groups(s: &mut String, g: &Vec<u16>, from: usize, to: usize)
    requires
        from <= to <= g@.len(),
    ensures
        final(s)@ == old(s)@ + joined(g@.subrange(from as int, to as int)),
{
    let mut i: usize = from;
    assert(s@ =~= old(s)@ + joined(g@.subrange(from as int, from as int)));
    while i < to
        invariant
            from <= i <= to <= g@.len(),
            s@ == old(s)@ + joined(g@.subrange(from as int, i as int)),
        decreases to - i,
    {
        let ghost was = g@.subrange(from as int, i as int);
        let ghost now = g@.subrange(from as int, i + 1);
        assert(now.drop_last() =~= was);
        assert(now.last() == g@[i as int]);
        if i > from {
            s.push(':');
        }
        push_numeral(s, g[i] as u64, 16);
        assert(s@ =~= old(s)@ + joined(now));
        i += 1;
    }
}

fn group_vec(n: u128) -> (g: Vec<u16>)
    ensures
        g@ == groups_of(n),
{
    let q6: u128 = n / 0x1_0000;
    let q5: u128 = q6 / 0x1_0000;
    let q4: u128 = q5 / 0x1_0000;
    let q3: u128 = q4 / 0x1_0000;
    let q2: u128 = q3 / 0x1_0000;
    let q1: u128 = q2 / 0x1_0000;
    let q0: u128 = q1 / 0x1_0000;
    let mut g: Vec<u16> = Vec::new();
    g.push(q0 as u16);
    g.push((q1 % 0x1_0000) as u16);
    g.push((q2 % 0x1_0000) as u16);
    g.push((q3 % 0x1_0000) as u16);
    g.push((q4 % 0x1_0000) as u16);
    g.push((q5 % 0x1_0000) as u16);
    g.push((q6 % 0x1_0000) as u16);
    g.push((n % 0x1_0000) as u16);
    assert(g@ =~= groups_of(n));
    g
}

/// How many groups from `from` on are zero.
fn run_from(g: &Vec<u16>, from: usize) -> (len: usize)
    requires
        from <= g@.len(),
    ensures
        zero_run(g@, from as int, len as int),
        from + len < g@.len() ==> g@[from + len] != 0,
{
    let mut i: usize = from;
    while i < g.len() && g[i] == 0
        invariant
            from <= i <= g@.len(),
            forall|k: int| from <= k < i ==> #[trigger] g@[k] == 0,
        decreases g@.len() - i,
    {
        i += 1;
    }
    i - from
}

fn find_run(g: &Vec<u16>) -> (r: (usize, usize))
    ensures
        longest_run(g@, r.0 as int, r.1 as int),
        run_of(g@) == (r.0 as int, r.1 as int),
{
    let mut start: usize = 0;
    let mut len: usize = run_from(g, 0);
    let mut i: usize = 1;
    proof {
        assert forall|s: int, l: int| #[trigger] zero_run(g@, s, l) && s < 1 implies l < len || (l
            == len && start <= s) by {
            if l > len {
                assert(g@[len as int] == 0);
            }
        }
    }
    while i < g.len()
        invariant
            start < i,
            i <= g@.len() || (i == 1 && g@.len() == 0),
            zero_run(g@, start as int, len as int),
            forall|s: int, l: int| #[trigger]
                zero_run(g@, s, l) && s < i ==> l < len || (l == len && start <= s),
        decreases g@.len() - i,
    {
        let here: usize = run_from(g, i);
        assert forall|l: int| #[trigger] zero_run(g@, i as int, l) implies l <= here by {
            if l > here {
                assert(g@[i + here] == 0);
            }
        }
        if here > len {
            start = i;
            len = here;
        }
        i += 1;
    }
    proof {
        assert forall|s: int, l: int| #[trigger] zero_run(g@, s, l) implies l < len || (l == len
            && start <= s) by {
            if s >= i {
                assert(l == 0);
                assert(zero_run(g@, 0, 0));
            }
        }
        lemma_run_is(g@, start as int, len as int);
    }
    (start, len)
}

/// Appends the written form of `ip`.
pub fn push_ip(s: &mut String, ip: IpAddr)
    ensures
        final(s)@ == old(s)@ + ip_text(ip),
{
    match ip {
        IpAddr::V4(n) => push_ipv4(s, n),
        IpAddr::V6(n) => {
            if n / 0x1_0000_0000 == 0xffff {
                s.push(':');
                s.push(':');
                push_numeral(s, 0xffff, 16);
                s.push(':');
                push_ipv4(s, (n % 0x1_0000_0000) as u32);
                assert(s@ =~= old(s)@ + ipv6_text(n));
            } else {
                let g = group_vec(n);
                let run = find_run(&g);
                if run.1 > 1 {
                    push_groups(s, &g, 0, run.0);
                    s.push(':');
                    s.push(':');
                    push_groups(s, &g, run.0 + run.1, 8);
                    assert(g@.subrange(0, run.0 as int) =~= g@.take(run.0 as int));
                    assert(g@.subrange(run.0 + run.1, 8) =~= g@.skip(run.0 + run.1));
                    assert(s@ =~= old(s)@ + ipv6_text(n));
                } else {
                    push_groups(s, &g, 0, 8);
                    assert(g@.subrange(0, 8) =~= g@);
                }
            }
        },
    }
}

/// Why a text is not an address: it does not have the written form of one.
#[derive(Clone, Copy, Debug, PartialEq, Eq, Structural)]
pub struct AddrParseError;

impl core::str::FromStr for IpAddr {
    type Err = AddrParseError;

    /// The address that `s` is the written form of; any other text is refused.
    fn from_str(s: &str) -> (r: Result<IpAddr, AddrParseError>)
        ensures
            match r {
                Ok(ip) => ip_addr(s@) == Some(ip),
                Err(_) => ip_addr(s@) is None,
            },
    {
        let v = chars_of(s);
        match parse_ip(&v) {
            Some(ip) => Ok(ip),
            None => Err(AddrParseError),
        }
    }
}

/// The peer that `s` names: the address that it is the written form of, under which that peer is
/// known.
pub open spec fn peer_addr(s: Seq<char>) -> Option<IpAddr> {
    match ip_addr(s) {
        Some(ip) => Some(canonical_addr(ip)),
        None => None,
    }
}

/// The peer that the characters `s` name.
pub fn parse_peer(s: &[char]) -> (r: Option<IpAddr>)
    ensures
        r == peer_addr(s@),
{
    match parse_ip(s) {
        Some(ip) => Some(canonicalize(ip)),
        None => None,
    }
}

/// The peer that `s` names.
pub fn parse_ip_token(s: &str) -> (r: Option<IpAddr>)
    ensures
        r == peer_addr(s@),
{
    let v = chars_of(s);
    parse_peer(&v)
}

} // verus!
