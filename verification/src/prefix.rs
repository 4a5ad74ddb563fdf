//! Network prefixes and sets of addresses that are made of them.
use crate::addr::{canonical_addr, width, IpAddr};
use crate::addr_text::{ip_addr, ip_text, parse_peer, peer_addr, push_ip};
use crate::number::{parse_unsigned, unsigned};
use crate::ranges::{
    bounds, canonical, canonical_ranges, covers, law_canonical_ranges_are_unique, proper,
    range_contains_v4, range_contains_v6,
};
use crate::text::{chars_of, find, find_char};
use vstd::arithmetic::power2::pow2;
use vstd::prelude::*;
use vstd::slice::slice_subrange;
use vstd::string::*;

verus! {

/// An address and how many of its leading bits name the network.
#[derive(Clone, Copy, Debug, PartialEq, Eq, Structural)]
pub struct NetPrefix {
    pub addr: IpAddr,
    pub plen: u8,
}

/// How many addresses share the leading `plen` of `bits` bits.
pub open spec fn block_size(bits: int, plen: int) -> nat {
    if plen < bits {
        pow2((bits - plen) as nat)
    } else {
        1
    }
}

/// Whether the first `plen` of the `bits` bits of `a` and `b` agree.
pub open spec fn same_block(a: int, b: int, bits: int, plen: int) -> bool {
    a / block_size(bits, plen) as int == b / block_size(bits, plen) as int
}

/// Whether a prefix is longer than nothing and shorter than a whole address.
pub open spec fn subnet(p: NetPrefix) -> bool {
    0 < p.plen < width(p.addr)
}

impl NetPrefix {
    /// Whether the length fits the family of the address.
    pub open spec fn wf(self) -> bool {
        self.plen <= width(self.addr)
    }

    /// Whether `ip` is of the same family and agrees with the prefix in its leading bits.
    pub open spec fn matches(self, ip: IpAddr) -> bool {
        match (self.addr, ip) {
            (IpAddr::V4(net), IpAddr::V4(host)) => same_block(
                net as int,
                host as int,
                32,
                self.plen as int,
            ),
            (IpAddr::V6(net), IpAddr::V6(host)) => same_block(
                net as int,
                host as int,
                128,
                self.plen as int,
            ),
            _ => false,
        }
    }

    /// Whether the prefix is longer than nothing and shorter than a whole address.
    pub fn is_subnet(&self) -> (b: bool)
        ensures
            b == subnet(*self),
    {
        match self.addr {
            IpAddr::V4(_) => self.plen > 0 && self.plen < 32,
            IpAddr::V6(_) => self.plen > 0 && self.plen < 128,
        }
    }

    /// Whether `ip` lies in the network.
    pub fn contains(&self, ip: IpAddr) -> (b: bool)
        ensures
            b == self.matches(ip),
    {
        match (self.addr, ip) {
            (IpAddr::V4(net), IpAddr::V4(host)) => {
                if self.plen == 0 {
                    proof {
                        lemma_whole_v4(net, host);
                    }
                    true
                } else {
                    let shift: u32 = if self.plen < 32 {
                        32 - self.plen as u32
                    } else {
                        0
                    };
                    proof {
                        vstd::bits::lemma_u32_shr_is_div(net, shift);
                        vstd::bits::lemma_u32_shr_is_div(host, shift);
                        vstd::arithmetic::power2::lemma2_to64();
                    }
                    (net >> shift) == (host >> shift)
                }
            },
            (IpAddr::V6(net), IpAddr::V6(host)) => {
                if self.plen == 0 {
                    proof {
                        lemma_whole_v6(net, host);
                    }
                    true
                } else {
                    let shift: u128 = if self.plen < 128 {
                        128 - self.plen as u128
                    } else {
                        0
                    };
                    proof {
                        vstd::bits::lemma_u128_shr_is_div(net, shift);
                        vstd::bits::lemma_u128_shr_is_div(host, shift);
                        vstd::arithmetic::power2::lemma2_to64();
                    }
                    (net >> shift) == (host >> shift)
                }
            },
            _ => false,
        }
    }
}

proof fn lemma_whole_v4(a: u32, b: u32)
    ensures
        same_block(a as int, b as int, 32, 0),
{
    vstd::arithmetic::power2::lemma2_to64();
    assert(block_size(32, 0) == 0x1_0000_0000);
    vstd::arithmetic::div_mod::lemma_basic_div(a as int, 0x1_0000_0000);
    vstd::arithmetic::div_mod::lemma_basic_div(b as int, 0x1_0000_0000);
}

proof fn lemma_pow2_128()
    ensures
        pow2(128) == u128::MAX + 1,
{
    vstd::arithmetic::power2::lemma2_to64();
    vstd::arithmetic::power2::lemma_pow2_adds(64, 64);
}

proof fn lemma_whole_v6(a: u128, b: u128)
    ensures
        same_block(a as int, b as int, 128, 0),
{
    lemma_pow2_128();
    let size: int = u128::MAX + 1;
    assert(block_size(128, 0) == size);
    vstd::arithmetic::div_mod::lemma_basic_div(a as int, size);
    vstd::arithmetic::div_mod::lemma_basic_div(b as int, size);
}

/// Shifting one to the left gives the powers of two.
proof fn lemma_one_shl(shift: u128)
    requires
        shift < 128,
    ensures
        (1u128 << shift) == pow2(shift as nat),
        pow2(shift as nat) >= 1,
    decreases shift,
{
    vstd::arithmetic::power2::lemma2_to64();
    if shift == 0 {
        assert(1u128 << 0u128 == 1u128) by (bit_vector);
    } else {
        let less = (shift - 1) as u128;
        lemma_one_shl(less);
        vstd::arithmetic::power2::lemma_pow2_adds(less as nat, 1);
        assert((1u128 << shift) == 2 * (1u128 << less)) by (bit_vector)
            requires
                shift == less + 1,
                shift < 128,
        ;
    }
}

/// The numbers of a block of `size` numbers are those from its first to its last.
proof fn lemma_block(a: int, x: int, size: int)
    requires
        0 <= a,
        0 <= x,
        0 < size,
    ensures
        0 <= a - a % size,
        a / size == x / size <==> a - a % size <= x <= a - a % size + (size - 1),
{
    let q = a / size;
    assert(a - a % size == q * size) by {
        vstd::arithmetic::div_mod::lemma_fundamental_div_mod(a, size);
        assert(size * q == q * size) by (nonlinear_arith);
    }
    vstd::arithmetic::div_mod::lemma_fundamental_div_mod(x, size);
    vstd::arithmetic::div_mod::lemma_div_pos_is_pos(a, size);
    assert(0 <= q * size) by (nonlinear_arith)
        requires
            0 <= q,
            0 < size,
    ;
    let r = x / size;
    let m = x % size;
    assert(x == size * r + m && 0 <= m < size);
    assert(q == r <==> q * size <= x <= q * size + (size - 1)) by (nonlinear_arith)
        requires
            x == size * r + m,
            0 <= m < size,
            0 < size,
    ;
}

/// A whole block lies below the end of the address space.
proof fn lemma_block_fits(a: int, bits: nat, shift: nat)
    requires
        0 <= a < pow2(bits),
        shift <= bits,
    ensures
        a - a % pow2(shift) as int + pow2(shift) <= pow2(bits),
{
    let size = pow2(shift) as int;
    let many = pow2((bits - shift) as nat) as int;
    vstd::arithmetic::power2::lemma_pow2_pos(shift);
    vstd::arithmetic::power2::lemma_pow2_adds((bits - shift) as nat, shift);
    assert(pow2(bits) == many * size);
    vstd::arithmetic::div_mod::lemma_fundamental_div_mod(a, size);
    let q = a / size;
    let m = a % size;
    assert(q < many) by (nonlinear_arith)
        requires
            a == size * q + m,
            0 <= m,
            0 < size,
            a < many * size,
    ;
    assert(size * q + size <= many * size) by (nonlinear_arith)
        requires
            q + 1 <= many,
            0 < size,
    ;
}

/// The first and last address of the block of `net`.
fn block_v4(net: u32, plen: u8) -> (r: (u32, u32))
    requires
        plen <= 32,
    ensures
        r.0 <= r.1,
        forall|x: u32|
            #[trigger] same_block(net as int, x as int, 32, plen as int) <==> r.0 <= x
                <= r.1,
{
    let shift: u64 = 32 - plen as u64;
    let size: u64 = 1u64 << shift;
    proof {
        vstd::arithmetic::power2::lemma2_to64();
        vstd::arithmetic::power2::lemma_pow2_pos(shift as nat);
        if shift < 32 {
            vstd::arithmetic::power2::lemma_pow2_strictly_increases(shift as nat, 32);
        }
        vstd::bits::lemma_u64_shl_is_mul(1, shift);
        assert(size == pow2(shift as nat));
        assert(size == block_size(32, plen as int));
        lemma_block_fits(net as int, 32, shift as nat);
        assert forall|x: u32|
            #[trigger] same_block(net as int, x as int, 32, plen as int) <==> net - (net as int % size as int)
                <= x <= net - (net as int % size as int) + (size - 1) by {
            lemma_block(net as int, x as int, size as int);
        }
        lemma_block(net as int, 0, size as int);
    }
    let first: u64 = net as u64 - net as u64 % size;
    (first as u32, (first + (size - 1)) as u32)
}

/// The first and last address of the block of `net`.
fn block_v6(net: u128, plen: u8) -> (r: (u128, u128))
    requires
        plen <= 128,
    ensures
        r.0 <= r.1,
        forall|x: u128|
            #[trigger] same_block(net as int, x as int, 128, plen as int) <==> r.0 <= x
                <= r.1,
{
    if plen == 0 {
        proof {
            assert forall|x: u128|
                #[trigger] same_block(net as int, x as int, 128, plen as int) <==> 0 <= x
                    <= u128::MAX by {
                lemma_whole_v6(net, x);
            }
        }
        return (0, u128::MAX);
    }
    let shift: u128 = 128 - plen as u128;
    let size: u128 = 1u128 << shift;
    proof {
        lemma_one_shl(shift);
        lemma_pow2_128();
        assert(size == pow2(shift as nat));
        assert(size == block_size(128, plen as int)) by {
            vstd::arithmetic::power2::lemma2_to64();
        }
        lemma_block_fits(net as int, 128, shift as nat);
        assert forall|x: u128|
            #[trigger] same_block(net as int, x as int, 128, plen as int) <==> net - (net as int % size as int)
                <= x <= net - (net as int % size as int) + (size - 1) by {
            lemma_block(net as int, x as int, size as int);
        }
        lemma_block(net as int, 0, size as int);
    }
    let first: u128 = net - net % size;
    (first, first + (size - 1))
}

/// The prefix that matches `ip` alone.
pub open spec fn host_prefix(ip: IpAddr) -> NetPrefix {
    NetPrefix { addr: ip, plen: width(ip) }
}

/// The prefix that `s` writes: an address, then a slash and a length that fits its family. An
/// address without a length stands for itself alone.
#[verifier::opaque]
pub open spec fn net_prefix(s: Seq<char>) -> Option<NetPrefix> {
    match find(s, seq!['/']) {
        None => match peer_addr(s) {
            Some(addr) => Some(host_prefix(addr)),
            None => None,
        },
        Some(i) => match (peer_addr(s.take(i)), unsigned(s.skip(i + 1), 10, 255)) {
            (Some(addr), Some(n)) => if n <= width(addr) {
                Some(NetPrefix { addr, plen: n as u8 })
            } else {
                None
            },
            _ => None,
        },
    }
}

/// The prefix that the characters `s` write.
pub fn parse_prefix(s: &[char]) -> (r: Option<NetPrefix>)
    ensures
        r == net_prefix(s@),
        r matches Some(p) ==> p.wf(),
{
    reveal(net_prefix);
    match find_char(s, '/') {
        None => match parse_peer(s) {
            Some(addr) => {
                let plen: u8 = match addr {
                    IpAddr::V4(_) => 32,
                    IpAddr::V6(_) => 128,
                };
                Some(NetPrefix { addr, plen })
            },
            None => None,
        },
        Some(i) => {
            assert(s@.subrange(0, i as int) =~= s@.take(i as int));
            assert(s@.subrange(i + 1, s@.len() as int) =~= s@.skip(i + 1));
            let addr = match parse_peer(slice_subrange(s, 0, i)) {
                Some(addr) => addr,
                None => {
                    return None;
                },
            };
            let end: usize = s.len();
            let plen: u8 = match parse_unsigned(slice_subrange(s, i + 1, end), 10, 255) {
                Some(n) => n as u8,
                None => {
                    return None;
                },
            };
            let max: u8 = match addr {
                IpAddr::V4(_) => 32,
                IpAddr::V6(_) => 128,
            };
            if plen > max {
                None
            } else {
                Some(NetPrefix { addr, plen })
            }
        },
    }
}

impl NetPrefix {
    /// The prefix that `s` writes.
    pub fn parse(s: &str) -> (r: Option<Self>)
        ensures
            r == net_prefix(s@),
            r matches Some(p) ==> p.wf(),
    {
        let v = chars_of(s);
        parse_prefix(&v)
    }
}

/// The written form of the prefix that matches `ip` alone.
pub open spec fn prefix_text(ip: IpAddr) -> Seq<char> {
    match ip {
        IpAddr::V4(_) => ip_text(ip) + "/32"@,
        IpAddr::V6(_) => ip_text(ip) + "/128"@,
    }
}

/// The written form of the prefix that matches `ip` alone.
pub fn prefix_of(ip: IpAddr) -> (s: String)
    ensures
        s@ == prefix_text(ip),
{
    let mut s = String::new();
    push_ip(&mut s, ip);
    match ip {
        IpAddr::V4(_) => s.append("/32"),
        IpAddr::V6(_) => s.append("/128"),
    }
    assert(s@ =~= prefix_text(ip));
    s
}

/// A set of addresses, as ranges of each family.
#[derive(Debug)]
pub struct PrefixSet {
    pub v4: Vec<(u32, u32)>,
    pub v6: Vec<(u128, u128)>,
}

/// Whether one of the prefixes matches `ip`.
pub open spec fn any_matches(prefixes: Seq<NetPrefix>, ip: IpAddr) -> bool {
    exists|i: int| 0 <= i < prefixes.len() && (#[trigger] prefixes[i]).matches(ip)
}

/// Whether the length of each prefix fits its family.
pub open spec fn all_wf(prefixes: Seq<NetPrefix>) -> bool {
    forall|i: int| 0 <= i < prefixes.len() ==> (#[trigger] prefixes[i]).wf()
}

impl View for PrefixSet {
    type V = Set<IpAddr>;

    /// The addresses that the ranges hold.
    open spec fn view(&self) -> Set<IpAddr> {
        Set::new(
            |ip: IpAddr|
                match ip {
                    IpAddr::V4(n) => covers(bounds(self.v4@), n as int),
                    IpAddr::V6(n) => covers(bounds(self.v6@), n as int),
                },
        )
    }
}

impl PrefixSet {
    /// Whether the ranges of each family are canonical.
    pub open spec fn wf(&self) -> bool {
        canonical(bounds(self.v4@)) && canonical(bounds(self.v6@))
    }

    /// The set of the addresses that one of the prefixes matches.
    ///
    /// The ranges are canonical, so that the set alone determines them.
    pub fn from_prefixes(prefixes: Vec<NetPrefix>) -> (set: Self)
        requires
            all_wf(prefixes@),
        ensures
            set.wf(),
            forall|ip: IpAddr| #[trigger] set@.contains(ip) <==> any_matches(prefixes@, ip),
            set.v4@.len() + set.v6@.len() <= prefixes@.len(),
    {
        let mut v4: Vec<(u32, u32)> = Vec::new();
        let mut v6: Vec<(u128, u128)> = Vec::new();
        let mut i: usize = 0;
        while i < prefixes.len()
            invariant
                i <= prefixes@.len(),
                v4@.len() + v6@.len() == i,
                all_wf(prefixes@),
                proper(bounds(v4@)),
                proper(bounds(v6@)),
                forall|n: u32|
                    #[trigger] covers(bounds(v4@), n as int) <==> any_matches(
                        prefixes@.take(i as int),
                        IpAddr::V4(n),
                    ),
                forall|n: u128|
                    #[trigger] covers(bounds(v6@), n as int) <==> any_matches(
                        prefixes@.take(i as int),
                        IpAddr::V6(n),
                    ),
            decreases prefixes@.len() - i,
        {
            let p = prefixes[i];
            let ghost done = prefixes@.take(i as int);
            let ghost more = prefixes@.take(i + 1);
            assert(more =~= done.push(p));
            assert(p.wf());
            match p.addr {
                IpAddr::V4(net) => {
                    let block = block_v4(net, p.plen);
                    let ghost was = bounds(v4@);
                    v4.push(block);
                    assert(bounds(v4@) =~= was.push((block.0 as int, block.1 as int)));
                    proof {
                        assert forall|n: u32| #[trigger] covers(bounds(v4@), n as int) <==> any_matches(
                            more,
                            IpAddr::V4(n),
                        ) by {
                            lemma_covers_push(was, (block.0 as int, block.1 as int), n as int);
                            lemma_any_push(done, p, IpAddr::V4(n));
                            assert(covers(was, n as int) <==> any_matches(done, IpAddr::V4(n)));
                            assert(same_block(net as int, n as int, 32, p.plen as int) <==> block.0
                                <= n <= block.1);
                        }
                        assert forall|n: u128| #[trigger] covers(bounds(v6@), n as int) <==> any_matches(
                            more,
                            IpAddr::V6(n),
                        ) by {
                            lemma_any_push(done, p, IpAddr::V6(n));
                        }
                    }
                },
                IpAddr::V6(net) => {
                    let block = block_v6(net, p.plen);
                    let ghost was = bounds(v6@);
                    v6.push(block);
                    assert(bounds(v6@) =~= was.push((block.0 as int, block.1 as int)));
                    proof {
                        assert forall|n: u128| #[trigger] covers(bounds(v6@), n as int) <==> any_matches(
                            more,
                            IpAddr::V6(n),
                        ) by {
                            lemma_covers_push(was, (block.0 as int, block.1 as int), n as int);
                            lemma_any_push(done, p, IpAddr::V6(n));
                            assert(covers(was, n as int) <==> any_matches(done, IpAddr::V6(n)));
                            assert(same_block(net as int, n as int, 128, p.plen as int) <==> block.0
                                <= n <= block.1);
                        }
                        assert forall|n: u32| #[trigger] covers(bounds(v4@), n as int) <==> any_matches(
                            more,
                            IpAddr::V4(n),
                        ) by {
                            lemma_any_push(done, p, IpAddr::V4(n));
                        }
                    }
                },
            }
            i += 1;
        }
        assert(prefixes@.take(i as int) =~= prefixes@);
        let set = PrefixSet { v4: canonical_ranges(v4), v6: canonical_ranges(v6) };
        proof {
            assert forall|ip: IpAddr| #[trigger] set@.contains(ip) <==> any_matches(prefixes@, ip) by {
                match ip {
                    IpAddr::V4(n) => {
                        assert(covers(bounds(set.v4@), n as int) <==> covers(bounds(v4@), n as int));
                    },
                    IpAddr::V6(n) => {
                        assert(covers(bounds(set.v6@), n as int) <==> covers(bounds(v6@), n as int));
                    },
                }
            }
        }
        set
    }

    /// Whether there is no range.
    pub fn is_empty(&self) -> (b: bool)
        ensures
            b == (self.v4@.len() == 0 && self.v6@.len() == 0),
            self.wf() ==> (b <==> self@ == Set::<IpAddr>::empty()),
    {
        let b: bool = self.v4.len() == 0 && self.v6.len() == 0;
        proof {
            if self.wf() {
                if b {
                    assert(self@ =~= Set::<IpAddr>::empty());
                } else if self.v4@.len() > 0 {
                    let r = bounds(self.v4@);
                    assert(r[0].0 <= r[0].0 <= r[0].1);
                    assert(covers(r, r[0].0));
                    assert(self@.contains(IpAddr::V4(self.v4@[0].0)));
                } else {
                    let r = bounds(self.v6@);
                    assert(r[0].0 <= r[0].0 <= r[0].1);
                    assert(covers(r, r[0].0));
                    assert(self@.contains(IpAddr::V6(self.v6@[0].0)));
                }
            }
        }
        b
    }

    /// How many ranges there are, of both families together.
    pub fn len(&self) -> (n: usize)
        requires
            self.v4@.len() + self.v6@.len() <= usize::MAX,
        ensures
            n == self.v4@.len() + self.v6@.len(),
    {
        self.v4.len() + self.v6.len()
    }

    /// Whether the set holds `ip`.
    pub fn contains(&self, ip: IpAddr) -> (b: bool)
        requires
            self.wf(),
        ensures
            b == self@.contains(ip),
    {
        match ip {
            IpAddr::V4(n) => range_contains_v4(&self.v4, n),
            IpAddr::V6(n) => range_contains_v6(&self.v6, n),
        }
    }
}

proof fn lemma_covers_push(ranges: Seq<(int, int)>, r: (int, int), x: int)
    ensures
        covers(ranges.push(r), x) <==> covers(ranges, x) || r.0 <= x <= r.1,
{
    let all = ranges.push(r);
    if covers(ranges, x) {
        let i = choose|i: int| 0 <= i < ranges.len() && (#[trigger] ranges[i]).0 <= x <= ranges[i].1;
        assert(all[i].0 <= x <= all[i].1);
    }
    if r.0 <= x <= r.1 {
        assert(all[ranges.len() as int].0 <= x <= all[ranges.len() as int].1);
    }
    if covers(all, x) {
        let i = choose|i: int| 0 <= i < all.len() && (#[trigger] all[i]).0 <= x <= all[i].1;
        if i < ranges.len() {
            assert(ranges[i].0 <= x <= ranges[i].1);
        }
    }
}

/// One more prefix adds the addresses that it matches.
pub proof fn lemma_any_push(prefixes: Seq<NetPrefix>, p: NetPrefix, ip: IpAddr)
    ensures
        any_matches(prefixes.push(p), ip) <==> any_matches(prefixes, ip) || p.matches(ip),
{
    let all = prefixes.push(p);
    if any_matches(prefixes, ip) {
        let i = choose|i: int| 0 <= i < prefixes.len() && (#[trigger] prefixes[i]).matches(ip);
        assert(all[i].matches(ip));
    }
    if p.matches(ip) {
        assert(all[prefixes.len() as int].matches(ip));
    }
    if any_matches(all, ip) {
        let i = choose|i: int| 0 <= i < all.len() && (#[trigger] all[i]).matches(ip);
        if i < prefixes.len() {
            assert(prefixes[i].matches(ip));
        }
    }
}

/// Whether the set holds `ip`.
pub fn in_nets(ip: IpAddr, nets: &PrefixSet) -> (b: bool)
    requires
        nets.wf(),
    ensures
        b == nets@.contains(ip),
{
    nets.contains(ip)
}

/// A single address stands for itself alone.
pub proof fn law_host_prefix_matches_one_address(ip: IpAddr, other: IpAddr)
    ensures
        host_prefix(ip).wf(),
        host_prefix(ip).matches(other) <==> other == ip,
{
    match (ip, other) {
        (IpAddr::V4(a), IpAddr::V4(b)) => {
            assert(block_size(32, 32) == 1);
            vstd::arithmetic::div_mod::lemma_div_basics(a as int);
            vstd::arithmetic::div_mod::lemma_div_basics(b as int);
        },
        (IpAddr::V6(a), IpAddr::V6(b)) => {
            assert(block_size(128, 128) == 1);
            vstd::arithmetic::div_mod::lemma_div_basics(a as int);
            vstd::arithmetic::div_mod::lemma_div_basics(b as int);
        },
        _ => {},
    }
}

/// An address without a length stands for that peer alone.
pub proof fn law_address_without_length_is_a_host(s: Seq<char>, ip: IpAddr)
    requires
        find(s, seq!['/']) is None,
        ip_addr(s) == Some(ip),
    ensures
        net_prefix(s) == Some(host_prefix(canonical_addr(ip))),
{
    reveal(net_prefix);
}

/// A prefix of length zero matches every address of its family, and none of the other.
pub proof fn law_empty_prefix_matches_its_family(addr: IpAddr, ip: IpAddr)
    ensures
        (NetPrefix { addr, plen: 0 }).matches(ip) <==> width(addr) == width(ip),
{
    match (addr, ip) {
        (IpAddr::V4(a), IpAddr::V4(b)) => lemma_whole_v4(a, b),
        (IpAddr::V6(a), IpAddr::V6(b)) => lemma_whole_v6(a, b),
        _ => {},
    }
}

/// Two sets with the same addresses have the same ranges.
pub proof fn law_prefix_set_is_determined_by_its_addresses(a: PrefixSet, b: PrefixSet)
    requires
        a.wf(),
        b.wf(),
        a@ == b@,
    ensures
        a.v4@ == b.v4@,
        a.v6@ == b.v6@,
{
    let a4 = bounds(a.v4@);
    let b4 = bounds(b.v4@);
    let a6 = bounds(a.v6@);
    let b6 = bounds(b.v6@);
    assert forall|x: int| covers(a4, x) <==> covers(b4, x) by {
        if covers(a4, x) {
            let i = choose|i: int| 0 <= i < a4.len() && (#[trigger] a4[i]).0 <= x <= a4[i].1;
            assert(a4[i].1 == a.v4@[i].1);
            assert(a4[i].0 == a.v4@[i].0);
        }
        if covers(b4, x) {
            let i = choose|i: int| 0 <= i < b4.len() && (#[trigger] b4[i]).0 <= x <= b4[i].1;
            assert(b4[i].1 == b.v4@[i].1);
            assert(b4[i].0 == b.v4@[i].0);
        }
        if 0 <= x <= u32::MAX {
            let n = x as u32;
            let ip = IpAddr::V4(n);
            assert(n as int == x);
            assert(a@.contains(ip) <==> covers(a4, n as int));
            assert(b@.contains(ip) <==> covers(b4, n as int));
            assert(a@.contains(ip) <==> b@.contains(ip));
        }
    }
    assert forall|x: int| covers(a6, x) <==> covers(b6, x) by {
        if covers(a6, x) {
            let i = choose|i: int| 0 <= i < a6.len() && (#[trigger] a6[i]).0 <= x <= a6[i].1;
            assert(a6[i].1 == a.v6@[i].1);
            assert(a6[i].0 == a.v6@[i].0);
        }
        if covers(b6, x) {
            let i = choose|i: int| 0 <= i < b6.len() && (#[trigger] b6[i]).0 <= x <= b6[i].1;
            assert(b6[i].1 == b.v6@[i].1);
            assert(b6[i].0 == b.v6@[i].0);
        }
        if 0 <= x <= u128::MAX {
            let n = x as u128;
            let ip = IpAddr::V6(n);
            assert(n as int == x);
            assert(a@.contains(ip) <==> covers(a6, n as int));
            assert(b@.contains(ip) <==> covers(b6, n as int));
            assert(a@.contains(ip) <==> b@.contains(ip));
        }
    }
    law_canonical_ranges_are_unique(a4, b4);
    law_canonical_ranges_are_unique(a6, b6);
    assert forall|i: int| 0 <= i < a.v4@.len() implies a.v4@[i] == b.v4@[i] by {
        assert(a4[i] == b4[i]);
    }
    assert forall|i: int| 0 <= i < a.v6@.len() implies a.v6@[i] == b.v6@[i] by {
        assert(a6[i] == b6[i]);
    }
    assert(a4.len() == b4.len());
    assert(a6.len() == b6.len());
    assert(a.v4@ =~= b.v4@);
    assert(a.v6@ =~= b.v6@);
}

/// The order of the prefixes, and how often one is given, makes no difference to the set.
pub proof fn law_prefix_order_and_repeats_do_not_matter(
    a: Seq<NetPrefix>,
    b: Seq<NetPrefix>,
    ip: IpAddr,
)
    requires
        forall|p: NetPrefix| a.contains(p) <==> b.contains(p),
    ensures
        any_matches(a, ip) <==> any_matches(b, ip),
{
    if any_matches(a, ip) {
        let i = choose|i: int| 0 <= i < a.len() && (#[trigger] a[i]).matches(ip);
        assert(a.contains(a[i]));
        assert(b.contains(a[i]));
        let j = choose|j: int| 0 <= j < b.len() && b[j] == a[i];
        assert(b[j].matches(ip));
    }
    if any_matches(b, ip) {
        let i = choose|i: int| 0 <= i < b.len() && (#[trigger] b[i]).matches(ip);
        assert(b.contains(b[i]));
        assert(a.contains(b[i]));
        let j = choose|j: int| 0 <= j < a.len() && a[j] == b[i];
        assert(a[j].matches(ip));
    }
}

} // verus!
