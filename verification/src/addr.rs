//! IP addresses and the classes that decide which peers are left alone.
use vstd::prelude::*;

verus! {

/// An IP address, as the integer that its bytes spell from the most significant one down.
#[derive(Clone, Copy, Debug, PartialEq, Eq, Structural)]
pub enum IpAddr {
    V4(u32),
    V6(u128),
}

/// How many bits an address of the family of `ip` has.
pub open spec fn width(ip: IpAddr) -> u8 {
    match ip {
        IpAddr::V4(_) => 32,
        IpAddr::V6(_) => 128,
    }
}

/// The address that a peer is known by: an IPv4-mapped IPv6 address stands for its IPv4 address.
pub open spec fn canonical_addr(ip: IpAddr) -> IpAddr {
    match ip {
        IpAddr::V6(n) => if n / 0x1_0000_0000 == 0xffff {
            IpAddr::V4((n % 0x1_0000_0000) as u32)
        } else {
            ip
        },
        IpAddr::V4(_) => ip,
    }
}

/// The first of the eight 16-bit groups of an IPv6 address.
pub open spec fn first_group(n: u128) -> int {
    n as int / 0x1_0000_0000_0000_0000_0000_0000_0000
}

/// 10.0.0.0/8, 172.16.0.0/12 and 192.168.0.0/16.
pub open spec fn is_private_v4(n: u32) -> bool {
    ||| 0x0a00_0000 <= n <= 0x0aff_ffff
    ||| 0xac10_0000 <= n <= 0xac1f_ffff
    ||| 0xc0a8_0000 <= n <= 0xc0a8_ffff
}

/// 192.0.2.0/24, 198.51.100.0/24 and 203.0.113.0/24.
pub open spec fn is_documentation_v4(n: u32) -> bool {
    ||| 0xc000_0200 <= n <= 0xc000_02ff
    ||| 0xc633_6400 <= n <= 0xc633_64ff
    ||| 0xcb00_7100 <= n <= 0xcb00_71ff
}

/// 100.64.0.0/10, for carrier-grade NAT.
pub open spec fn is_shared_v4(n: u32) -> bool {
    0x6440_0000 <= n <= 0x647f_ffff
}

/// 198.18.0.0/15, for benchmarks.
pub open spec fn is_benchmarking_v4(n: u32) -> bool {
    0xc612_0000 <= n <= 0xc613_ffff
}

/// 127.0.0.0/8 and ::1.
pub open spec fn is_loopback(ip: IpAddr) -> bool {
    match ip {
        IpAddr::V4(n) => 0x7f00_0000 <= n <= 0x7fff_ffff,
        IpAddr::V6(n) => n == 1,
    }
}

/// 0.0.0.0 and ::.
pub open spec fn is_unspecified(ip: IpAddr) -> bool {
    match ip {
        IpAddr::V4(n) => n == 0,
        IpAddr::V6(n) => n == 0,
    }
}

/// 169.254.0.0/16 and fe80::/10.
pub open spec fn is_link_local(ip: IpAddr) -> bool {
    match ip {
        IpAddr::V4(n) => 0xa9fe_0000 <= n <= 0xa9fe_ffff,
        IpAddr::V6(n) => 0xfe80 <= first_group(n) <= 0xfebf,
    }
}

/// 224.0.0.0/4 and ff00::/8.
pub open spec fn is_multicast(ip: IpAddr) -> bool {
    match ip {
        IpAddr::V4(n) => 0xe000_0000 <= n <= 0xefff_ffff,
        IpAddr::V6(n) => 0xff00 <= first_group(n),
    }
}

/// 255.255.255.255.
pub open spec fn is_broadcast(ip: IpAddr) -> bool {
    ip == IpAddr::V4(0xffff_ffff)
}

/// fec0::/10.
pub open spec fn site_local(n: u128) -> bool {
    0xfec0 <= first_group(n) <= 0xfeff
}

/// fc00::/7.
pub open spec fn unique_local(n: u128) -> bool {
    0xfc00 <= first_group(n) <= 0xfdff
}

/// 2001:db8::/32.
pub open spec fn is_documentation_v6(n: u128) -> bool {
    n as int / 0x1_0000_0000_0000_0000_0000_0000 == 0x2001_0db8
}

/// The addresses that no peer on the network can have: they never get a rule.
pub open spec fn always_skip(ip: IpAddr) -> bool {
    ||| is_unspecified(ip)
    ||| is_loopback(ip)
    ||| is_broadcast(ip)
    ||| is_link_local(ip)
    ||| is_multicast(ip)
}

/// The addresses that are set aside for local, shared, benchmark and documentation use.
pub open spec fn lan_addr(ip: IpAddr) -> bool {
    match ip {
        IpAddr::V4(n) => {
            ||| is_private_v4(n)
            ||| is_documentation_v4(n)
            ||| is_shared_v4(n)
            ||| is_benchmarking_v4(n)
        },
        IpAddr::V6(n) => {
            ||| unique_local(n)
            ||| site_local(n)
            ||| is_documentation_v6(n)
        },
    }
}

/// The address that a peer is known by.
pub fn canonicalize(ip: IpAddr) -> (r: IpAddr)
    ensures
        r == canonical_addr(ip),
{
    match ip {
        IpAddr::V6(n) => if n / 0x1_0000_0000 == 0xffff {
            IpAddr::V4((n % 0x1_0000_0000) as u32)
        } else {
            ip
        },
        IpAddr::V4(_) => ip,
    }
}

/// Whether `ip` is a loopback address.
pub fn loopback(ip: IpAddr) -> (b: bool)
    ensures
        b == is_loopback(ip),
{
    match ip {
        IpAddr::V4(n) => 0x7f00_0000 <= n && n <= 0x7fff_ffff,
        IpAddr::V6(n) => n == 1,
    }
}

/// Whether `ip` is an address that never gets a rule, whatever the settings are.
pub fn is_always_skip(ip: IpAddr) -> (b: bool)
    ensures
        b == always_skip(ip),
{
    match ip {
        IpAddr::V4(n) => n == 0 || loopback(ip) || n == 0xffff_ffff || (0xa9fe_0000 <= n && n
            <= 0xa9fe_ffff) || (0xe000_0000 <= n && n <= 0xefff_ffff),
        IpAddr::V6(n) => {
            let group: u128 = n / 0x1_0000_0000_0000_0000_0000_0000_0000;
            n == 0 || loopback(ip) || 0xff00 <= group || (0xfe80 <= group && group <= 0xfebf)
        },
    }
}

/// Whether `ip` is set aside for local, shared, benchmark or documentation use.
pub fn is_lan_addr(ip: IpAddr) -> (b: bool)
    ensures
        b == lan_addr(ip),
{
    match ip {
        IpAddr::V4(n) => {
            let private: bool = (0x0a00_0000 <= n && n <= 0x0aff_ffff) || (0xac10_0000 <= n && n
                <= 0xac1f_ffff) || (0xc0a8_0000 <= n && n <= 0xc0a8_ffff);
            let documentation: bool = (0xc000_0200 <= n && n <= 0xc000_02ff) || (0xc633_6400 <= n
                && n <= 0xc633_64ff) || (0xcb00_7100 <= n && n <= 0xcb00_71ff);
            private || documentation || (0x6440_0000 <= n && n <= 0x647f_ffff) || (0xc612_0000 <= n
                && n <= 0xc613_ffff)
        },
        IpAddr::V6(n) => {
            let group: u128 = n / 0x1_0000_0000_0000_0000_0000_0000_0000;
            (0xfc00 <= group && group <= 0xfdff) || is_v6_site_local(n) || n
                / 0x1_0000_0000_0000_0000_0000_0000 == 0x2001_0db8
        },
    }
}

/// Whether the IPv6 address `n` is in the deprecated site-local range.
pub fn is_v6_site_local(n: u128) -> (b: bool)
    ensures
        b == site_local(n),
{
    let group: u128 = n / 0x1_0000_0000_0000_0000_0000_0000_0000;
    0xfec0 <= group && group <= 0xfeff
}

/// The address that a peer is known by stays the same when it is taken again, and it is never an
/// IPv4-mapped one.
pub proof fn law_canonical_addr_is_stable(ip: IpAddr)
    ensures
        canonical_addr(canonical_addr(ip)) == canonical_addr(ip),
        canonical_addr(ip) matches IpAddr::V6(n) ==> n / 0x1_0000_0000 != 0xffff,
{
}

/// An IPv4 address and its IPv4-mapped form name the same peer.
pub proof fn law_mapped_address_is_the_same_peer(n: u32)
    ensures
        canonical_addr(IpAddr::V6((0xffff_0000_0000 + n) as u128)) == canonical_addr(
            IpAddr::V4(n),
        ),
{
}

} // verus!
