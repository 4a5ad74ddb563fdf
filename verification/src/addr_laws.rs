//! What holds of addresses and of the ranges that are set aside.
use crate::addr::{
    always_skip, canonical_addr, is_broadcast, is_link_local, is_loopback, is_multicast,
    is_unspecified, lan_addr, site_local, width, IpAddr,
};
use vstd::prelude::*;

verus! {

/// The classes of an IPv4 address, by its four bytes.
pub proof fn law_ipv4_classes(a: u8, b: u8, c: u8, d: u8)
    ensures
        ({
            let ip = IpAddr::V4((a * 0x100_0000 + b * 0x1_0000 + c * 0x100 + d) as u32);
            &&& is_loopback(ip) <==> a == 127
            &&& is_link_local(ip) <==> a == 169 && b == 254
            &&& is_multicast(ip) <==> 224 <= a <= 239
            &&& is_unspecified(ip) <==> a == 0 && b == 0 && c == 0 && d == 0
            &&& is_broadcast(ip) <==> a == 255 && b == 255 && c == 255 && d == 255
            &&& always_skip(ip) <==> a == 127 || (a == 169 && b == 254) || 224 <= a <= 239 || (a == 0
                && b == 0 && c == 0 && d == 0) || (a == 255 && b == 255 && c == 255 && d == 255)
            &&& lan_addr(ip) <==> a == 10 || (a == 172 && 16 <= b <= 31) || (a == 192 && b == 168)
                || (a == 100 && 64 <= b <= 127) || (a == 198 && 18 <= b <= 19) || (a == 192 && b == 0
                && c == 2) || (a == 198 && b == 51 && c == 100) || (a == 203 && b == 0 && c == 113)
        }),
{
}

/// The classes of an IPv6 address, by its first two groups.
pub proof fn law_ipv6_classes(n: u128, g: u16, h: u16, rest: u128)
    requires
        rest < 0x1_0000_0000_0000_0000_0000_0000,
        n == g * 0x1_0000_0000_0000_0000_0000_0000_0000 + h * 0x1_0000_0000_0000_0000_0000_0000
            + rest,
    ensures
        ({
            let ip = IpAddr::V6(n);
            &&& is_loopback(ip) <==> n == 1
            &&& is_unspecified(ip) <==> n == 0
            &&& is_link_local(ip) <==> 0xfe80 <= g <= 0xfebf
            &&& is_multicast(ip) <==> 0xff00 <= g
            &&& !is_broadcast(ip)
            &&& always_skip(ip) <==> n == 1 || n == 0 || 0xfe80 <= g <= 0xfebf || 0xff00 <= g
            &&& site_local(n) <==> 0xfec0 <= g <= 0xfeff
            &&& lan_addr(ip) <==> 0xfc00 <= g <= 0xfdff || 0xfec0 <= g <= 0xfeff || (g == 0x2001 && h
                == 0x0db8)
        }),
{
    let big: int = 0x1_0000_0000_0000_0000_0000_0000_0000;
    let small: int = 0x1_0000_0000_0000_0000_0000_0000;
    assert(n as int / big == g);
    assert(n as int / small == g * 0x1_0000 + h);
}

/// A peer is known by its own address, but for the 2^32 IPv6 addresses that stand for IPv4 ones.
pub proof fn law_canonical_addr(n: u128, m: u32)
    ensures
        canonical_addr(IpAddr::V4(m)) == IpAddr::V4(m),
        n == 0xffff_0000_0000 + m ==> canonical_addr(IpAddr::V6(n)) == IpAddr::V4(m),
        !(0xffff_0000_0000 <= n <= 0xffff_ffff_ffff) ==> canonical_addr(IpAddr::V6(n))
            == IpAddr::V6(n),
        width(IpAddr::V4(m)) == 32,
        width(IpAddr::V6(n)) == 128,
{
}

} // verus!
