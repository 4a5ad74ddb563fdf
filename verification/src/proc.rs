//! The kernel's tables of TCP sockets.
use crate::addr::{canonical_addr, canonicalize, IpAddr};
use crate::number::{lemma_bytes, parse_unsigned, unsigned};
use crate::text::{chars_of, find, find_char, views, word_slices, words};
use vstd::prelude::*;
use vstd::slice::slice_subrange;

verus! {

pub const TCP_ESTABLISHED: u8 = 0x01;

pub const TCP_SYN_SENT: u8 = 0x02;

pub const TCP_SYN_RECV: u8 = 0x03;

pub const TCP_NEW_SYN_RECV: u8 = 0x0c;

/// The states in which a connection's peer gets a rule.
pub open spec fn wanted(st: u8) -> bool {
    st == TCP_ESTABLISHED || st == TCP_SYN_SENT || st == TCP_SYN_RECV || st == TCP_NEW_SYN_RECV
}

/// `n` with its four bytes in the opposite order.
pub open spec fn swapped(n: u32) -> u32 {
    (n % 0x100 * 0x100_0000 + n / 0x100 % 0x100 * 0x1_0000 + n / 0x1_0000 % 0x100 * 0x100 + n
        / 0x100_0000) as u32
}

/// The 32 bits that `s` writes in hexadecimal.
pub open spec fn hex_word(s: Seq<char>) -> Option<u32> {
    match unsigned(s, 16, u32::MAX as nat) {
        Some(n) => Some(n as u32),
        None => None,
    }
}

/// The IPv4 address that `s` writes as one number in hexadecimal, its first byte the least
/// significant one.
pub open spec fn ipv4_hex(s: Seq<char>) -> Option<IpAddr> {
    match hex_word(s) {
        Some(n) => Some(IpAddr::V4(swapped(n))),
        None => None,
    }
}

/// The eight characters from the `i`-th eighth character on.
pub open spec fn eight(s: Seq<char>, i: int) -> Seq<char> {
    s.subrange(8 * i, 8 * i + 8)
}

/// The peer whose IPv6 address `s` writes as four numbers of eight characters in hexadecimal, the
/// first byte of each the least significant one.
pub open spec fn ipv6_hex(s: Seq<char>) -> Option<IpAddr> {
    if s.len() == 32 && hex_word(eight(s, 0)) is Some && hex_word(eight(s, 1)) is Some && hex_word(
        eight(s, 2),
    ) is Some && hex_word(eight(s, 3)) is Some {
        Some(
            canonical_addr(
                IpAddr::V6(
                    (swapped(hex_word(eight(s, 0))->0) * 0x1_0000_0000_0000_0000_0000_0000 + swapped(
                        hex_word(eight(s, 1))->0,
                    ) * 0x1_0000_0000_0000_0000 + swapped(hex_word(eight(s, 2))->0) * 0x1_0000_0000
                        + swapped(hex_word(eight(s, 3))->0)) as u128,
                ),
            ),
        )
    } else {
        None
    }
}

/// The state in a line of a table: its fourth word in hexadecimal, or no state at all.
pub open spec fn line_state(w: Seq<Seq<char>>) -> u8 {
    match unsigned(w[3], 16, 255) {
        Some(n) => n as u8,
        None => 0,
    }
}

/// The peer in a line of a table: what stands before the colon of its third word.
pub open spec fn line_peer(w: Seq<Seq<char>>, v6: bool) -> Option<IpAddr> {
    match find(w[2], seq![':']) {
        Some(i) => if v6 {
            ipv6_hex(w[2].take(i))
        } else {
            ipv4_hex(w[2].take(i))
        },
        None => None,
    }
}

/// The peer and the state that the line at position `index` of a table gives. The first line is a
/// heading.
pub open spec fn table_entry(index: nat, line: Seq<char>, v6: bool) -> Option<(IpAddr, u8)> {
    let w = words(line);
    if index > 0 && w.len() >= 4 && wanted(line_state(w)) {
        match line_peer(w, v6) {
            Some(ip) => Some((ip, line_state(w))),
            None => None,
        }
    } else {
        None
    }
}

/// Whether a connection in state `st` has a peer that gets a rule.
pub fn want_state(st: u8) -> (b: bool)
    ensures
        b == wanted(st),
{
    st == TCP_ESTABLISHED || st == TCP_SYN_SENT || st == TCP_SYN_RECV || st == TCP_NEW_SYN_RECV
}

fn swap(n: u32) -> (r: u32)
    ensures
        r == swapped(n),
{
    n % 0x100 * 0x100_0000 + n / 0x100 % 0x100 * 0x1_0000 + n / 0x1_0000 % 0x100 * 0x100 + n
        / 0x100_0000
}

fn parse_word(s: &[char]) -> (r: Option<u32>)
    ensures
        r == hex_word(s@),
{
    match parse_unsigned(s, 16, u32::MAX as u64) {
        Some(n) => Some(n as u32),
        None => None,
    }
}

/// The 32 bits that `s` writes in hexadecimal.
pub fn parse_hex_u32_le(s: &str) -> (r: Option<u32>)
    ensures
        r == hex_word(s@),
{
    let v = chars_of(s);
    parse_word(&v)
}

fn read_ipv4(s: &[char]) -> (r: Option<IpAddr>)
    ensures
        r == ipv4_hex(s@),
{
    match parse_word(s) {
        Some(n) => Some(IpAddr::V4(swap(n))),
        None => None,
    }
}

fn read_ipv6(s: &[char]) -> (r: Option<IpAddr>)
    ensures
        r == ipv6_hex(s@),
{
    if s.len() != 32 {
        return None;
    }
    let a = parse_word(slice_subrange(s, 0, 8));
    let b = parse_word(slice_subrange(s, 8, 16));
    let c = parse_word(slice_subrange(s, 16, 24));
    let d = parse_word(slice_subrange(s, 24, 32));
    match (a, b, c, d) {
        (Some(a), Some(b), Some(c), Some(d)) => {
            let n: u128 = swap(a) as u128 * 0x1_0000_0000_0000_0000_0000_0000 + swap(b) as u128
                * 0x1_0000_0000_0000_0000 + swap(c) as u128 * 0x1_0000_0000 + swap(d) as u128;
            Some(canonicalize(IpAddr::V6(n)))
        },
        _ => None,
    }
}

/// The IPv4 address that `s` writes as the kernel does.
pub fn parse_ipv4_hex(s: &str) -> (r: Option<IpAddr>)
    ensures
        r == ipv4_hex(s@),
{
    let v = chars_of(s);
    read_ipv4(&v)
}

/// The peer whose IPv6 address `s` writes as the kernel does.
pub fn parse_ipv6_hex(s: &str) -> (r: Option<IpAddr>)
    ensures
        r == ipv6_hex(s@),
{
    let v = chars_of(s);
    read_ipv6(&v)
}

/// The peer and the state that the line at position `index` of a table gives.
pub fn parse_proc_tcp_line(index: usize, line: &str, v6: bool) -> (r: Option<(IpAddr, u8)>)
    ensures
        r == table_entry(index as nat, line@, v6),
{
    if index == 0 {
        return None;
    }
    let chars = chars_of(line);
    let w = word_slices(&chars);
    let ghost all = views(w@);
    if w.len() < 4 {
        return None;
    }
    assert(all[2] == w@[2]@);
    assert(all[3] == w@[3]@);
    let st: u8 = match parse_unsigned(w[3], 16, 255) {
        Some(n) => n as u8,
        None => 0,
    };
    if !want_state(st) {
        return None;
    }
    let rem = w[2];
    match find_char(rem, ':') {
        Some(i) => {
            let hex = slice_subrange(rem, 0, i);
            assert(hex@ =~= rem@.take(i as int));
            let ip = if v6 {
                read_ipv6(hex)
            } else {
                read_ipv4(hex)
            };
            match ip {
                Some(ip) => Some((ip, st)),
                None => None,
            }
        },
        None => None,
    }
}

/// How a connection in state `st` came to notice.
pub open spec fn reason(st: u8) -> Seq<char> {
    if st == TCP_SYN_SENT {
        "proc-syn-sent"@
    } else if st == TCP_SYN_RECV || st == TCP_NEW_SYN_RECV {
        "proc-syn-recv"@
    } else {
        "proc-est"@
    }
}

/// How a connection in state `st` came to notice.
pub fn proc_reason(st: u8) -> (r: &'static str)
    ensures
        r@ == reason(st),
{
    if st == TCP_SYN_SENT {
        "proc-syn-sent"
    } else if st == TCP_SYN_RECV || st == TCP_NEW_SYN_RECV {
        "proc-syn-recv"
    } else {
        "proc-est"
    }
}

/// Turning the bytes round twice gives the number back, so that each IPv4 address has a form in the
/// table.
pub proof fn law_swapping_undoes_itself(n: u32)
    ensures
        swapped(swapped(n)) == n,
{
    let a = (n / 0x100_0000) as nat;
    let b = (n / 0x1_0000 % 0x100) as nat;
    let c = (n / 0x100 % 0x100) as nat;
    let d = (n % 0x100) as nat;
    lemma_bytes(n, a, b, c, d);
    assert(swapped(n) == d * 0x100_0000 + c * 0x1_0000 + b * 0x100 + a);
    lemma_bytes(swapped(n), d, c, b, a);
}

} // verus!
