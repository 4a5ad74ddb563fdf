//! What holds of the kernel's tables of TCP sockets.
use crate::addr::{canonical_addr, IpAddr};
use crate::number::{digit_value, digits, is_digit, lemma_bytes, unsigned};
use crate::number_laws::{law_digits_spell_a_number, law_unsigned};
use crate::proc::{eight, hex_word, ipv4_hex, ipv6_hex, reason, swapped, table_entry, wanted};
use crate::text::{is_space, words};
use crate::text_laws::{law_before, law_words};
use vstd::prelude::*;

verus! {

/// The states in which a peer gets a rule, and how each of them is reported.
pub proof fn law_states(st: u8)
    ensures
        wanted(st) <==> st == 1 || st == 2 || st == 3 || st == 12,
        reason(st) == if st == 2 {
            "proc-syn-sent"@
        } else if st == 3 || st == 12 {
            "proc-syn-recv"@
        } else {
            "proc-est"@
        },
{
}

/// A number whose bytes are written the least significant one last is an IPv4 address with those
/// bytes the other way round.
pub proof fn law_ipv4_hex(s: Seq<char>, a: u8, b: u8, c: u8, d: u8)
    ensures
        unsigned(s, 16, 0xffff_ffff) == Some(
            (d * 0x100_0000 + c * 0x1_0000 + b * 0x100 + a) as nat,
        ) ==> ipv4_hex(s) == Some(
            IpAddr::V4((a * 0x100_0000 + b * 0x1_0000 + c * 0x100 + d) as u32),
        ) && hex_word(s) == Some((d * 0x100_0000 + c * 0x1_0000 + b * 0x100 + a) as u32),
        unsigned(s, 16, 0xffff_ffff) is None ==> ipv4_hex(s) is None && hex_word(s) is None,
{
    lemma_swapped(a, b, c, d);
}

proof fn lemma_swapped(a: u8, b: u8, c: u8, d: u8)
    ensures
        swapped((d * 0x100_0000 + c * 0x1_0000 + b * 0x100 + a) as u32) == a * 0x100_0000 + b
            * 0x1_0000 + c * 0x100 + d,
{
    let n = (d * 0x100_0000 + c * 0x1_0000 + b * 0x100 + a) as u32;
    lemma_bytes(n, d as nat, c as nat, b as nat, a as nat);
}

/// The number whose sixteen bytes are given, the most significant one first.
pub open spec fn sixteen_bytes(b: Seq<u8>) -> int {
    four_bytes(b, 0) * 0x1_0000_0000_0000_0000_0000_0000 + four_bytes(b, 4)
        * 0x1_0000_0000_0000_0000 + four_bytes(b, 8) * 0x1_0000_0000 + four_bytes(b, 12)
}

/// The number whose four bytes are given from position `i` on, the most significant one first.
pub open spec fn four_bytes(b: Seq<u8>, i: int) -> int {
    b[i] * 0x100_0000 + b[i + 1] * 0x1_0000 + b[i + 2] * 0x100 + b[i + 3]
}

/// The number whose four bytes are given from position `i` on, the least significant one first.
pub open spec fn four_bytes_back(b: Seq<u8>, i: int) -> int {
    b[i + 3] * 0x100_0000 + b[i + 2] * 0x1_0000 + b[i + 1] * 0x100 + b[i]
}

/// Four numbers of eight characters, the bytes of each the least significant one last, are the
/// IPv6 address with the bytes of each the other way round. Nothing else is an IPv6 address.
#[verifier::rlimit(40)]
pub proof fn law_ipv6_hex(s: Seq<char>, b: Seq<u8>)
    requires
        b.len() == 16,
    ensures
        s.len() == 32 && unsigned(s.subrange(0, 8), 16, 0xffff_ffff) == Some(
            four_bytes_back(b, 0) as nat,
        ) && unsigned(s.subrange(8, 16), 16, 0xffff_ffff) == Some(four_bytes_back(b, 4) as nat)
            && unsigned(s.subrange(16, 24), 16, 0xffff_ffff) == Some(four_bytes_back(b, 8) as nat)
            && unsigned(s.subrange(24, 32), 16, 0xffff_ffff) == Some(four_bytes_back(b, 12) as nat)
            ==> ipv6_hex(s) == Some(canonical_addr(IpAddr::V6(sixteen_bytes(b) as u128))),
        s.len() != 32 || unsigned(s.subrange(0, 8), 16, 0xffff_ffff) is None || unsigned(
            s.subrange(8, 16),
            16,
            0xffff_ffff,
        ) is None || unsigned(s.subrange(16, 24), 16, 0xffff_ffff) is None || unsigned(
            s.subrange(24, 32),
            16,
            0xffff_ffff,
        ) is None ==> ipv6_hex(s) is None,
{
    lemma_swapped(b[0], b[1], b[2], b[3]);
    lemma_swapped(b[4], b[5], b[6], b[7]);
    lemma_swapped(b[8], b[9], b[10], b[11]);
    lemma_swapped(b[12], b[13], b[14], b[15]);
    assert(eight(s, 0) == s.subrange(0, 8));
    assert(eight(s, 1) == s.subrange(8, 16));
    assert(eight(s, 2) == s.subrange(16, 24));
    assert(eight(s, 3) == s.subrange(24, 32));
}

/// The capital hexadecimal digit for `d`.
pub open spec fn capital(d: int) -> char {
    if d < 10 {
        (48 + d) as char
    } else {
        (55 + d) as char
    }
}

/// A number of 32 bits in eight capital hexadecimal digits.
pub open spec fn eight_digits(n: int) -> Seq<char> {
    seq![
        capital(n / 0x1000_0000),
        capital(n / 0x100_0000 % 16),
        capital(n / 0x10_0000 % 16),
        capital(n / 0x1_0000 % 16),
        capital(n / 0x1000 % 16),
        capital(n / 0x100 % 16),
        capital(n / 0x10 % 16),
        capital(n % 16),
    ]
}

proof fn lemma_capital(d: int)
    requires
        0 <= d < 16,
    ensures
        digit_value(capital(d)) == Some(d as nat),
        is_digit(capital(d), 16),
        capital(d) != ':',
        capital(d) != '+',
        !is_space(capital(d)),
{
}

proof fn lemma_one_more(s: Seq<char>, q: int, n: int)
    requires
        s.len() > 0,
        digits(s, 16) == Some(q as nat),
        0 <= n,
        q == n / 16,
    ensures
        digits(s.push(capital(n % 16)), 16) == Some(n as nat),
{
    lemma_capital(n % 16);
    law_digits_spell_a_number(s, capital(n % 16), 16);
}

#[verifier::rlimit(40)]
proof fn lemma_eight_digits(n: u32)
    ensures
        unsigned(eight_digits(n as int), 16, 0xffff_ffff) == Some(n as nat),
        eight_digits(n as int).len() == 8,
        forall|i: int|
            0 <= i < 8 ==> #[trigger] eight_digits(n as int)[i] != ':' && !is_space(
                eight_digits(n as int)[i],
            ),
{
    let n = n as int;
    let s = eight_digits(n);
    let q1 = n / 0x1000_0000;
    let q2 = n / 0x100_0000;
    let q3 = n / 0x10_0000;
    let q4 = n / 0x1_0000;
    let q5 = n / 0x1000;
    let q6 = n / 0x100;
    let q7 = n / 0x10;
    assert(q1 == q2 / 16 && q2 == q3 / 16 && q3 == q4 / 16 && q4 == q5 / 16 && q5 == q6 / 16 && q6
        == q7 / 16 && q7 == n / 16);
    lemma_capital(q1);
    lemma_capital(q2 % 16);
    lemma_capital(q3 % 16);
    lemma_capital(q4 % 16);
    lemma_capital(q5 % 16);
    lemma_capital(q6 % 16);
    lemma_capital(q7 % 16);
    lemma_capital(n % 16);
    let s1 = seq![capital(q1)];
    law_digits_spell_a_number(s1, capital(q1), 16);
    let s2 = s1.push(capital(q2 % 16));
    lemma_one_more(s1, q1, q2);
    let s3 = s2.push(capital(q3 % 16));
    lemma_one_more(s2, q2, q3);
    let s4 = s3.push(capital(q4 % 16));
    lemma_one_more(s3, q3, q4);
    let s5 = s4.push(capital(q5 % 16));
    lemma_one_more(s4, q4, q5);
    let s6 = s5.push(capital(q6 % 16));
    lemma_one_more(s5, q5, q6);
    let s7 = s6.push(capital(q7 % 16));
    lemma_one_more(s6, q6, q7);
    let s8 = s7.push(capital(n % 16));
    lemma_one_more(s7, q7, n);
    assert(s8 =~= s);
    law_unsigned(s, 16, 0xffff_ffff);
}

/// How a table writes an address: each four of its bytes as a number of eight digits, the last of
/// the four bytes first.
pub open spec fn kernel_form(b: Seq<u8>) -> Seq<char>
    decreases b.len(),
{
    if b.len() < 4 {
        Seq::empty()
    } else {
        kernel_form(b.take(b.len() - 4)) + eight_digits(four_bytes_back(b, b.len() - 4))
    }
}

proof fn lemma_form4(b: Seq<u8>)
    requires
        b.len() == 4,
    ensures
        kernel_form(b) == eight_digits(four_bytes_back(b, 0)),
{
    reveal_with_fuel(kernel_form, 2);
    assert(kernel_form(b) =~= eight_digits(four_bytes_back(b, 0)));
}

proof fn lemma_form16(b: Seq<u8>)
    requires
        b.len() == 16,
    ensures
        kernel_form(b) == eight_digits(four_bytes_back(b, 0)) + eight_digits(four_bytes_back(b, 4))
            + eight_digits(four_bytes_back(b, 8)) + eight_digits(four_bytes_back(b, 12)),
{
    let b12 = b.take(12);
    let b8 = b12.take(8);
    let b4 = b8.take(4);
    assert(kernel_form(b) == kernel_form(b12) + eight_digits(four_bytes_back(b, 12)));
    assert(four_bytes_back(b12, 8) == four_bytes_back(b, 8));
    assert(kernel_form(b12) == kernel_form(b8) + eight_digits(four_bytes_back(b, 8)));
    assert(four_bytes_back(b8, 4) == four_bytes_back(b, 4));
    assert(kernel_form(b8) == kernel_form(b4) + eight_digits(four_bytes_back(b, 4)));
    assert(four_bytes_back(b4, 0) == four_bytes_back(b, 0));
    lemma_form4(b4);
}

/// The kernel's form of every address, of either family, reads back as that address.
#[verifier::rlimit(40)]
pub proof fn law_kernel_form_reads_back(b: Seq<u8>)
    ensures
        b.len() == 4 ==> ipv4_hex(kernel_form(b)) == Some(IpAddr::V4(four_bytes(b, 0) as u32)),
        b.len() == 16 ==> ipv6_hex(kernel_form(b)) == Some(
            canonical_addr(IpAddr::V6(sixteen_bytes(b) as u128)),
        ),
{
    if b.len() == 4 {
        lemma_form4(b);
        lemma_eight_digits(four_bytes_back(b, 0) as u32);
        law_ipv4_hex(kernel_form(b), b[0], b[1], b[2], b[3]);
    }
    if b.len() == 16 {
        let s = kernel_form(b);
        lemma_form16(b);
        lemma_eight_digits(four_bytes_back(b, 0) as u32);
        lemma_eight_digits(four_bytes_back(b, 4) as u32);
        lemma_eight_digits(four_bytes_back(b, 8) as u32);
        lemma_eight_digits(four_bytes_back(b, 12) as u32);
        assert(s.subrange(0, 8) =~= eight_digits(four_bytes_back(b, 0)));
        assert(s.subrange(8, 16) =~= eight_digits(four_bytes_back(b, 4)));
        assert(s.subrange(16, 24) =~= eight_digits(four_bytes_back(b, 8)));
        assert(s.subrange(24, 32) =~= eight_digits(four_bytes_back(b, 12)));
        law_ipv6_hex(s, b);
    }
}

proof fn lemma_form_chars(b: Seq<u8>)
    requires
        b.len() == 4 || b.len() == 16,
    ensures
        kernel_form(b).len() == 2 * b.len(),
        forall|i: int|
            0 <= i < kernel_form(b).len() ==> #[trigger] kernel_form(b)[i] != ':' && !is_space(
                kernel_form(b)[i],
            ),
{
    let s = kernel_form(b);
    lemma_eight_digits(four_bytes_back(b, 0) as u32);
    if b.len() == 4 {
        lemma_form4(b);
    } else {
        lemma_form16(b);
        lemma_eight_digits(four_bytes_back(b, 4) as u32);
        lemma_eight_digits(four_bytes_back(b, 8) as u32);
        lemma_eight_digits(four_bytes_back(b, 12) as u32);
        let w0 = eight_digits(four_bytes_back(b, 0));
        let w1 = eight_digits(four_bytes_back(b, 4));
        let w2 = eight_digits(four_bytes_back(b, 8));
        let w3 = eight_digits(four_bytes_back(b, 12));
        assert forall|i: int| 0 <= i < s.len() implies #[trigger] s[i] != ':' && !is_space(s[i]) by {
            if i < 8 {
                assert(s[i] == w0[i]);
            } else if i < 16 {
                assert(s[i] == w1[i - 8]);
            } else if i < 24 {
                assert(s[i] == w2[i - 16]);
            } else {
                assert(s[i] == w3[i - 24]);
            }
        }
    }
}

/// A line of a table gives the peer that its third word writes before the colon, in the state that
/// its fourth word writes, if that is one of the four that count. The heading gives none.
#[verifier::rlimit(40)]
pub proof fn law_table_line(index: nat, line: Seq<char>, v6: bool, hex: Seq<char>, port: Seq<char>)
    ensures
        index == 0 || words(line).len() < 4 ==> table_entry(index, line, v6) is None,
        words(line).len() >= 4 ==> {
            let w = words(line);
            let st = unsigned(w[3], 16, 255);
            &&& st != Some(1nat) && st != Some(2nat) && st != Some(3nat) && st != Some(12nat)
                ==> table_entry(index, line, v6) is None
            &&& !w[2].contains(':') ==> table_entry(index, line, v6) is None
            &&& index > 0 && (st == Some(1nat) || st == Some(2nat) || st == Some(3nat) || st == Some(
                12nat,
            )) && !hex.contains(':') && w[2] == hex.push(':') + port ==> {
                let peer = if v6 {
                    ipv6_hex(hex)
                } else {
                    ipv4_hex(hex)
                };
                table_entry(index, line, v6) == match peer {
                    Some(ip) => Some((ip, st->0 as u8)),
                    None => None,
                }
            }
        },
{
    let w = words(line);
    if w.len() >= 4 {
        if !w[2].contains(':') {
            law_before(w[2], ':', port);
        }
        if !hex.contains(':') && w[2] == hex.push(':') + port {
            law_before(hex, ':', port);
            assert(w[2].take(hex.len() as int) =~= hex);
        }
    }
}

/// Every line that the kernel writes for a connection in a state that counts gives the peer of that
/// connection and the state, whatever stands in its other columns.
#[verifier::rlimit(40)]
pub proof fn law_kernel_line_gives_its_peer(
    index: nat,
    number: Seq<char>,
    local: Seq<char>,
    peer: Seq<u8>,
    port: Seq<char>,
    st: Seq<char>,
    n: nat,
    rest: Seq<char>,
)
    requires
        index > 0,
        peer.len() == 4 || peer.len() == 16,
        n == 1 || n == 2 || n == 3 || n == 12,
        unsigned(st, 16, 255) == Some(n),
        number.len() > 0 && local.len() > 0,
        forall|i: int| 0 <= i < number.len() ==> !is_space(#[trigger] number[i]),
        forall|i: int| 0 <= i < local.len() ==> !is_space(#[trigger] local[i]),
        forall|i: int| 0 <= i < port.len() ==> !is_space(#[trigger] port[i]),
        forall|i: int| 0 <= i < st.len() ==> !is_space(#[trigger] st[i]),
    ensures
        table_entry(
            index,
            number.push(' ') + (local.push(' ') + ((kernel_form(peer).push(':') + port).push(' ') + (
            st.push(' ') + rest))),
            peer.len() == 16,
        ) == Some(
            (
                if peer.len() == 16 {
                    canonical_addr(IpAddr::V6(sixteen_bytes(peer) as u128))
                } else {
                    IpAddr::V4(four_bytes(peer, 0) as u32)
                },
                n as u8,
            ),
        ),
{
    let hex = kernel_form(peer);
    lemma_form_chars(peer);
    law_kernel_form_reads_back(peer);
    assert(!hex.contains(':')) by {
        if hex.contains(':') {
            let i = choose|i: int| 0 <= i < hex.len() && hex[i] == ':';
            assert(hex[i] != ':');
        }
    }
    lemma_columns(index, number, local, hex, port, st, n, rest, peer.len() == 16);
}

/// The words of a line are its columns.
proof fn lemma_column_words(
    number: Seq<char>,
    local: Seq<char>,
    rem: Seq<char>,
    st: Seq<char>,
    rest: Seq<char>,
)
    requires
        number.len() > 0 && local.len() > 0 && rem.len() > 0 && st.len() > 0,
        forall|i: int| 0 <= i < number.len() ==> !is_space(#[trigger] number[i]),
        forall|i: int| 0 <= i < local.len() ==> !is_space(#[trigger] local[i]),
        forall|i: int| 0 <= i < rem.len() ==> !is_space(#[trigger] rem[i]),
        forall|i: int| 0 <= i < st.len() ==> !is_space(#[trigger] st[i]),
    ensures
        ({
            let w = words(
                number.push(' ') + (local.push(' ') + (rem.push(' ') + (st.push(' ') + rest))),
            );
            w.len() >= 4 && w[2] == rem && w[3] == st
        }),
{
    let l3 = st.push(' ') + rest;
    let l2 = rem.push(' ') + l3;
    let l1 = local.push(' ') + l2;
    law_words(number, ' ', l1);
    law_words(local, ' ', l2);
    law_words(rem, ' ', l3);
    law_words(st, ' ', rest);
    let w = words(number.push(' ') + l1);
    let more = seq![rem] + (seq![st] + words(rest));
    assert(w == seq![number] + (seq![local] + more));
    assert(w[2] == more[0]);
    assert(w[3] == more[1]);
}

#[verifier::rlimit(40)]
proof fn lemma_columns(
    index: nat,
    number: Seq<char>,
    local: Seq<char>,
    hex: Seq<char>,
    port: Seq<char>,
    st: Seq<char>,
    n: nat,
    rest: Seq<char>,
    v6: bool,
)
    requires
        index > 0,
        n == 1 || n == 2 || n == 3 || n == 12,
        unsigned(st, 16, 255) == Some(n),
        number.len() > 0 && local.len() > 0,
        !hex.contains(':'),
        forall|i: int| 0 <= i < number.len() ==> !is_space(#[trigger] number[i]),
        forall|i: int| 0 <= i < local.len() ==> !is_space(#[trigger] local[i]),
        forall|i: int| 0 <= i < hex.len() ==> !is_space(#[trigger] hex[i]),
        forall|i: int| 0 <= i < port.len() ==> !is_space(#[trigger] port[i]),
        forall|i: int| 0 <= i < st.len() ==> !is_space(#[trigger] st[i]),
    ensures
        ({
            let line = number.push(' ') + (local.push(' ') + ((hex.push(':') + port).push(' ') + (
            st.push(' ') + rest)));
            let peer = if v6 {
                ipv6_hex(hex)
            } else {
                ipv4_hex(hex)
            };
            table_entry(index, line, v6) == match peer {
                Some(ip) => Some((ip, n as u8)),
                None => None,
            }
        }),
{
    let rem = hex.push(':') + port;
    assert forall|i: int| 0 <= i < rem.len() implies !is_space(#[trigger] rem[i]) by {
        if i < hex.len() {
            assert(rem[i] == hex[i]);
        } else if i > hex.len() {
            assert(rem[i] == port[i - hex.len() - 1]);
        }
    }
    assert(st.len() > 0) by {
        if st.len() == 0 {
            assert(st =~= Seq::<char>::empty());
            law_unsigned(st, 16, 255);
            law_digits_spell_a_number(st, ' ', 16);
        }
    }
    lemma_column_words(number, local, rem, st, rest);
    let line = number.push(' ') + (local.push(' ') + (rem.push(' ') + (st.push(' ') + rest)));
    law_table_line(index, line, v6, hex, port);
}

} // verus!
