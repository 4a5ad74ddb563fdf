//! Unsigned numbers in text.
use crate::text::push_all;
use vstd::prelude::*;
use vstd::slice::slice_subrange;

verus! {

/// What the character `c` counts as a digit, in bases up to 16.
pub open spec fn digit_value(c: char) -> Option<nat> {
    if '0' <= c <= '9' {
        Some((c as nat - '0' as nat) as nat)
    } else if 'a' <= c <= 'f' {
        Some((c as nat - 'a' as nat + 10) as nat)
    } else if 'A' <= c <= 'F' {
        Some((c as nat - 'A' as nat + 10) as nat)
    } else {
        None
    }
}

/// Whether `c` is a digit of the given base.
pub open spec fn is_digit(c: char, radix: nat) -> bool {
    digit_value(c) matches Some(d) && d < radix
}

/// Whether all of `s` are digits of the given base.
pub open spec fn all_digits(s: Seq<char>, radix: nat) -> bool {
    forall|i: int| 0 <= i < s.len() ==> is_digit(#[trigger] s[i], radix)
}

/// The number that the digits `s` spell, the most significant one first.
pub open spec fn digits_value(s: Seq<char>, radix: nat) -> nat
    decreases s.len(),
{
    if s.len() == 0 {
        0
    } else {
        digits_value(s.drop_last(), radix) * radix + digit_value(s.last()).unwrap()
    }
}

/// The number that `s` spells with at least one digit and nothing else.
pub open spec fn digits(s: Seq<char>, radix: nat) -> Option<nat> {
    if s.len() > 0 && all_digits(s, radix) {
        Some(digits_value(s, radix))
    } else {
        None
    }
}

/// The number up to `max` that `s` spells, with one plus sign before the digits allowed.
pub open spec fn unsigned(s: Seq<char>, radix: nat, max: nat) -> Option<nat> {
    let body = if s.len() > 0 && s[0] == '+' {
        s.skip(1)
    } else {
        s
    };
    match digits(body, radix) {
        Some(n) => if n <= max {
            Some(n)
        } else {
            None
        },
        None => None,
    }
}

/// The digit that stands for `d`.
pub open spec fn digit_char(d: nat) -> char {
    if d < 10 {
        ('0' as nat + d) as char
    } else {
        ('a' as nat + d - 10) as char
    }
}

/// `n` in the given base, without leading zeros.
pub open spec fn numeral(n: nat, radix: nat) -> Seq<char>
    recommends
        2 <= radix <= 16,
    decreases n,
{
    if n < radix || radix < 2 {
        seq![digit_char(n)]
    } else {
        proof {
            vstd::arithmetic::div_mod::lemma_div_decreases(n as int, radix as int);
        }
        numeral(n / radix, radix).push(digit_char(n % radix))
    }
}

proof fn lemma_digit_char(d: nat, radix: nat)
    requires
        d < radix <= 16,
    ensures
        digit_value(digit_char(d)) == Some(d),
        is_digit(digit_char(d), radix),
        d > 0 ==> digit_char(d) != '0',
{
}

/// A numeral reads back as its number.
pub proof fn lemma_numeral(n: nat, radix: nat)
    requires
        2 <= radix <= 16,
    ensures
        numeral(n, radix).len() > 0,
        all_digits(numeral(n, radix), radix),
        digits_value(numeral(n, radix), radix) == n,
        n > 0 ==> numeral(n, radix)[0] != '0',
        n < radix ==> numeral(n, radix).len() == 1,
    decreases n,
{
    let s = numeral(n, radix);
    if n < radix {
        lemma_digit_char(n, radix);
        assert(s.drop_last() =~= Seq::<char>::empty());
        assert(digits_value(s.drop_last(), radix) == 0);
    } else {
        let q = n / radix;
        let d = n % radix;
        vstd::arithmetic::div_mod::lemma_fundamental_div_mod(n as int, radix as int);
        assert(0 < q < n) by (nonlinear_arith)
            requires
                n == radix * q + d,
                radix <= n,
                2 <= radix,
                0 <= d < radix,
        ;
        lemma_numeral(q, radix);
        lemma_digit_char(d, radix);
        assert(s.drop_last() =~= numeral(q, radix));
        assert(q * radix == radix * q) by (nonlinear_arith);
        assert forall|i: int| 0 <= i < s.len() implies is_digit(#[trigger] s[i], radix) by {
            if i < s.len() - 1 {
                assert(s[i] == numeral(q, radix)[i]);
            }
        }
    }
}

/// How long numerals get.
pub proof fn lemma_numeral_len(n: nat)
    ensures
        n <= 255 ==> numeral(n, 10).len() <= 3,
        n <= 65535 ==> numeral(n, 16).len() <= 4,
{
    if n <= 255 {
        reveal_with_fuel(numeral, 3);
    }
    if n <= 65535 {
        reveal_with_fuel(numeral, 4);
    }
}

/// Four bytes spell a number exactly where they are what division leaves of it.
pub proof fn lemma_bytes(n: u32, a: nat, b: nat, c: nat, d: nat)
    requires
        ({
            &&& a <= 255 && b <= 255 && c <= 255 && d <= 255
            &&& a * 0x100_0000 + b * 0x1_0000 + c * 0x100 + d == n
        }) || ({
            &&& a == n / 0x100_0000
            &&& b == n / 0x1_0000 % 0x100
            &&& c == n / 0x100 % 0x100
            &&& d == n % 0x100
        }),
    ensures
        a <= 255,
        b <= 255,
        c <= 255,
        d <= 255,
        a * 0x100_0000 + b * 0x1_0000 + c * 0x100 + d == n,
        a == n / 0x100_0000,
        b == n / 0x1_0000 % 0x100,
        c == n / 0x100 % 0x100,
        d == n % 0x100,
{
    let q = n / 0x100;
    let r = n / 0x1_0000;
    assert(r == q / 0x100);
    assert(n / 0x100_0000 == r / 0x100);
}

/// More digits never make the number smaller.
proof fn lemma_value_grows(s: Seq<char>, k: int, radix: nat)
    requires
        0 <= k <= s.len(),
        1 <= radix,
    ensures
        digits_value(s.take(k), radix) <= digits_value(s, radix),
    decreases s.len(),
{
    if k == s.len() {
        assert(s.take(k) =~= s);
    } else {
        assert(s.drop_last().take(k) =~= s.take(k));
        lemma_value_grows(s.drop_last(), k, radix);
        let v = digits_value(s.drop_last(), radix);
        assert(v <= v * radix) by (nonlinear_arith)
            requires
                1 <= radix,
        ;
    }
}

fn digit_of(c: char) -> (d: Option<u64>)
    ensures
        match d {
            Some(v) => digit_value(c) == Some(v as nat) && v < 16,
            None => digit_value(c) is None,
        },
{
    if '0' <= c && c <= '9' {
        Some(c as u64 - '0' as u64)
    } else if 'a' <= c && c <= 'f' {
        Some(c as u64 - 'a' as u64 + 10)
    } else if 'A' <= c && c <= 'F' {
        Some(c as u64 - 'A' as u64 + 10)
    } else {
        None
    }
}

/// The number up to `max` that `s` spells with digits alone.
pub fn parse_digits(s: &[char], radix: u64, max: u64) -> (r: Option<u64>)
    requires
        2 <= radix <= 16,
    ensures
        match r {
            Some(n) => digits(s@, radix as nat) == Some(n as nat) && n <= max,
            None => digits(s@, radix as nat) is None || digits(s@, radix as nat).unwrap() > max,
        },
{
    if s.len() == 0 {
        return None;
    }
    let mut n: u64 = 0;
    let mut i: usize = 0;
    while i < s.len()
        invariant
            2 <= radix <= 16,
            i <= s@.len(),
            n <= max,
            forall|k: int| 0 <= k < i ==> is_digit(#[trigger] s@[k], radix as nat),
            n == digits_value(s@.take(i as int), radix as nat),
        decreases s@.len() - i,
    {
        let ghost more = s@.take(i + 1);
        assert(more.drop_last() =~= s@.take(i as int));
        assert(more.last() == s@[i as int]);
        let d: u64 = match digit_of(s[i]) {
            Some(d) => d,
            None => {
                return None;
            },
        };
        if d >= radix {
            return None;
        }
        let wide: u128 = n as u128;
        assert(wide * radix <= u64::MAX * 16) by (nonlinear_arith)
            requires
                wide <= u64::MAX,
                radix <= 16,
        ;
        let next: u128 = wide * (radix as u128) + d as u128;
        assert(next == digits_value(more, radix as nat));
        if next > max as u128 {
            proof {
                lemma_value_grows(s@, i + 1, radix as nat);
            }
            return None;
        }
        n = next as u64;
        i += 1;
    }
    assert(s@.take(i as int) =~= s@);
    Some(n)
}

/// The number up to `max` that `s` spells, with one plus sign before the digits allowed.
pub fn parse_unsigned(s: &[char], radix: u64, max: u64) -> (r: Option<u64>)
    requires
        2 <= radix <= 16,
    ensures
        match r {
            Some(n) => unsigned(s@, radix as nat, max as nat) == Some(n as nat) && n <= max,
            None => unsigned(s@, radix as nat, max as nat) is None,
        },
{
    if s.len() > 0 && s[0] == '+' {
        assert(s@.subrange(1, s@.len() as int) =~= s@.skip(1));
        parse_digits(slice_subrange(s, 1, s.len()), radix, max)
    } else {
        parse_digits(s, radix, max)
    }
}

fn char_of_digit(d: u64) -> (c: char)
    requires
        d < 16,
    ensures
        c == digit_char(d as nat),
{
    let b: u8 = d as u8;
    if b < 10 {
        (('0' as u8) + b) as char
    } else {
        (('a' as u8) + (b - 10)) as char
    }
}

/// The digits of `n` in the given base.
pub fn numeral_chars(n: u64, radix: u64) -> (v: Vec<char>)
    requires
        2 <= radix <= 16,
    ensures
        v@ == numeral(n as nat, radix as nat),
    decreases n,
{
    if n < radix {
        let mut v: Vec<char> = Vec::new();
        v.push(char_of_digit(n));
        assert(v@ =~= seq![digit_char(n as nat)]);
        v
    } else {
        proof {
            vstd::arithmetic::div_mod::lemma_div_decreases(n as int, radix as int);
        }
        let mut v = numeral_chars(n / radix, radix);
        v.push(char_of_digit(n % radix));
        v
    }
}

/// Appends `n` in the given base to `s`.
pub fn push_numeral(s: &mut String, n: u64, radix: u64)
    requires
        2 <= radix <= 16,
    ensures
        final(s)@ == old(s)@ + numeral(n as nat, radix as nat),
{
    let v = numeral_chars(n, radix);
    push_all(s, &v);
}

} // verus!
