//! What holds of numbers in text.
use crate::number::{
    all_digits, digit_char, digit_value, digits, digits_value, is_digit, lemma_numeral, numeral,
    unsigned,
};
use vstd::prelude::*;

verus! {

/// What a character counts as a digit, by code points; the letters count in either case.
pub proof fn law_digit_values(c: char, radix: nat)
    ensures
        digit_value(c) == if 48 <= c as int <= 57 {
            Some((c as int - 48) as nat)
        } else if 97 <= c as int <= 102 {
            Some((c as int - 87) as nat)
        } else if 65 <= c as int <= 70 {
            Some((c as int - 55) as nat)
        } else {
            None::<nat>
        },
        is_digit(c, radix) <==> digit_value(c) is Some && digit_value(c)->0 < radix,
{
}

/// One more digit multiplies the number by the base and adds the digit; a text that holds anything
/// but digits, or nothing, is no number.
pub proof fn law_digits_spell_a_number(s: Seq<char>, c: char, radix: nat)
    ensures
        digits(Seq::empty(), radix) is None,
        digits(seq![c], radix) == if is_digit(c, radix) {
            digit_value(c)
        } else {
            None
        },
        s.len() > 0 ==> digits(s.push(c), radix) == if digits(s, radix) is Some && is_digit(c, radix) {
            Some(digits(s, radix)->0 * radix + digit_value(c)->0)
        } else {
            None
        },
{
    let t = s.push(c);
    let one = seq![c];
    assert(one.drop_last() =~= Seq::<char>::empty());
    assert(digits_value(one.drop_last(), radix) == 0);
    assert(digits_value(one, radix) == 0 * radix + digit_value(c).unwrap());
    assert(0 * radix == 0) by (nonlinear_arith);
    assert(one[0] == c);
    assert(t.drop_last() =~= s);
    assert(t[s.len() as int] == c);
    if all_digits(t, radix) {
        assert forall|i: int| 0 <= i < s.len() implies is_digit(#[trigger] s[i], radix) by {
            assert(s[i] == t[i]);
        }
    }
    if all_digits(s, radix) && is_digit(c, radix) {
        assert forall|i: int| 0 <= i < t.len() implies is_digit(#[trigger] t[i], radix) by {
            if i < s.len() {
                assert(t[i] == s[i]);
            }
        }
    }
}

/// A number may have one plus sign before its digits, and is refused where it is too large.
pub proof fn law_unsigned(s: Seq<char>, radix: nat, max: nat)
    requires
        radix <= 16,
    ensures
        unsigned(s, radix, max) == if digits(s, radix) is Some && digits(s, radix)->0 <= max {
            digits(s, radix)
        } else if s.len() > 0 && s[0] == '+' && digits(s.skip(1), radix) is Some && digits(
            s.skip(1),
            radix,
        )->0 <= max {
            digits(s.skip(1), radix)
        } else {
            None
        },
        unsigned(seq!['+'] + s, radix, max) == if digits(s, radix) is Some && digits(s, radix)->0
            <= max {
            digits(s, radix)
        } else {
            None
        },
{
    if s.len() > 0 && s[0] == '+' {
        assert(!is_digit(s[0], radix));
    }
    assert((seq!['+'] + s).skip(1) =~= s);
}

/// A numeral reads back as its number, and no digits but those of the numeral do, unless they begin
/// with a zero or hold a capital letter.
pub proof fn law_numeral(n: nat, radix: nat, s: Seq<char>)
    requires
        2 <= radix <= 16,
    ensures
        digits(numeral(n, radix), radix) == Some(n),
        digits(s, radix) == Some(n) && (s.len() == 1 || s[0] != '0') && (forall|i: int|
            0 <= i < s.len() ==> !('A' <= #[trigger] s[i] <= 'F')) ==> s == numeral(n, radix),
    decreases s.len(),
{
    lemma_numeral(n, radix);
    if digits(s, radix) == Some(n) && (s.len() == 1 || s[0] != '0') && (forall|i: int|
        0 <= i < s.len() ==> !('A' <= #[trigger] s[i] <= 'F')) {
        let front = s.drop_last();
        let d = digit_value(s.last())->0;
        assert(s[s.len() - 1] == s.last());
        assert(is_digit(s.last(), radix));
        assert(!('A' <= s[s.len() - 1] <= 'F'));
        assert(digit_char(d) == s.last());
        if s.len() == 1 {
            assert(front =~= Seq::<char>::empty());
            assert(digits_value(front, radix) == 0);
            assert(0 * radix == 0) by (nonlinear_arith);
            assert(n == d);
            assert(s =~= seq![digit_char(d)]);
        } else {
            let q = digits_value(front, radix);
            assert forall|i: int| 0 <= i < front.len() implies is_digit(#[trigger] front[i], radix) by {
                assert(front[i] == s[i]);
            }
            assert forall|i: int| 0 <= i < front.len() implies !('A' <= #[trigger] front[i] <= 'F') by {
                assert(front[i] == s[i]);
            }
            assert(front[0] == s[0]);
            lemma_no_leading_zero(front, radix);
            law_numeral(q, radix, front);
            assert(n == q * radix + d);
            vstd::arithmetic::div_mod::lemma_fundamental_div_mod_converse(
                n as int,
                radix as int,
                q as int,
                d as int,
            );
            assert(q * radix >= radix) by (nonlinear_arith)
                requires
                    q >= 1,
            ;
            assert(s =~= front.push(s.last()));
        }
    }
}

/// Digits that do not begin with a zero spell a positive number.
proof fn lemma_no_leading_zero(s: Seq<char>, radix: nat)
    requires
        s.len() > 0,
        all_digits(s, radix),
        s[0] != '0',
        radix >= 1,
    ensures
        digits_value(s, radix) >= 1,
    decreases s.len(),
{
    assert(is_digit(s[0], radix));
    let front = s.drop_last();
    if s.len() == 1 {
        assert(front =~= Seq::<char>::empty());
        assert(0 * radix == 0) by (nonlinear_arith);
        assert(digits_value(front, radix) == 0);
    } else {
        assert forall|i: int| 0 <= i < front.len() implies is_digit(#[trigger] front[i], radix) by {
            assert(front[i] == s[i]);
        }
        assert(front[0] == s[0]);
        lemma_no_leading_zero(front, radix);
        let q = digits_value(front, radix);
        assert(q * radix >= 1) by (nonlinear_arith)
            requires
                q >= 1,
                radix >= 1,
        ;
    }
}

/// A number that is written in a base reads back, with or without a plus sign, wherever it is not
/// too large.
pub proof fn law_written_number_reads_back(n: nat, radix: nat, max: nat)
    requires
        2 <= radix <= 16,
    ensures
        n <= max ==> unsigned(numeral(n, radix), radix, max) == Some(n),
        n > max ==> unsigned(numeral(n, radix), radix, max) is None,
{
    lemma_numeral(n, radix);
    assert(is_digit(numeral(n, radix)[0], radix));
}

} // verus!
