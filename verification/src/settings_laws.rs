//! What holds of the settings, of times and of the lines that are written.
use crate::addr::IpAddr;
use crate::clock::{stamp, three_digits};
use crate::config::{
    count, filled, is_yes, list_file, list_inline, names_file, switch, text_of, Config, Env,
};
use crate::number::{digits, is_digit, lemma_numeral, numeral, unsigned};
use crate::prefix::{all_wf, prefix_text, NetPrefix};
use crate::report::{deleted_text, failure_text, outcome_text, Failure, Outcome};
use crate::text::is_space;
use crate::text_laws::{law_before, law_trim};
use crate::whitelist::whitelist;
use vstd::prelude::*;

verus! {

/// Five words switch a setting on, and every other value switches it off; without a value the
/// default holds. A number that cannot be read counts as missing.
pub proof fn law_values(s: Seq<char>, default: bool, number: u64)
    ensures
        switch(None, default) == default,
        switch(Some(s), default) <==> s == "1"@ || s == "true"@ || s == "TRUE"@ || s == "yes"@ || s
            == "YES"@,
        is_yes(s) <==> switch(Some(s), default),
        count(None, number) == number,
        count(Some(s), number) == match unsigned(s, 10, 0xffff_ffff_ffff_ffff) {
            Some(n) => n as u64,
            None => number,
        },
{
}

/// White space around a value does not count, and a value of nothing else is missing.
pub proof fn law_blank_values(left: Seq<char>, s: Seq<char>, right: Seq<char>)
    requires
        forall|i: int| 0 <= i < left.len() ==> is_space(#[trigger] left[i]),
        forall|i: int| 0 <= i < right.len() ==> is_space(#[trigger] right[i]),
        s.len() > 0 ==> !is_space(s.first()) && !is_space(s.last()),
    ensures
        filled(None) is None,
        filled(Some(left + s + right)) == if s.len() > 0 {
            Some(s)
        } else {
            None
        },
{
    law_trim(left, s, right);
}

/// A value that is a file, or that holds a slash and is no list, names the file of the list, in
/// place of any other; every other value is the list itself, beside the file if one is given.
pub proof fn law_list_or_file(s: Seq<char>, file: Option<Seq<char>>, is_file: bool)
    ensures
        list_file(None, file, is_file) == file,
        list_inline(None, is_file) == Ok::<Seq<NetPrefix>, Seq<char>>(Seq::empty()),
        is_file ==> names_file(s, is_file) && list_file(Some(s), file, is_file) == Some(s)
            && list_inline(Some(s), is_file) == Ok::<Seq<NetPrefix>, Seq<char>>(Seq::empty()),
        !is_file && (!s.contains('/') || (whitelist(s) is Ok && whitelist(s)->Ok_0.len() > 0))
            ==> !names_file(s, is_file) && list_file(Some(s), file, is_file) == file && list_inline(
            Some(s),
            is_file,
        ) == whitelist(s),
        !is_file && s.contains('/') && !(whitelist(s) is Ok && whitelist(s)->Ok_0.len() > 0)
            ==> names_file(s, is_file) && list_file(Some(s), file, is_file) == Some(s)
            && list_inline(Some(s), is_file) == Ok::<Seq<NetPrefix>, Seq<char>>(Seq::empty()),
{
    if !s.contains('/') {
        law_before(s, '/', s);
    } else {
        crate::text::lemma_find_none(s, seq!['/']);
        let i = choose|i: int| 0 <= i < s.len() && s[i] == '/';
        assert(s.subrange(i, i + 1) =~= seq!['/']);
        assert(crate::text::occurs_at(s, seq!['/'], i));
    }
}

/// The list and its file are what the two variables hold, but for the white space around it.
pub proof fn law_variables_of_the_list(env: Env, cfg: Config)
    ensures
        env.direct() == filled(
            match env.whitelist {
                Some(t) => Some(t@),
                None => None,
            },
        ),
        env.file() == filled(
            match env.whitelist_file {
                Some(t) => Some(t@),
                None => None,
            },
        ),
        text_of(env.whitelist) == match env.whitelist {
            Some(t) => Some(t@),
            None => None,
        },
        cfg.wf() <==> all_wf(cfg.whitelist_inline@),
{
}

/// Milliseconds are written in decimal with at least three digits, and a time as its seconds and
/// milliseconds with a dot between them, in brackets.
pub proof fn law_stamp(secs: u64, millis: u32)
    ensures
        digits(three_digits(millis as nat), 10) == Some(millis as nat),
        three_digits(millis as nat).len() >= 3,
        millis < 1000 ==> three_digits(millis as nat).len() == 3,
        stamp(secs, millis) == seq!['['] + numeral(secs as nat, 10) + seq!['.'] + three_digits(
            millis as nat,
        ) + seq![']'],
{
    let n = millis as nat;
    let s = numeral(n, 10);
    lemma_numeral(n, 10);
    reveal_strlit("00");
    reveal_strlit("0");
    reveal_strlit("[");
    reveal_strlit(".");
    reveal_strlit("]");
    assert("["@ =~= seq!['[']);
    assert("."@ =~= seq!['.']);
    assert("]"@ =~= seq![']']);
    let t = three_digits(n);
    if n < 10 {
        lemma_zeros_in_front("00"@, s);
    } else if n < 100 {
        lemma_zeros_in_front("0"@, s);
        reveal_with_fuel(numeral, 3);
    } else {
        reveal_with_fuel(numeral, 4);
        assert(s.len() >= 3);
    }
}

proof fn lemma_zeros_in_front(z: Seq<char>, s: Seq<char>)
    requires
        forall|i: int| 0 <= i < z.len() ==> #[trigger] z[i] == '0',
        digits(s, 10) is Some,
    ensures
        digits(z + s, 10) == digits(s, 10),
    decreases s.len(),
{
    let t = z + s;
    assert forall|i: int| 0 <= i < t.len() implies is_digit(#[trigger] t[i], 10) by {
        if i >= z.len() {
            assert(t[i] == s[i - z.len()]);
        }
    }
    lemma_zeros_value(z, s);
}

proof fn lemma_zeros_value(z: Seq<char>, s: Seq<char>)
    requires
        forall|i: int| 0 <= i < z.len() ==> #[trigger] z[i] == '0',
    ensures
        crate::number::digits_value(z + s, 10) == crate::number::digits_value(s, 10),
    decreases z.len() + s.len(),
{
    let t = z + s;
    if s.len() > 0 {
        assert(t.drop_last() =~= z + s.drop_last());
        lemma_zeros_value(z, s.drop_last());
    } else if z.len() > 0 {
        assert(t =~= z);
        let less = z.drop_last();
        assert(z[z.len() - 1] == '0');
        assert forall|i: int| 0 <= i < less.len() implies #[trigger] less[i] == '0' by {
            assert(less[i] == z[i]);
        }
        lemma_zeros_value(less, s);
        assert(less + s =~= less);
    }
}

/// The lines on peers that get rules, lose them, or could not.
pub proof fn law_lines_on_peers(ip: IpAddr, rate: Seq<char>, why: Seq<char>, error: Seq<char>)
    ensures
        outcome_text(Outcome::DryRun, ip, rate, why) == "dry-run add "@ + prefix_text(ip) + " "@ + rate
            + " ("@ + why + ")"@,
        outcome_text(Outcome::Added, ip, rate, why) == "add "@ + prefix_text(ip) + " "@ + rate
            + " ("@ + why + ")"@,
        outcome_text(Outcome::NoRoute, ip, rate, why) == "add "@ + prefix_text(ip) + " "@ + rate
            + " ("@ + why + ", noroute)"@,
        outcome_text(Outcome::WorkerDead, ip, rate, why) == "add "@ + prefix_text(ip) + " "@ + rate
            + " ("@ + why + ", rule-only; worker dead)"@,
        deleted_text(ip, why) == "del "@ + prefix_text(ip) + " ("@ + why + ")"@,
        failure_text(Failure::Write, ip, error) == "write "@ + prefix_text(ip) + ": "@ + error,
        failure_text(Failure::Route, ip, error) == "fail "@ + prefix_text(ip) + ": "@ + error,
        failure_text(Failure::Delete, ip, error) == "fail del "@ + prefix_text(ip) + ": "@ + error,
{
}

} // verus!
