//! Times: how they are written, and what they make due.
use crate::number::{numeral, push_numeral};
use vstd::prelude::*;
use vstd::string::*;

verus! {

/// `n` in decimal, with as many leading zeros as make it at least three digits long.
pub open spec fn three_digits(n: nat) -> Seq<char> {
    if n < 10 {
        "00"@ + numeral(n, 10)
    } else if n < 100 {
        "0"@ + numeral(n, 10)
    } else {
        numeral(n, 10)
    }
}

/// The written form of a time in seconds and milliseconds.
pub open spec fn stamp(secs: u64, millis: u32) -> Seq<char> {
    "["@ + numeral(secs as nat, 10) + "."@ + three_digits(millis as nat) + "]"@
}

/// The written form of a time that lies `secs` seconds and `millis` milliseconds after the epoch.
pub fn now_stamp(secs: u64, millis: u32) -> (s: String)
    ensures
        s@ == stamp(secs, millis),
{
    let mut s = String::new();
    s.append("[");
    push_numeral(&mut s, secs, 10);
    s.append(".");
    if millis < 10 {
        s.append("00");
    } else if millis < 100 {
        s.append("0");
    }
    push_numeral(&mut s, millis as u64, 10);
    s.append("]");
    assert(s@ =~= stamp(secs, millis));
    s
}

/// Whether the addresses of this host and the list are to be read again.
pub fn refresh_due(secs_since_last: u64) -> (b: bool)
    ensures
        b == (secs_since_last >= 30),
{
    secs_since_last >= 30
}

/// Whether the rules are to be looked up again.
pub fn audit_due(secs_since_last: u64) -> (b: bool)
    ensures
        b == (secs_since_last >= 5),
{
    secs_since_last >= 5
}

} // verus!
