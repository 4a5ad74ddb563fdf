//! The lines that tell what was done about a peer.
use crate::addr::IpAddr;
use crate::prefix::{prefix_of, prefix_text};
use vstd::prelude::*;
use vstd::string::*;

verus! {

/// What was done about a peer.
#[derive(Clone, Copy, Debug, PartialEq, Eq, Structural)]
pub enum Outcome {
    /// Its rule is announced, and not written.
    DryRun,
    /// Its rule and its route are there.
    Added,
    /// Its rule is there, and no route was asked for.
    NoRoute,
    /// Nobody was left to take it over.
    WorkerDead,
}

/// What could not be done about a peer.
#[derive(Clone, Copy, Debug, PartialEq, Eq, Structural)]
pub enum Failure {
    /// Its rule could not be written.
    Write,
    /// Its route could not be added.
    Route,
    /// Its rule could not be deleted.
    Delete,
}

/// The line on a peer that gets a rule, with the rate and where the peer was seen.
pub open spec fn outcome_text(
    outcome: Outcome,
    ip: IpAddr,
    rate: Seq<char>,
    why: Seq<char>,
) -> Seq<char> {
    let verb = if outcome == Outcome::DryRun {
        "dry-run add "@
    } else {
        "add "@
    };
    let end = match outcome {
        Outcome::DryRun => ")"@,
        Outcome::Added => ")"@,
        Outcome::NoRoute => ", noroute)"@,
        Outcome::WorkerDead => ", rule-only; worker dead)"@,
    };
    verb + prefix_text(ip) + " "@ + rate + " ("@ + why + end
}

/// The line on a peer whose rule was deleted.
pub open spec fn deleted_text(ip: IpAddr, why: Seq<char>) -> Seq<char> {
    "del "@ + prefix_text(ip) + " ("@ + why + ")"@
}

/// The line on what could not be done about a peer.
pub open spec fn failure_text(failure: Failure, ip: IpAddr, error: Seq<char>) -> Seq<char> {
    let verb = match failure {
        Failure::Write => "write "@,
        Failure::Route => "fail "@,
        Failure::Delete => "fail del "@,
    };
    verb + prefix_text(ip) + ": "@ + error
}

/// The line on a peer that gets a rule.
pub fn outcome_line(outcome: Outcome, ip: IpAddr, rate: &str, why: &str) -> (s: String)
    ensures
        s@ == outcome_text(outcome, ip, rate@, why@),
{
    let mut s = String::new();
    if outcome == Outcome::DryRun {
        s.append("dry-run add ");
    } else {
        s.append("add ");
    }
    s.append(prefix_of(ip).as_str());
    s.append(" ");
    s.append(rate);
    s.append(" (");
    s.append(why);
    match outcome {
        Outcome::DryRun => s.append(")"),
        Outcome::Added => s.append(")"),
        Outcome::NoRoute => s.append(", noroute)"),
        Outcome::WorkerDead => s.append(", rule-only; worker dead)"),
    }
    assert(s@ =~= outcome_text(outcome, ip, rate@, why@));
    s
}

/// The line on a peer whose rule was deleted.
pub fn deleted_line(ip: IpAddr, why: &str) -> (s: String)
    ensures
        s@ == deleted_text(ip, why@),
{
    let mut s = String::new();
    s.append("del ");
    s.append(prefix_of(ip).as_str());
    s.append(" (");
    s.append(why);
    s.append(")");
    assert(s@ =~= deleted_text(ip, why@));
    s
}

/// The line on what could not be done about a peer.
pub fn failure_line(failure: Failure, ip: IpAddr, error: &str) -> (s: String)
    ensures
        s@ == failure_text(failure, ip, error@),
{
    let mut s = String::new();
    match failure {
        Failure::Write => s.append("write "),
        Failure::Route => s.append("fail "),
        Failure::Delete => s.append("fail del "),
    }
    s.append(prefix_of(ip).as_str());
    s.append(": ");
    s.append(error);
    assert(s@ =~= failure_text(failure, ip, error@));
    s
}

} // verus!
