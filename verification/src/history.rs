//! What holds of the rules whatever happens.
use crate::addr::{
    always_skip, canonical_addr, is_link_local, is_loopback, lan_addr, width, IpAddr,
};
use crate::config::Config;
use crate::engine::{
    delete_each, on_link, peers_of, reread, unsent, Action, Event, Shared, State, Submission,
};
use crate::prefix::{any_matches, subnet};
use crate::whitelist::whitelist;
use vstd::prelude::*;

verus! {

/// The state, and what was done so far.
#[verifier::ext_equal]
pub struct History {
    /// The state now.
    pub state: State,
    /// The peers whose rules were to be written.
    pub asked: Set<IpAddr>,
    /// The peers whose rules were written.
    pub wrote: Set<IpAddr>,
    /// The peers whose rules were to be deleted.
    pub withdrawn: Set<IpAddr>,
}

/// The history of a state in which nothing was done.
pub open spec fn start(state: State) -> History {
    History { state, asked: Set::empty(), wrote: Set::empty(), withdrawn: Set::empty() }
}

impl History {
    /// Whether an event can come next: a rule is written only where it was to be written, only a
    /// peer whose rule was written is handed over, and only a rule that was to be deleted is.
    pub open spec fn allows(self, e: Event) -> bool {
        match e {
            Event::Written(ip, _) => self.asked.contains(ip),
            Event::Unsent(ip) => self.wrote.contains(ip),
            Event::Added(ip, _) => self.wrote.contains(ip),
            Event::Deleted(ip, _) => self.withdrawn.contains(ip),
            _ => true,
        }
    }

    /// The history with one more event.
    pub open spec fn step(self, e: Event) -> History {
        History {
            state: self.state.after(e),
            asked: match self.state.writes(e) {
                Some(ip) => self.asked.insert(ip),
                None => self.asked,
            },
            wrote: match e {
                Event::Written(ip, true) => self.wrote.insert(ip),
                _ => self.wrote,
            },
            withdrawn: self.withdrawn.union(self.state.withdraws(e)),
        }
    }

    /// The history with more events.
    pub open spec fn after_all(self, events: Seq<Event>) -> History
        decreases events.len(),
    {
        if events.len() == 0 {
            self
        } else {
            self.after_all(events.drop_last()).step(events.last())
        }
    }

    /// Whether the events can come one after the other.
    pub open spec fn allows_all(self, events: Seq<Event>) -> bool
        decreases events.len(),
    {
        events.len() == 0 || (self.allows_all(events.drop_last()) && self.after_all(
            events.drop_last(),
        ).allows(events.last()))
    }
}

/// Only rules that were written here are ever deleted: every peer whose rule is to be deleted, by
/// the next event after any others, is one whose rule was written before.
pub proof fn law_only_own_rules_are_deleted(state: State, events: Seq<Event>, next: Event)
    requires
        state.managed == Set::<IpAddr>::empty(),
        start(state).allows_all(events),
        start(state).after_all(events).allows(next),
    ensures
        forall|ip: IpAddr| #[trigger]
            start(state).after_all(events).state.withdraws(next).contains(ip) ==> exists|i: int|
                0 <= i < events.len() && #[trigger] events[i] == Event::Written(ip, true),
        forall|ip: IpAddr| #[trigger]
            start(state).after_all(events).state.managed.contains(ip) ==> exists|i: int|
                0 <= i < events.len() && #[trigger] events[i] == Event::Written(ip, true),
{
    let h = start(state).after_all(events);
    lemma_own(state, events);
    assert forall|ip: IpAddr| h.wrote.contains(ip) implies exists|i: int|
        0 <= i < events.len() && #[trigger] events[i] == Event::Written(ip, true) by {
        lemma_wrote(state, events, ip);
    }
}

/// What is managed and what was deleted were written.
proof fn lemma_own(state: State, events: Seq<Event>)
    requires
        state.managed == Set::<IpAddr>::empty(),
        start(state).allows_all(events),
    ensures
        start(state).after_all(events).state.managed.subset_of(start(state).after_all(events).wrote),
        start(state).after_all(events).withdrawn.subset_of(start(state).after_all(events).wrote),
        start(state).after_all(events).wrote.subset_of(start(state).after_all(events).asked),
    decreases events.len(),
{
    if events.len() > 0 {
        lemma_own(state, events.drop_last());
    }
}

proof fn lemma_wrote(state: State, events: Seq<Event>, ip: IpAddr)
    requires
        start(state).after_all(events).wrote.contains(ip),
    ensures
        exists|i: int| 0 <= i < events.len() && #[trigger] events[i] == Event::Written(ip, true),
    decreases events.len(),
{
    if events.len() > 0 {
        let front = events.drop_last();
        if start(state).after_all(front).wrote.contains(ip) {
            lemma_wrote(state, front, ip);
            let i = choose|i: int|
                0 <= i < front.len() && #[trigger] front[i] == Event::Written(ip, true);
            assert(events[i] == Event::Written(ip, true));
        } else {
            assert(events[events.len() - 1] == Event::Written(ip, true));
        }
    }
}

/// A rule that was there at the start is left alone for as long as it is found there: it is
/// neither written nor deleted, whatever happens.
pub proof fn law_rules_of_others_are_left_alone(
    state: State,
    ip: IpAddr,
    events: Seq<Event>,
    next: Event,
)
    requires
        state.managed == Set::<IpAddr>::empty(),
        state.known.contains(ip),
        forall|i: int|
            0 <= i < events.len() ==> (#[trigger] events[i] matches Event::Audited(actual)
                ==> actual.contains(ip)),
        start(state).allows_all(events),
        start(state).after_all(events).allows(next),
    ensures
        start(state).after_all(events).state.writes(next) != Some(ip),
        !start(state).after_all(events).state.withdraws(next).contains(ip),
        start(state).after_all(events).state.known.contains(ip),
        !start(state).after_all(events).state.managed.contains(ip),
{
    lemma_own(state, events);
    lemma_others(state, ip, events);
}

proof fn lemma_others(state: State, ip: IpAddr, events: Seq<Event>)
    requires
        state.managed == Set::<IpAddr>::empty(),
        state.known.contains(ip),
        forall|i: int|
            0 <= i < events.len() ==> (#[trigger] events[i] matches Event::Audited(actual)
                ==> actual.contains(ip)),
        start(state).allows_all(events),
    ensures
        start(state).after_all(events).state.known.contains(ip),
        !start(state).after_all(events).asked.contains(ip),
    decreases events.len(),
{
    if events.len() > 0 {
        let front = events.drop_last();
        assert forall|i: int| 0 <= i < front.len() implies (#[trigger] front[i] matches
            Event::Audited(actual) ==> actual.contains(ip)) by {
            assert(front[i] == events[i]);
        }
        lemma_others(state, ip, front);
        lemma_own(state, front);
        assert(events[events.len() - 1] == events.last());
    }
}

/// In a dry run no rule is ever written and none is ever deleted.
pub proof fn law_dry_run_touches_no_rule(state: State, events: Seq<Event>, next: Event)
    requires
        state.dry_run,
        state.managed == Set::<IpAddr>::empty(),
        start(state).allows_all(events),
        start(state).after_all(events).allows(next),
    ensures
        start(state).after_all(events).state.writes(next) is None,
        start(state).after_all(events).state.withdraws(next) == Set::<IpAddr>::empty(),
{
    lemma_settings(state, events);
    lemma_dry(state, events);
    lemma_own(state, events);
    let h = start(state).after_all(events);
    assert(h.state.withdraws(next) =~= Set::<IpAddr>::empty());
}

proof fn lemma_dry(state: State, events: Seq<Event>)
    requires
        state.dry_run,
        start(state).allows_all(events),
    ensures
        start(state).after_all(events).asked == Set::<IpAddr>::empty(),
    decreases events.len(),
{
    if events.len() > 0 {
        lemma_dry(state, events.drop_last());
        lemma_settings(state, events.drop_last());
    }
}

/// The settings stay as they are.
proof fn lemma_settings(state: State, events: Seq<Event>)
    ensures
        start(state).after_all(events).state.dry_run == state.dry_run,
        start(state).after_all(events).state.whitelist_on == state.whitelist_on,
        start(state).after_all(events).state.include_private == state.include_private,
    decreases events.len(),
{
    if events.len() > 0 {
        lemma_settings(state, events.drop_last());
    }
}

/// Whatever the settings and the list, no rule is written or announced for a loopback address, a
/// link-local one or one of this host.
pub proof fn law_own_addresses_get_no_rule(state: State, seen: IpAddr, ip: IpAddr)
    requires
        is_loopback(ip) || is_link_local(ip) || always_skip(ip) || state.local.contains(ip),
    ensures
        state.submission(seen) != Submission::Write(ip),
        state.submission(seen) != Submission::DryRun(ip),
{
}

/// With a list in force, rules are written for listed peers alone, and for every listed peer that
/// has none yet and is no address of this host.
pub proof fn law_list_decides(state: State, seen: IpAddr)
    requires
        state.whitelist_on,
    ensures
        ({
            let ip = canonical_addr(seen);
            state.submission(seen) is Ignored <==> !state.listed.contains(ip) || always_skip(ip)
                || state.local.contains(ip) || state.known.contains(ip)
        }),
{
}

/// A list without addresses admits nobody.
pub proof fn law_empty_list_admits_nobody(state: State, seen: IpAddr)
    requires
        state.whitelist_on,
        state.listed == Set::<IpAddr>::empty(),
    ensures
        state.submission(seen) is Ignored,
{
}

/// Without a list, every peer gets a rule that has none yet, but for the addresses of this host
/// and, unless they are asked for, local and private ones and those of its own networks.
pub proof fn law_public_peers_get_rules(state: State, seen: IpAddr)
    requires
        !state.whitelist_on,
    ensures
        ({
            let ip = canonical_addr(seen);
            state.submission(seen) is Ignored <==> always_skip(ip) || state.local.contains(ip)
                || state.known.contains(ip) || (!state.include_private && (lan_addr(ip) || on_link(
                state.nets,
                ip,
            )))
        }),
{
}

/// A peer is dealt with once: as soon as it was seen, seeing it again changes nothing, in either
/// form of its address.
pub proof fn law_a_peer_is_dealt_with_once(state: State, ip: IpAddr, again: IpAddr)
    requires
        canonical_addr(again) == canonical_addr(ip),
    ensures
        state.after(Event::Seen(ip)).submission(again) is Ignored,
        state.after(Event::Seen(ip)).after(Event::Seen(again)) == state.after(Event::Seen(ip)),
{
}

/// A rule that could not be written leaves no trace: the peer is dealt with anew when it shows up
/// the next time.
pub proof fn law_a_failed_write_leaves_no_trace(state: State, ip: IpAddr)
    requires
        state.writes(Event::Seen(ip)) is Some,
    ensures
        state.after(Event::Seen(ip)).after(
            Event::Written(state.writes(Event::Seen(ip))->0, false),
        ) == state,
{
    let peer = canonical_addr(ip);
    let back = state.after(Event::Seen(ip)).after(Event::Written(peer, false));
    assert(back.known =~= state.known);
    assert(back =~= state);
}

/// A rule whose route could not be added, or whose peer nobody took over, leaves no trace either.
pub proof fn law_a_failed_route_leaves_no_trace(state: State, ip: IpAddr, unsent: bool)
    requires
        state.writes(Event::Seen(ip)) is Some,
        !state.managed.contains(canonical_addr(ip)),
    ensures
        ({
            let peer = state.writes(Event::Seen(ip))->0;
            let written = state.after(Event::Seen(ip)).after(Event::Written(peer, true));
            let failed = if unsent {
                Event::Unsent(peer)
            } else {
                Event::Added(peer, false)
            };
            written.after(failed) == state && written.withdraws(failed) == set![peer]
        }),
{
    let peer = canonical_addr(ip);
    let written = state.after(Event::Seen(ip)).after(Event::Written(peer, true));
    let failed = if unsent {
        Event::Unsent(peer)
    } else {
        Event::Added(peer, false)
    };
    let back = written.after(failed);
    assert(back.known =~= state.known);
    assert(back.managed =~= state.managed);
    assert(back =~= state);
}

/// After another list came into force, all rules that were written here and stay are those of
/// listed peers; a peer that is still listed keeps its rule, and so does one whose rule was not
/// written here.
pub proof fn law_rules_follow_the_list(state: State, list: Set<IpAddr>)
    requires
        state.whitelist_on,
    ensures
        state.after(Event::Relisted(list)).managed.subset_of(list),
        state.after(Event::Relisted(list)).listed == list,
        forall|ip: IpAddr| #[trigger]
            state.withdraws(Event::Relisted(list)).contains(ip) <==> state.managed.contains(ip)
                && !list.contains(ip),
        forall|ip: IpAddr|
            state.known.contains(ip) && (list.contains(ip) || !state.managed.contains(ip))
                ==> #[trigger] state.after(Event::Relisted(list)).known.contains(ip),
{
}

/// A rule that could not be deleted is tried again when the list is read the next time.
pub proof fn law_a_failed_delete_is_tried_again(
    state: State,
    ip: IpAddr,
    list: Set<IpAddr>,
    again: Set<IpAddr>,
)
    requires
        state.whitelist_on,
        state.withdraws(Event::Relisted(list)).contains(ip),
        !again.contains(ip),
    ensures
        state.after(Event::Relisted(list)).after(Event::Deleted(ip, false)).withdraws(
            Event::Relisted(again),
        ).contains(ip),
{
}

/// After a look at the rules only peers that have one are known, and a second look that finds the
/// same rules changes nothing.
pub proof fn law_audit_keeps_what_is_there(state: State, actual: Set<IpAddr>)
    requires
        !state.dry_run,
    ensures
        state.after(Event::Audited(actual)).known == state.known.intersect(actual),
        state.after(Event::Audited(actual)).after(Event::Audited(actual)) == state.after(
            Event::Audited(actual),
        ),
{
    let once = state.after(Event::Audited(actual));
    assert(once.known =~= state.known.intersect(actual));
    assert(once.known.difference(actual) =~= Set::<IpAddr>::empty());
    let twice = once.after(Event::Audited(actual));
    assert(twice.known =~= once.known);
    assert(twice.managed =~= once.managed);
    assert(twice =~= once);
}

/// A peer whose rule was taken away gets it back when it shows up the next time.
pub proof fn law_a_lost_rule_is_written_again(state: State, seen: IpAddr, actual: Set<IpAddr>)
    requires
        !state.dry_run,
        !state.skips(canonical_addr(seen)),
        !actual.contains(canonical_addr(seen)),
    ensures
        state.after(Event::Audited(actual)).submission(seen) == Submission::Write(
            canonical_addr(seen),
        ),
{
}

/// Without a list and without a request for private peers, no peer on a network of this host gets a
/// rule, whichever its family.
pub proof fn law_peers_on_own_networks_get_no_rule(state: State, i: int, seen: IpAddr)
    requires
        !state.whitelist_on,
        !state.include_private,
        0 <= i < state.nets.len(),
        0 < state.nets[i].plen < width(state.nets[i].addr),
        state.nets[i].matches(canonical_addr(seen)),
    ensures
        state.submission(seen) is Ignored,
        state.skips(canonical_addr(seen)),
{
    assert(subnet(state.nets[i]));
    assert(on_link(state.nets, canonical_addr(seen)));
}

/// A peer gets a rule exactly where it is none of the addresses that never do, no address of this
/// host, not dealt with yet, and either listed, where a list is in force, or else asked for with all
/// private ones, or neither local nor on a network of this host.
pub proof fn law_who_gets_a_rule(state: State, seen: IpAddr)
    ensures
        ({
            let ip = canonical_addr(seen);
            let on_a_net = exists|i: int|
                0 <= i < state.nets.len() && 0 < (#[trigger] state.nets[i]).plen < width(
                    state.nets[i].addr,
                ) && state.nets[i].matches(ip);
            let wanted = if state.whitelist_on {
                state.listed.contains(ip)
            } else {
                state.include_private || !(lan_addr(ip) || on_a_net)
            };
            let skipped = always_skip(ip) || state.local.contains(ip) || !wanted;
            &&& state.skips(ip) <==> skipped
            &&& state.submission(seen) == if skipped || state.known.contains(ip) {
                Submission::Ignored
            } else if state.dry_run {
                Submission::DryRun(ip)
            } else {
                Submission::Write(ip)
            }
        }),
{
    let ip = canonical_addr(seen);
    if on_link(state.nets, ip) {
        let i = choose|i: int|
            0 <= i < state.nets.len() && subnet(#[trigger] state.nets[i]) && state.nets[i].matches(
                ip,
            );
        assert(0 < state.nets[i].plen < width(state.nets[i].addr));
    }
    if exists|i: int|
        0 <= i < state.nets.len() && 0 < (#[trigger] state.nets[i]).plen < width(state.nets[i].addr)
            && state.nets[i].matches(ip) {
        let i = choose|i: int|
            0 <= i < state.nets.len() && 0 < (#[trigger] state.nets[i]).plen < width(
                state.nets[i].addr,
            ) && state.nets[i].matches(ip);
        assert(subnet(state.nets[i]));
    }
}

/// What an event changes of the peers that are known: a peer that is to get a rule, or whose rule is
/// announced, comes in; one whose rule could not be written, was given up, lost its place on the
/// list or is no longer there goes out.
pub proof fn law_what_becomes_known(state: State, e: Event, ip: IpAddr)
    ensures
        state.after(e).known.contains(ip) <==> match e {
            Event::Seen(seen) => state.known.contains(ip) || state.submission(seen)
                == Submission::Write(ip) || state.submission(seen) == Submission::DryRun(ip),
            Event::Written(peer, ok) => state.known.contains(ip) && (ok || ip != peer),
            Event::Unsent(peer) => state.known.contains(ip) && ip != peer,
            Event::Added(peer, ok) => state.known.contains(ip) && (ok || ip != peer),
            Event::Deleted(_, _) => state.known.contains(ip),
            Event::Moved(_, _) => state.known.contains(ip),
            Event::Relisted(list) => state.known.contains(ip) && !(state.whitelist_on
                && state.managed.contains(ip) && !list.contains(ip)),
            Event::Audited(actual) => state.known.contains(ip) && (state.dry_run || actual.contains(
                ip,
            )),
        },
{
}

/// What an event changes of the rules that were written here: one that was written comes in, and so
/// does one that could not be deleted; one that was given up, is to be deleted or is no longer there
/// goes out.
pub proof fn law_what_becomes_managed(state: State, e: Event, ip: IpAddr)
    ensures
        state.after(e).managed.contains(ip) <==> match e {
            Event::Seen(_) => state.managed.contains(ip),
            Event::Written(peer, ok) => state.managed.contains(ip) || (ok && ip == peer),
            Event::Unsent(peer) => state.managed.contains(ip) && ip != peer,
            Event::Added(peer, ok) => state.managed.contains(ip) && (ok || ip != peer),
            Event::Deleted(peer, ok) => state.managed.contains(ip) || (!ok && ip == peer),
            Event::Moved(_, _) => state.managed.contains(ip),
            Event::Relisted(list) => state.managed.contains(ip) && (!state.whitelist_on
                || list.contains(ip)),
            Event::Audited(actual) => state.managed.contains(ip) && (state.dry_run
                || !state.known.contains(ip) || actual.contains(ip)),
        },
{
}

/// Events leave the settings alone; new addresses of this host and a new list take the place of the
/// old ones, a list only where one is in force.
pub proof fn law_what_events_replace(state: State, e: Event)
    ensures
        state.after(e).whitelist_on == state.whitelist_on,
        state.after(e).include_private == state.include_private,
        state.after(e).dry_run == state.dry_run,
        state.after(e).local == match e {
            Event::Moved(local, _) => local,
            _ => state.local,
        },
        state.after(e).nets == match e {
            Event::Moved(_, nets) => nets,
            _ => state.nets,
        },
        state.after(e).listed == match e {
            Event::Relisted(list) => if state.whitelist_on {
                list
            } else {
                state.listed
            },
            _ => state.listed,
        },
{
}

/// A rule is to be written for a peer that was seen and is to get one, and at no other time; it is to
/// be deleted where nobody takes its peer over, where its route could not be added, and where it was
/// written here and its peer is no longer listed.
pub proof fn law_what_is_asked_for(state: State, e: Event, ip: IpAddr)
    ensures
        state.writes(e) == Some(ip) <==> (e matches Event::Seen(seen) && state.submission(seen)
            == Submission::Write(ip)),
        state.withdraws(e).contains(ip) <==> match e {
            Event::Unsent(peer) => ip == peer,
            Event::Added(peer, ok) => !ok && ip == peer,
            Event::Relisted(list) => state.whitelist_on && state.managed.contains(ip)
                && !list.contains(ip),
            _ => false,
        },
{
}

/// The actions that delete the rules of some peers are one deletion for each of them, and no other
/// action.
pub proof fn law_deletions(actions: Seq<Action>, peers: Set<IpAddr>, ip: IpAddr)
    requires
        delete_each(actions, peers),
    ensures
        peers.contains(ip) <==> exists|i: int|
            0 <= i < actions.len() && #[trigger] actions[i] == Action::Delete(ip),
        forall|i: int, j: int|
            0 <= i < j < actions.len() ==> #[trigger] actions[i] != #[trigger] actions[j],
        forall|i: int| 0 <= i < actions.len() ==> !(#[trigger] actions[i] is Add),
{
    let all = peers_of(actions);
    assert(forall|i: int| 0 <= i < actions.len() ==> #[trigger] all[i] == actions[i].peer());
    if peers.contains(ip) {
        assert(all.to_set().contains(ip));
        let i = choose|i: int| 0 <= i < all.len() && all[i] == ip;
        assert(actions[i] == Action::Delete(ip));
    }
    if exists|i: int| 0 <= i < actions.len() && #[trigger] actions[i] == Action::Delete(ip) {
        let i = choose|i: int| 0 <= i < actions.len() && #[trigger] actions[i] == Action::Delete(ip);
        assert(all[i] == ip);
        assert(all.to_set().contains(ip));
    }
    assert forall|i: int, j: int| 0 <= i < j < actions.len() implies #[trigger] actions[i]
        != #[trigger] actions[j] by {
        assert(all[i] != all[j]);
    }
}

/// A new rule that nobody takes over is given up; a deletion that nobody takes over is one that
/// failed.
pub proof fn law_actions_that_nobody_takes(ip: IpAddr, why: &'static str)
    ensures
        unsent(Action::Add(ip, why)) == Event::Unsent(ip),
        unsent(Action::Delete(ip)) == Event::Deleted(ip, false),
{
}

/// A list that was read again holds the addresses that the list given directly matches and those
/// that the text matches.
pub proof fn law_reread_list(cfg: Config, text: Option<&str>, listed: Set<IpAddr>, ip: IpAddr)
    requires
        reread(cfg, text, listed),
    ensures
        text is None ==> (listed.contains(ip) <==> any_matches(cfg.whitelist_inline@, ip)),
        text matches Some(t) ==> whitelist(t@) is Ok && (listed.contains(ip) <==> any_matches(
            cfg.whitelist_inline@,
            ip,
        ) || any_matches(whitelist(t@)->Ok_0, ip)),
{
}

/// The state is what the settings, the sets and the networks hold.
pub proof fn law_state_of_shared(shared: Shared)
    ensures
        shared@.whitelist_on == shared.cfg.whitelist_on,
        shared@.include_private == shared.cfg.include_private,
        shared@.dry_run == shared.cfg.dry_run,
        shared@.known == shared.known@,
        shared@.managed == shared.managed@,
        shared@.local == shared.local@,
        shared@.nets == shared.local_nets@,
        shared@.listed == shared.whitelist@,
        shared.wf() <==> shared.cfg.wf() && shared.whitelist.wf(),
{
}

} // verus!
