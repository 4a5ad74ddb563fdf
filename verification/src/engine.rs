//! What is done about a peer that shows up, and what is remembered of it.
use crate::addr::{
    always_skip, canonical_addr, canonicalize, is_always_skip, is_lan_addr, lan_addr, IpAddr,
};
use crate::addr_set::AddrSet;
use crate::config::{load_whitelist, Config};
use crate::prefix::{any_matches, in_nets, subnet, NetPrefix, PrefixSet};
use crate::whitelist::{bad_entry, whitelist};
use vstd::prelude::*;

verus! {

/// What is known of the rules and of this host.
#[verifier::ext_equal]
pub struct State {
    /// Whether only listed addresses get rules.
    pub whitelist_on: bool,
    /// Whether local and private addresses get rules too.
    pub include_private: bool,
    /// Whether nothing is written at all.
    pub dry_run: bool,
    /// The peers that are thought to have rules.
    pub known: Set<IpAddr>,
    /// The peers whose rules were written here.
    pub managed: Set<IpAddr>,
    /// The addresses of this host.
    pub local: Set<IpAddr>,
    /// The networks of this host.
    pub nets: Seq<NetPrefix>,
    /// The listed addresses.
    pub listed: Set<IpAddr>,
}

/// What can happen.
pub enum Event {
    /// A peer shows up.
    Seen(IpAddr),
    /// The rule of a peer was written, or could not be.
    Written(IpAddr, bool),
    /// Nobody is left to take the peer with a new rule over.
    Unsent(IpAddr),
    /// The route of a peer with a new rule was added, or could not be.
    Added(IpAddr, bool),
    /// The rule of a peer that is no longer listed was deleted, or could not be.
    Deleted(IpAddr, bool),
    /// Other addresses and networks of this host were found.
    Moved(Set<IpAddr>, Seq<NetPrefix>),
    /// Another list came into force.
    Relisted(Set<IpAddr>),
    /// The peers that have rules were looked up.
    Audited(Set<IpAddr>),
}

/// What becomes of a peer that shows up.
#[derive(Clone, Copy, Debug, PartialEq, Eq, Structural)]
pub enum Submission {
    /// It gets no rule, or it has one.
    Ignored,
    /// Its rule is announced, and not written.
    DryRun(IpAddr),
    /// Its rule has to be written.
    Write(IpAddr),
}

/// Whether `ip` lies in one of the networks that are larger than one address and smaller than all.
pub open spec fn on_link(nets: Seq<NetPrefix>, ip: IpAddr) -> bool {
    exists|i: int| 0 <= i < nets.len() && subnet(#[trigger] nets[i]) && nets[i].matches(ip)
}

impl State {
    /// Whether `ip` never gets a rule as things are.
    pub open spec fn skips(self, ip: IpAddr) -> bool {
        ||| always_skip(ip)
        ||| self.local.contains(ip)
        ||| if self.whitelist_on {
            !self.listed.contains(ip)
        } else {
            !self.include_private && (lan_addr(ip) || on_link(self.nets, ip))
        }
    }

    /// What becomes of `ip` when it shows up.
    pub open spec fn submission(self, ip: IpAddr) -> Submission {
        let peer = canonical_addr(ip);
        if self.skips(peer) || self.known.contains(peer) {
            Submission::Ignored
        } else if self.dry_run {
            Submission::DryRun(peer)
        } else {
            Submission::Write(peer)
        }
    }

    /// The peers whose rules were written here and that `list` does not hold.
    pub open spec fn unlisted(self, list: Set<IpAddr>) -> Set<IpAddr> {
        self.managed.difference(list)
    }

    /// The state without the peers `gone`.
    pub open spec fn without(self, gone: Set<IpAddr>) -> State {
        State {
            known: self.known.difference(gone),
            managed: self.managed.difference(gone),
            ..self
        }
    }

    /// The state after an event.
    pub open spec fn after(self, e: Event) -> State {
        match e {
            Event::Seen(ip) => if self.submission(ip) is Ignored {
                self
            } else {
                State { known: self.known.insert(canonical_addr(ip)), ..self }
            },
            Event::Written(ip, ok) => if ok {
                State { managed: self.managed.insert(ip), ..self }
            } else {
                State { known: self.known.remove(ip), ..self }
            },
            Event::Unsent(ip) => self.without(set![ip]),
            Event::Added(ip, ok) => if ok {
                self
            } else {
                self.without(set![ip])
            },
            Event::Deleted(ip, ok) => if ok {
                self
            } else {
                State { managed: self.managed.insert(ip), ..self }
            },
            Event::Moved(local, nets) => State { local, nets, ..self },
            Event::Relisted(list) => if self.whitelist_on {
                State { listed: list, ..self.without(self.unlisted(list)) }
            } else {
                self
            },
            Event::Audited(actual) => if self.dry_run {
                self
            } else {
                self.without(self.known.difference(actual))
            },
        }
    }

    /// The peer whose rule is to be written upon an event.
    pub open spec fn writes(self, e: Event) -> Option<IpAddr> {
        match e {
            Event::Seen(ip) => match self.submission(ip) {
                Submission::Write(peer) => Some(peer),
                _ => None,
            },
            _ => None,
        }
    }

    /// The peers whose rules are to be deleted upon an event.
    pub open spec fn withdraws(self, e: Event) -> Set<IpAddr> {
        match e {
            Event::Unsent(ip) => set![ip],
            Event::Added(ip, ok) => if ok {
                Set::empty()
            } else {
                set![ip]
            },
            Event::Relisted(list) => if self.whitelist_on {
                self.unlisted(list)
            } else {
                Set::empty()
            },
            _ => Set::empty(),
        }
    }
}

/// The settings, and what is known of the rules and of this host.
#[derive(Debug)]
pub struct Shared {
    pub cfg: Config,
    pub known: AddrSet,
    pub local: AddrSet,
    pub local_nets: Vec<NetPrefix>,
    pub whitelist: PrefixSet,
    pub managed: AddrSet,
}

impl View for Shared {
    type V = State;

    open spec fn view(&self) -> State {
        State {
            whitelist_on: self.cfg.whitelist_on,
            include_private: self.cfg.include_private,
            dry_run: self.cfg.dry_run,
            known: self.known@,
            managed: self.managed@,
            local: self.local@,
            nets: self.local_nets@,
            listed: self.whitelist@,
        }
    }
}

/// Whether `ip` gets no rule as things are.
pub fn should_skip(ip: IpAddr, shared: &Shared) -> (b: bool)
    requires
        shared.wf(),
    ensures
        b == shared@.skips(ip),
{
    if is_always_skip(ip) {
        return true;
    }
    if shared.local.contains(ip) {
        return true;
    }
    if shared.cfg.whitelist_on {
        return !in_nets(ip, &shared.whitelist);
    }
    if shared.cfg.include_private {
        return false;
    }
    if is_lan_addr(ip) {
        return true;
    }
    let nets = &shared.local_nets;
    let mut i: usize = 0;
    while i < nets.len()
        invariant
            i <= nets@.len(),
            nets == &shared.local_nets,
            !shared.cfg.whitelist_on,
            !shared.cfg.include_private,
            forall|k: int| 0 <= k < i ==> !(subnet(#[trigger] nets@[k]) && nets@[k].matches(ip)),
        decreases nets@.len() - i,
    {
        if nets[i].is_subnet() && nets[i].contains(ip) {
            assert(subnet(nets@[i as int]) && nets@[i as int].matches(ip));
            assert(on_link(nets@, ip));
            return true;
        }
        i += 1;
    }
    false
}

impl Shared {
    /// Whether the listed prefixes and addresses are in order.
    pub open spec fn wf(&self) -> bool {
        &&& self.cfg.wf()
        &&& self.whitelist.wf()
    }

    /// The state at the start: the peers that have rules are known, and none of the rules were
    /// written here.
    pub fn new(
        cfg: Config,
        known: AddrSet,
        local: AddrSet,
        local_nets: Vec<NetPrefix>,
        whitelist: PrefixSet,
    ) -> (s: Self)
        ensures
            s.cfg == cfg,
            s.known == known,
            s.local == local,
            s.local_nets == local_nets,
            s.whitelist == whitelist,
            s@.managed == Set::<IpAddr>::empty(),
            cfg.wf() && whitelist.wf() ==> s.wf(),
    {
        Shared { cfg, known, local, local_nets, whitelist, managed: AddrSet::new() }
    }

    /// A peer shows up: says whether its rule has to be written. From then on the peer is known.
    pub fn submit(&mut self, ip: IpAddr) -> (r: Submission)
        requires
            old(self).wf(),
        ensures
            final(self).wf(),
            final(self).cfg == old(self).cfg,
            r == old(self)@.submission(ip),
            final(self)@ == old(self)@.after(Event::Seen(ip)),
    {
        let ip = canonicalize(ip);
        if should_skip(ip, self) {
            return Submission::Ignored;
        }
        if !self.known.insert(ip) {
            assert(self.known@ =~= old(self).known@);
            return Submission::Ignored;
        }
        if self.cfg.dry_run {
            Submission::DryRun(ip)
        } else {
            Submission::Write(ip)
        }
    }

    /// The rule of `ip`, which was seen as `why` tells, was written, or could not be: returns what
    /// is to be handed over.
    pub fn rule_written(&mut self, ip: IpAddr, ok: bool, why: &'static str) -> (next: Option<Action>)
        ensures
            old(self).wf() ==> final(self).wf(),
            final(self).cfg == old(self).cfg,
            final(self)@ == old(self)@.after(Event::Written(ip, ok)),
            ok ==> next == Some(Action::Add(ip, why)),
            !ok ==> next is None,
    {
        if ok {
            let _ = self.managed.insert(ip);
            Some(Action::Add(ip, why))
        } else {
            let _ = self.known.remove(ip);
            None
        }
    }

    fn forget(&mut self, ip: IpAddr)
        ensures
            old(self).wf() ==> final(self).wf(),
            final(self).cfg == old(self).cfg,
            final(self)@ == old(self)@.without(set![ip]),
    {
        let _ = self.known.remove(ip);
        let _ = self.managed.remove(ip);
        assert(self@ =~= old(self)@.without(set![ip]));
    }

    /// Nobody is left to take the action over. A rule that was written has to be deleted: its peer
    /// is returned. A rule that was to be deleted is still one that was written here.
    pub fn handoff_failed(&mut self, action: Action) -> (gone: Option<IpAddr>)
        ensures
            old(self).wf() ==> final(self).wf(),
            final(self).cfg == old(self).cfg,
            final(self)@ == old(self)@.after(unsent(action)),
            old(self)@.withdraws(unsent(action)) == match gone {
                Some(peer) => set![peer],
                None => Set::<IpAddr>::empty(),
            },
            match action {
                Action::Add(ip, _) => gone == Some(ip),
                Action::Delete(_) => gone is None,
            },
    {
        match action {
            Action::Add(ip, _) => {
                self.forget(ip);
                Some(ip)
            },
            Action::Delete(ip) => {
                self.delete_finished(ip, false);
                None
            },
        }
    }

    /// The route of `ip` was added, or could not be: in that case its rule has to be deleted.
    pub fn add_finished(&mut self, ip: IpAddr, ok: bool) -> (gone: Option<IpAddr>)
        ensures
            old(self).wf() ==> final(self).wf(),
            final(self).cfg == old(self).cfg,
            final(self)@ == old(self)@.after(Event::Added(ip, ok)),
            old(self)@.withdraws(Event::Added(ip, ok)) == match gone {
                Some(peer) => set![peer],
                None => Set::<IpAddr>::empty(),
            },
            gone is Some <==> !ok,
    {
        if ok {
            None
        } else {
            self.forget(ip);
            Some(ip)
        }
    }

    /// The rule of `ip`, which is no longer listed, was deleted, or could not be: in that case it
    /// is still one that was written here.
    pub fn delete_finished(&mut self, ip: IpAddr, ok: bool)
        ensures
            old(self).wf() ==> final(self).wf(),
            final(self).cfg == old(self).cfg,
            final(self)@ == old(self)@.after(Event::Deleted(ip, ok)),
    {
        if !ok {
            let _ = self.managed.insert(ip);
        }
    }

    /// Other addresses and networks of this host were found.
    pub fn set_local(&mut self, local: AddrSet, local_nets: Vec<NetPrefix>)
        ensures
            old(self).wf() ==> final(self).wf(),
            final(self).cfg == old(self).cfg,
            final(self)@ == old(self)@.after(Event::Moved(local@, local_nets@)),
    {
        self.local = local;
        self.local_nets = local_nets;
    }

    /// Puts another list into force: returns what is to be handed over, the deletion of each rule
    /// that has to go.
    pub fn relist(&mut self, list: PrefixSet) -> (next: Vec<Action>)
        requires
            old(self).wf(),
            list.wf(),
        ensures
            final(self).wf(),
            final(self).cfg == old(self).cfg,
            final(self)@ == old(self)@.after(Event::Relisted(list@)),
            delete_each(next@, old(self)@.withdraws(Event::Relisted(list@))),
    {
        let mut gone: Vec<IpAddr> = Vec::new();
        if !self.cfg.whitelist_on {
            assert(gone@.to_set() =~= Set::<IpAddr>::empty());
            return deletions(&gone);
        }
        let all = self.managed.to_vec();
        let mut i: usize = 0;
        assert(self@ =~= old(self)@.without(gone@.to_set()));
        while i < all.len()
            invariant
                i <= all@.len(),
                all@.no_duplicates(),
                list.wf(),
                self.wf(),
                self.cfg == old(self).cfg,
                self@ == old(self)@.without(gone@.to_set()),
                gone@.no_duplicates(),
                forall|ip: IpAddr| #[trigger]
                    gone@.contains(ip) <==> all@.take(i as int).contains(ip) && !list@.contains(ip),
            decreases all@.len() - i,
        {
            let ip = all[i];
            proof {
                lemma_next(all@, i as int, gone@);
            }
            if !list.contains(ip) {
                self.forget(ip);
                gone.push(ip);
                assert(self@ =~= old(self)@.without(gone@.to_set()));
            }
            i += 1;
        }
        assert(all@.take(i as int) =~= all@);
        self.whitelist = list;
        assert(gone@.to_set() =~= old(self)@.unlisted(list@));
        deletions(&gone)
    }

    /// Reads the list again, from the text of its file if there is one, and puts it into force:
    /// returns what is to be handed over, the deletion of each rule that has to go. A text that is
    /// no list is refused with a report, and what was in force stays in force.
    pub fn reload(&mut self, text: Option<&str>) -> (r: Result<Vec<Action>, String>)
        requires
            old(self).wf(),
        ensures
            final(self).wf(),
            final(self).cfg == old(self).cfg,
            match r {
                Ok(next) => {
                    &&& old(self)@.whitelist_on ==> reread(old(self).cfg, text, final(self)@.listed)
                    &&& delete_each(
                        next@,
                        old(self)@.withdraws(Event::Relisted(final(self)@.listed)),
                    )
                    &&& final(self)@ == old(self)@.after(Event::Relisted(final(self)@.listed))
                },
                Err(e) => {
                    &&& old(self)@.whitelist_on
                    &&& text matches Some(t) && whitelist(t@) matches Err(bad) && e@ == bad_entry(bad)
                    &&& final(self)@ == old(self)@
                },
            },
    {
        if !self.cfg.whitelist_on {
            let none: Vec<IpAddr> = Vec::new();
            assert(none@.to_set() =~= Set::<IpAddr>::empty());
            return Ok(deletions(&none));
        }
        match load_whitelist(&self.cfg, text) {
            Ok(list) => Ok(self.relist(list)),
            Err(e) => Err(e),
        }
    }

    /// The peers in `actual` are those that have rules: forgets every other one, and returns what
    /// was forgotten, each peer once.
    pub fn audit(&mut self, actual: &AddrSet) -> (gone: Vec<IpAddr>)
        ensures
            old(self).wf() ==> final(self).wf(),
            final(self).cfg == old(self).cfg,
            final(self)@ == old(self)@.after(Event::Audited(actual@)),
            gone@.no_duplicates(),
            gone@.to_set() == if old(self)@.dry_run {
                Set::<IpAddr>::empty()
            } else {
                old(self)@.known.difference(actual@)
            },
    {
        let mut gone: Vec<IpAddr> = Vec::new();
        if self.cfg.dry_run {
            assert(gone@.to_set() =~= Set::<IpAddr>::empty());
            return gone;
        }
        let all = self.known.to_vec();
        let mut i: usize = 0;
        assert(self@ =~= old(self)@.without(gone@.to_set()));
        while i < all.len()
            invariant
                i <= all@.len(),
                all@.no_duplicates(),
                old(self).wf() ==> self.wf(),
                self.cfg == old(self).cfg,
                self@ == old(self)@.without(gone@.to_set()),
                gone@.no_duplicates(),
                forall|ip: IpAddr| #[trigger]
                    gone@.contains(ip) <==> all@.take(i as int).contains(ip) && !actual@.contains(ip),
            decreases all@.len() - i,
        {
            let ip = all[i];
            proof {
                lemma_next(all@, i as int, gone@);
            }
            if !actual.contains(ip) {
                self.forget(ip);
                gone.push(ip);
                assert(self@ =~= old(self)@.without(gone@.to_set()));
            }
            i += 1;
        }
        assert(all@.take(i as int) =~= all@);
        assert(gone@.to_set() =~= old(self)@.known.difference(actual@));
        gone
    }
}

/// What is handed over once a rule is written, or is to be deleted.
#[derive(Clone, Copy, Debug, PartialEq, Eq)]
pub enum Action {
    /// A peer whose rule was written, and where it was seen.
    Add(IpAddr, &'static str),
    /// A peer whose rule has to be deleted.
    Delete(IpAddr),
}

impl Action {
    /// The peer that the action is about.
    pub open spec fn peer(self) -> IpAddr {
        match self {
            Action::Add(ip, _) => ip,
            Action::Delete(ip) => ip,
        }
    }
}

/// The peers that the actions are about, in order.
pub open spec fn peers_of(actions: Seq<Action>) -> Seq<IpAddr> {
    actions.map_values(|a: Action| a.peer())
}

/// Whether the actions delete the rule of each of the peers once, and do nothing else.
pub open spec fn delete_each(actions: Seq<Action>, peers: Set<IpAddr>) -> bool {
    &&& forall|i: int| 0 <= i < actions.len() ==> #[trigger] actions[i] is Delete
    &&& peers_of(actions).no_duplicates()
    &&& peers_of(actions).to_set() == peers
}

/// The event that nobody takes an action over.
pub open spec fn unsent(action: Action) -> Event {
    match action {
        Action::Add(ip, _) => Event::Unsent(ip),
        Action::Delete(ip) => Event::Deleted(ip, false),
    }
}

fn deletions(peers: &Vec<IpAddr>) -> (actions: Vec<Action>)
    requires
        peers@.no_duplicates(),
    ensures
        delete_each(actions@, peers@.to_set()),
{
    let mut actions: Vec<Action> = Vec::new();
    let mut i: usize = 0;
    while i < peers.len()
        invariant
            i <= peers@.len(),
            forall|k: int| 0 <= k < actions@.len() ==> #[trigger] actions@[k] is Delete,
            peers_of(actions@) == peers@.take(i as int),
        decreases peers@.len() - i,
    {
        let ghost was = actions@;
        actions.push(Action::Delete(peers[i]));
        assert(peers_of(actions@) =~= peers_of(was).push(peers@[i as int]));
        assert(peers@.take(i + 1) =~= peers@.take(i as int).push(peers@[i as int]));
        i += 1;
    }
    assert(peers@.take(i as int) =~= peers@);
    actions
}

/// What is done about a peer that was handed over.
#[derive(Clone, Copy, Debug, PartialEq, Eq, Structural)]
pub enum Job {
    /// Its rule and its route are deleted.
    Delete(IpAddr),
    /// Its rule is announced, and gets no route.
    RuleOnly(IpAddr),
    /// Its route is added.
    Route(IpAddr),
}

/// What is done about a peer that was handed over, and the reason that is given for it.
pub fn plan(action: Action, noroute: bool) -> (r: (Job, &'static str))
    ensures
        match action {
            Action::Delete(ip) => r.0 == Job::Delete(ip) && r.1@ == "whitelist"@,
            Action::Add(ip, why) => r.1@ == why@ && r.0 == if noroute {
                Job::RuleOnly(ip)
            } else {
                Job::Route(ip)
            },
        },
{
    match action {
        Action::Delete(ip) => (Job::Delete(ip), "whitelist"),
        Action::Add(ip, why) => if noroute {
            (Job::RuleOnly(ip), why)
        } else {
            (Job::Route(ip), why)
        },
    }
}

/// Whether `listed` are the addresses of the list that was given directly and those of the text.
pub open spec fn reread(cfg: Config, text: Option<&str>, listed: Set<IpAddr>) -> bool {
    match text {
        Some(t) => whitelist(t@) matches Ok(list) && forall|ip: IpAddr|
            #[trigger] listed.contains(ip) <==> any_matches(cfg.whitelist_inline@, ip)
                || any_matches(list, ip),
        None => forall|ip: IpAddr|
            #[trigger] listed.contains(ip) <==> any_matches(cfg.whitelist_inline@, ip),
    }
}

/// The next element is new among those before it, and in what was picked from them.
proof fn lemma_next<A>(all: Seq<A>, i: int, picked: Seq<A>)
    requires
        all.no_duplicates(),
        0 <= i < all.len(),
        picked.no_duplicates(),
        forall|x: A| #[trigger] picked.contains(x) ==> all.take(i).contains(x),
    ensures
        forall|x: A| #[trigger]
            all.take(i + 1).contains(x) <==> all.take(i).contains(x) || x == all[i],
        !all.take(i).contains(all[i]),
        forall|x: A| #[trigger] picked.push(all[i]).contains(x) <==> picked.contains(x) || x == all[i],
        picked.push(all[i]).to_set() == picked.to_set().insert(all[i]),
        picked.push(all[i]).no_duplicates(),
{
    let done = all.take(i);
    assert(all.take(i + 1) =~= done.push(all[i]));
    if done.contains(all[i]) {
        let k = choose|k: int| 0 <= k < done.len() && done[k] == all[i];
        assert(all[k] == all[i]);
    }
    lemma_push(done, all[i]);
    lemma_push(picked, all[i]);
}

proof fn lemma_push<A>(s: Seq<A>, a: A)
    ensures
        forall|x: A| #[trigger] s.push(a).contains(x) <==> s.contains(x) || x == a,
        s.push(a).to_set() == s.to_set().insert(a),
        s.no_duplicates() && !s.contains(a) ==> s.push(a).no_duplicates(),
{
    let t = s.push(a);
    assert forall|x: A| #[trigger] t.contains(x) <==> s.contains(x) || x == a by {
        if s.contains(x) {
            let i = choose|i: int| 0 <= i < s.len() && s[i] == x;
            assert(t[i] == x);
        }
        assert(t[s.len() as int] == a);
        if t.contains(x) {
            let i = choose|i: int| 0 <= i < t.len() && t[i] == x;
            if i < s.len() {
                assert(s[i] == x);
            }
        }
    }
    assert forall|x: A| #[trigger] t.to_set().contains(x) <==> s.to_set().insert(a).contains(x) by {
        assert(t.contains(x) <==> s.contains(x) || x == a);
    }
    assert(t.to_set() =~= s.to_set().insert(a));
}

} // verus!
