//! Finite sets of addresses.
use crate::addr::IpAddr;
use std::collections::HashSet;
use vstd::prelude::*;
use vstd::std_specs::iter::IteratorSpec;

verus! {

/// A finite set of addresses.
#[derive(Debug)]
pub struct AddrSet {
    v4: HashSet<u32>,
    v6: HashSet<u128>,
}

impl View for AddrSet {
    type V = Set<IpAddr>;

    closed spec fn view(&self) -> Set<IpAddr> {
        Set::new(
            |ip: IpAddr|
                match ip {
                    IpAddr::V4(n) => self.v4@.contains(n),
                    IpAddr::V6(n) => self.v6@.contains(n),
                },
        )
    }
}

impl AddrSet {
    /// The set without addresses.
    pub fn new() -> (s: Self)
        ensures
            s@ == Set::<IpAddr>::empty(),
    {
        let s = AddrSet { v4: HashSet::new(), v6: HashSet::new() };
        assert(s@ =~= Set::<IpAddr>::empty());
        s
    }

    /// Whether the set holds `ip`.
    pub fn contains(&self, ip: IpAddr) -> (b: bool)
        ensures
            b == self@.contains(ip),
    {
        match ip {
            IpAddr::V4(n) => self.v4.contains(&n),
            IpAddr::V6(n) => self.v6.contains(&n),
        }
    }

    /// Whether the set holds no address.
    pub fn is_empty(&self) -> (b: bool)
        ensures
            b == (self@ == Set::<IpAddr>::empty()),
    {
        let b: bool = self.v4.is_empty() && self.v6.is_empty();
        proof {
            if b {
                assert(self@ =~= Set::<IpAddr>::empty());
            } else if !self.v4@.is_empty() {
                let n = self.v4@.choose();
                if self.v4@.contains(n) {
                    assert(self@.contains(IpAddr::V4(n)));
                } else {
                    assert(self.v4@ =~= Set::<u32>::empty());
                }
            } else {
                let n = self.v6@.choose();
                if self.v6@.contains(n) {
                    assert(self@.contains(IpAddr::V6(n)));
                } else {
                    assert(self.v6@ =~= Set::<u128>::empty());
                }
            }
        }
        b
    }

    /// Adds `ip`; tells whether it is new.
    pub fn insert(&mut self, ip: IpAddr) -> (added: bool)
        ensures
            final(self)@ == old(self)@.insert(ip),
            added == !old(self)@.contains(ip),
    {
        let added: bool = match ip {
            IpAddr::V4(n) => self.v4.insert(n),
            IpAddr::V6(n) => self.v6.insert(n),
        };
        assert(self@ =~= old(self)@.insert(ip));
        added
    }

    /// Takes `ip` out; tells whether it was there.
    pub fn remove(&mut self, ip: IpAddr) -> (there: bool)
        ensures
            final(self)@ == old(self)@.remove(ip),
            there == old(self)@.contains(ip),
    {
        let there: bool = match ip {
            IpAddr::V4(n) => self.v4.remove(&n),
            IpAddr::V6(n) => self.v6.remove(&n),
        };
        assert(self@ =~= old(self)@.remove(ip));
        there
    }

    /// How many addresses the set holds.
    pub fn len(&self) -> (n: usize)
        ensures
            n == self@.len(),
    {
        let v = self.to_vec();
        proof {
            assert(v@.to_set() =~= self@) by {
                assert forall|ip: IpAddr| v@.to_set().contains(ip) <==> self@.contains(ip) by {
                    assert(v@.contains(ip) <==> self@.contains(ip));
                }
            }
            v@.unique_seq_to_set();
        }
        v.len()
    }

    /// The addresses of the set, each of them once, in no particular order.
    pub fn to_vec(&self) -> (v: Vec<IpAddr>)
        ensures
            forall|ip: IpAddr| v@.contains(ip) <==> self@.contains(ip),
            v@.no_duplicates(),
    {
        let a = keys_v4(&self.v4);
        let b = keys_v6(&self.v6);
        let mut v: Vec<IpAddr> = Vec::new();
        let mut i: usize = 0;
        while i < a.len()
            invariant
                i <= a@.len(),
                v@ == a@.take(i as int).map_values(|n: u32| IpAddr::V4(n)),
            decreases a@.len() - i,
        {
            v.push(IpAddr::V4(a[i]));
            assert(v@ =~= a@.take(i + 1).map_values(|n: u32| IpAddr::V4(n)));
            i += 1;
        }
        let ghost first = a@.map_values(|n: u32| IpAddr::V4(n));
        assert(v@ =~= first);
        let mut j: usize = 0;
        assert(v@ =~= first + b@.take(0).map_values(|n: u128| IpAddr::V6(n)));
        while j < b.len()
            invariant
                j <= b@.len(),
                v@ == first + b@.take(j as int).map_values(|n: u128| IpAddr::V6(n)),
            decreases b@.len() - j,
        {
            v.push(IpAddr::V6(b[j]));
            assert(v@ =~= first + b@.take(j + 1).map_values(|n: u128| IpAddr::V6(n)));
            j += 1;
        }
        assert(v@ =~= first + b@.map_values(|n: u128| IpAddr::V6(n)));
        proof {
            assert forall|ip: IpAddr| v@.contains(ip) <==> self@.contains(ip) by {
                if v@.contains(ip) {
                    let k = choose|k: int| 0 <= k < v@.len() && v@[k] == ip;
                    if k < a@.len() {
                        assert(a@.contains(a@[k]));
                    } else {
                        assert(b@.contains(b@[k - a@.len()]));
                    }
                }
                if self@.contains(ip) {
                    match ip {
                        IpAddr::V4(n) => {
                            assert(a@.contains(n));
                            let k = choose|k: int| 0 <= k < a@.len() && a@[k] == n;
                            assert(v@[k] == ip);
                        },
                        IpAddr::V6(n) => {
                            assert(b@.contains(n));
                            let k = choose|k: int| 0 <= k < b@.len() && b@[k] == n;
                            assert(v@[a@.len() + k] == ip);
                        },
                    }
                }
            }
            assert forall|x: int, y: int| 0 <= x < v@.len() && 0 <= y < v@.len() && x != y implies v@[x]
                != v@[y] by {
                if x < a@.len() && y < a@.len() {
                    assert(a@[x] != a@[y]);
                } else if x >= a@.len() && y >= a@.len() {
                    assert(b@[x - a@.len()] != b@[y - a@.len()]);
                }
            }
        }
        v
    }
}

fn keys_v4(s: &HashSet<u32>) -> (v: Vec<u32>)
    ensures
        forall|n: u32| v@.contains(n) <==> s@.contains(n),
        v@.no_duplicates(),
{
    let mut v: Vec<u32> = Vec::new();
    let ghost refs = s.iter().remaining();
    let ghost keys = refs.unref();
    for n in it: s.iter()
        invariant
            it.seq() == refs,
            keys == refs.unref(),
            v@ == keys.take(it.index() as int),
    {
        v.push(*n);
        assert(v@ =~= keys.take(it.index() + 1));
    }
    assert(v@ =~= keys);
    assert(keys.to_set() == s@);
    assert forall|x: int, y: int| 0 <= x < v@.len() && 0 <= y < v@.len() && x != y implies v@[x]
        != v@[y] by {
        assert(refs[x] != refs[y]);
    }
    assert forall|n: u32| keys.contains(n) <==> s@.contains(n) by {
        assert(keys.contains(n) <==> keys.to_set().contains(n));
    }
    v
}

fn keys_v6(s: &HashSet<u128>) -> (v: Vec<u128>)
    ensures
        forall|n: u128| v@.contains(n) <==> s@.contains(n),
        v@.no_duplicates(),
{
    let mut v: Vec<u128> = Vec::new();
    let ghost refs = s.iter().remaining();
    let ghost keys = refs.unref();
    for n in it: s.iter()
        invariant
            it.seq() == refs,
            keys == refs.unref(),
            v@ == keys.take(it.index() as int),
    {
        v.push(*n);
        assert(v@ =~= keys.take(it.index() + 1));
    }
    assert(v@ =~= keys);
    assert(keys.to_set() == s@);
    assert forall|x: int, y: int| 0 <= x < v@.len() && 0 <= y < v@.len() && x != y implies v@[x]
        != v@[y] by {
        assert(refs[x] != refs[y]);
    }
    assert forall|n: u128| keys.contains(n) <==> s@.contains(n) by {
        assert(keys.contains(n) <==> keys.to_set().contains(n));
    }
    v
}

} // verus!
