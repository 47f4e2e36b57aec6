//! Where the shards of the domains can be reached, and how a sender keeps hold of the
//! transport to one of them.

use crate::addressing::DomainIndex;
use crate::assoc::{
    assoc_map, distinct_keys, lemma_assoc_absent, lemma_assoc_at, lemma_assoc_empty,
    lemma_assoc_push, lemma_assoc_update,
};
use vstd::prelude::*;

verus! {

/// How a shard of a domain is reached.
#[derive(Debug)]
pub struct Endpoint {
    /// The address of the shard.
    pub addr: String,
    /// Whether the shard lives in this process, so that packets go through a queue and need
    /// not be written out as frames.
    pub local: bool,
}

/// What an [`Endpoint`] stands for.
pub struct Transport {
    /// The address of the shard.
    pub addr: Seq<char>,
    /// Whether the shard lives in this process.
    pub local: bool,
}

impl View for Endpoint {
    type V = Transport;

    open spec fn view(&self) -> Transport {
        Transport { addr: self.addr@, local: self.local }
    }
}

impl Endpoint {
    /// A copy of the endpoint.
    pub fn copy(&self) -> (e: Endpoint)
        ensures
            e@ == self@,
    {
        Endpoint { addr: self.addr.clone(), local: self.local }
    }
}

/// The map from the shards of the domains to where they are reached.
#[derive(Debug)]
pub struct ChannelCoordinator {
    entries: Vec<((DomainIndex, usize), Endpoint)>,
}

impl ChannelCoordinator {
    /// The entries as a list of pairs.
    pub closed spec fn pairs(self) -> Seq<((DomainIndex, usize), Transport)> {
        Seq::new(self.entries@.len(), |i: int| (self.entries@[i].0, self.entries@[i].1@))
    }

    /// The map that the coordinator stands for.
    pub closed spec fn view(self) -> Map<(DomainIndex, usize), Transport> {
        assoc_map(self.pairs())
    }

    /// No shard has two entries.
    pub closed spec fn wf(self) -> bool {
        distinct_keys(self.pairs())
    }

    /// A coordinator that knows no shard.
    pub fn new() -> (c: ChannelCoordinator)
        ensures
            c.wf(),
            c@ == Map::<(DomainIndex, usize), Transport>::empty(),
    {
        let c = ChannelCoordinator { entries: Vec::new() };
        proof {
            lemma_assoc_empty::<(DomainIndex, usize), Transport>();
            assert(c.pairs() =~= Seq::<((DomainIndex, usize), Transport)>::empty());
        }
        c
    }

    fn find(&self, key: (DomainIndex, usize)) -> (r: Option<usize>)
        requires
            self.wf(),
        ensures
            r.is_some() == self@.dom().contains(key),
            r.is_some() ==> r.unwrap() < self.entries@.len() && self.pairs()[r.unwrap() as int].0
                == key && self@[key] == self.pairs()[r.unwrap() as int].1,
    {
        let mut i: usize = 0;
        while i < self.entries.len()
            invariant
                self.wf(),
                i <= self.entries@.len(),
                forall|j: int| 0 <= j < i ==> (#[trigger] self.pairs()[j]).0 != key,
            decreases self.entries@.len() - i,
        {
            if self.entries[i].0.0 == key.0 && self.entries[i].0.1 == key.1 {
                proof {
                    lemma_assoc_at(self.pairs(), i as int);
                }
                return Some(i);
            }
            i += 1;
        }
        proof {
            lemma_assoc_absent(self.pairs(), key);
        }
        None
    }

    /// Notes where the shard `key` is reached, in place of what was known of it.
    pub fn insert_addr(&mut self, key: (DomainIndex, usize), addr: String, local: bool)
        requires
            old(self).wf(),
        ensures
            final(self).wf(),
            final(self)@ == old(self)@.insert(key, Transport { addr: addr@, local }),
    {
        let ghost before = self.pairs();
        let ghost t = Transport { addr: addr@, local };
        match self.find(key) {
            Some(i) => {
                self.entries[i].1 = Endpoint { addr, local };
                proof {
                    assert(self.pairs() =~= before.update(i as int, (before[i as int].0, t)));
                    lemma_assoc_update(before, i as int, t);
                }
            },
            None => {
                self.entries.push((key, Endpoint { addr, local }));
                proof {
                    assert(self.pairs() =~= before.push((key, t)));
                    lemma_assoc_push(before, key, t);
                }
            },
        }
    }

    /// Where the shard `key` is reached, and whether it lives in this process.
    pub fn get_dest(&self, key: (DomainIndex, usize)) -> (e: Option<Endpoint>)
        requires
            self.wf(),
        ensures
            e.is_some() == self@.dom().contains(key),
            e.is_some() ==> e.unwrap()@ == self@[key],
    {
        match self.find(key) {
            Some(i) => Some(self.entries[i].1.copy()),
            None => None,
        }
    }

    /// The address of the shard `key`.
    pub fn get_addr(&self, key: (DomainIndex, usize)) -> (a: Option<String>)
        requires
            self.wf(),
        ensures
            a.is_some() == self@.dom().contains(key),
            a.is_some() ==> a.unwrap()@ == self@[key].addr,
    {
        match self.find(key) {
            Some(i) => Some(self.entries[i].1.addr.clone()),
            None => None,
        }
    }

    /// Whether the shard `key` lives in this process.
    pub fn is_local(&self, key: (DomainIndex, usize)) -> (l: Option<bool>)
        requires
            self.wf(),
        ensures
            l.is_some() == self@.dom().contains(key),
            l.is_some() ==> l.unwrap() == self@[key].local,
    {
        match self.find(key) {
            Some(i) => Some(self.entries[i].1.local),
            None => None,
        }
    }
}

/// What a sender does after a send.
#[derive(Clone, Copy, Debug, PartialEq, Eq, Structural)]
pub enum SendOutcome {
    /// The packet is sent.
    Sent,
    /// The send failed: the transport is given up, and the packet is to be sent again over
    /// a transport that is looked up anew.
    Retry,
    /// The send failed once more than the budget allows: the sender is poisoned, and the
    /// packet is abandoned.
    Poisoned,
}

/// The model of a sender.
pub struct SenderView {
    /// The shard that the sender sends to.
    pub key: (DomainIndex, usize),
    /// The transport that the sender holds, if it holds one.
    pub cached: Option<Transport>,
    /// How often in a row a send has failed.
    pub failures: nat,
    /// How often in a row a send may fail.
    pub budget: nat,
    /// Whether the sender is given up.
    pub poisoned: bool,
}

/// A sender to one shard of a domain. It looks the transport up once and holds on to it;
/// when a send fails it gives the transport up and looks it up anew, and when sends have
/// failed more often in a row than its budget allows it is poisoned.
#[derive(Debug)]
pub struct Sender {
    key: (DomainIndex, usize),
    cached: Option<Endpoint>,
    failures: usize,
    budget: usize,
    poisoned: bool,
}

impl Sender {
    /// The model of the sender.
    pub closed spec fn view(self) -> SenderView {
        SenderView {
            key: self.key,
            cached: match self.cached {
                Some(e) => Some(e@),
                None => None,
            },
            failures: self.failures as nat,
            budget: self.budget as nat,
            poisoned: self.poisoned,
        }
    }

    /// A sender to the shard `key` that may fail `budget` times in a row.
    pub fn new(key: (DomainIndex, usize), budget: usize) -> (s: Sender)
        ensures
            s@ == (SenderView { key, cached: None, failures: 0, budget: budget as nat, poisoned: false }),
    {
        Sender { key, cached: None, failures: 0, budget, poisoned: false }
    }

    /// Whether the sender is given up.
    pub fn is_poisoned(&self) -> (b: bool)
        ensures
            b == self@.poisoned,
    {
        self.poisoned
    }

    /// The transport to send over: the one that the sender holds, or, if it holds none, the
    /// one that the coordinator knows, which the sender then holds. `None` where the sender
    /// is poisoned or the coordinator does not know the shard.
    pub fn resolve(&mut self, coordinator: &ChannelCoordinator) -> (e: Option<Endpoint>)
        requires
            coordinator.wf(),
        ensures
            final(self)@.key == old(self)@.key,
            final(self)@.failures == old(self)@.failures,
            final(self)@.budget == old(self)@.budget,
            final(self)@.poisoned == old(self)@.poisoned,
            old(self)@.poisoned ==> e.is_none() && final(self)@.cached == old(self)@.cached,
            !old(self)@.poisoned ==> {
                let found = if old(self)@.cached.is_some() {
                    old(self)@.cached
                } else if coordinator@.dom().contains(old(self)@.key) {
                    Some(coordinator@[old(self)@.key])
                } else {
                    None
                };
                &&& final(self)@.cached == found
                &&& e.is_some() == found.is_some()
                &&& e.is_some() ==> e.unwrap()@ == found.unwrap()
            },
    {
        if self.poisoned {
            return None;
        }
        if self.cached.is_none() {
            self.cached = coordinator.get_dest(self.key);
        }
        match &self.cached {
            Some(e) => Some(e.copy()),
            None => None,
        }
    }

    /// Takes note of how a send went. After a send that went through, the failures are
    /// forgotten. After one that failed, the transport is given up; the packet is to be
    /// sent again unless the sends have now failed more often than the budget allows, which
    /// poisons the sender.
    pub fn sent(&mut self, ok: bool) -> (o: SendOutcome)
        ensures
            final(self)@.key == old(self)@.key,
            final(self)@.budget == old(self)@.budget,
            old(self)@.poisoned ==> o == SendOutcome::Poisoned && final(self)@ == old(self)@,
            !old(self)@.poisoned && ok ==> o == SendOutcome::Sent && final(self)@.failures == 0
                && final(self)@.cached == old(self)@.cached && !final(self)@.poisoned,
            !old(self)@.poisoned && !ok ==> final(self)@.cached.is_none() && (if old(self)@.failures < old(self)@.budget {
                o == SendOutcome::Retry && final(self)@.failures == old(self)@.failures + 1
                    && !final(self)@.poisoned
            } else {
                o == SendOutcome::Poisoned && final(self)@.failures == old(self)@.failures
                    && final(self)@.poisoned
            }),
    {
        if self.poisoned {
            return SendOutcome::Poisoned;
        }
        if ok {
            self.failures = 0;
            return SendOutcome::Sent;
        }
        self.cached = None;
        if self.failures < self.budget {
            self.failures = self.failures + 1;
            SendOutcome::Retry
        } else {
            self.poisoned = true;
            SendOutcome::Poisoned
        }
    }
}

} // verus!
