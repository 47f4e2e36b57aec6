//! Identifiers for domains, for replay paths and for nodes, globally and within one domain.

use crate::text::{decimal, push_decimal};
use vstd::prelude::*;

verus! {

/// Identifier of a domain.
#[derive(Clone, Copy, Debug, PartialEq, Eq, Structural, Hash)]
pub struct DomainIndex(pub usize);

impl DomainIndex {
    /// The number behind this identifier.
    pub fn index(self) -> (i: usize)
        ensures
            i == self.0,
    {
        self.0
    }
}

impl From<usize> for DomainIndex {
    fn from(i: usize) -> (d: DomainIndex) {
        DomainIndex(i)
    }
}

impl vstd::std_specs::convert::FromSpecImpl<usize> for DomainIndex {
    open spec fn obeys_from_spec() -> bool {
        true
    }

    open spec fn from_spec(i: usize) -> DomainIndex {
        DomainIndex(i)
    }
}

impl From<DomainIndex> for usize {
    fn from(d: DomainIndex) -> (i: usize) {
        d.0
    }
}

impl vstd::std_specs::convert::FromSpecImpl<DomainIndex> for usize {
    open spec fn obeys_from_spec() -> bool {
        true
    }

    open spec fn from_spec(d: DomainIndex) -> usize {
        d.0
    }
}

/// Globally unique identifier of a node of the graph.
#[derive(Clone, Copy, Debug, PartialEq, Eq, Structural, Hash)]
pub struct NodeIndex(pub usize);

impl NodeIndex {
    /// The identifier with number `i`.
    pub fn new(i: usize) -> (n: NodeIndex)
        ensures
            n.0 == i,
    {
        NodeIndex(i)
    }

    /// The number behind this identifier.
    pub fn index(self) -> (i: usize)
        ensures
            i == self.0,
    {
        self.0
    }
}

impl From<usize> for NodeIndex {
    fn from(i: usize) -> (n: NodeIndex) {
        NodeIndex(i)
    }
}

impl vstd::std_specs::convert::FromSpecImpl<usize> for NodeIndex {
    open spec fn obeys_from_spec() -> bool {
        true
    }

    open spec fn from_spec(i: usize) -> NodeIndex {
        NodeIndex(i)
    }
}

/// A domain-local node identifier: a small dense number given out when the node's domain
/// takes the node in.
#[derive(Clone, Copy, Debug, PartialEq, Eq, Structural, Hash)]
pub struct LocalNodeIndex {
    id: u32,
}

impl LocalNodeIndex {
    /// The number behind this identifier, as a specification value.
    pub closed spec fn spec_id(self) -> nat {
        self.id as nat
    }

    /// The local identifier with number `id`. Only the code that assigns nodes to a domain
    /// should make one.
    pub fn make(id: u32) -> (l: LocalNodeIndex)
        ensures
            l.spec_id() == id,
    {
        LocalNodeIndex { id }
    }

    /// The number behind this identifier.
    pub fn id(self) -> (i: usize)
        ensures
            i == self.spec_id(),
            i <= u32::MAX,
    {
        self.id as usize
    }

    /// The textual form: the letter `l` and the number in decimal.
    pub fn to_text(self) -> (s: String)
        ensures
            s@ == seq!['l'] + decimal(self.spec_id()),
    {
        let mut s = String::from_str("l");
        proof {
            reveal_strlit("l");
            assert("l"@ =~= seq!['l']);
        }
        push_decimal(&mut s, self.id as u64);
        s
    }

    /// Two local identifiers with the same number are the same identifier.
    pub proof fn lemma_id_injective(a: LocalNodeIndex, b: LocalNodeIndex)
        requires
            a.spec_id() == b.spec_id(),
        ensures
            a == b,
    {
    }
}

/// Identifier of a replay path.
#[derive(Clone, Copy, Debug, PartialEq, Eq, Structural, Hash)]
pub struct Tag(pub u32);

impl Tag {
    /// The number behind this tag.
    pub fn id(self) -> (i: u32)
        ensures
            i == self.0,
    {
        self.0
    }
}

/// How the copies of a node divide the records among them.
#[derive(Clone, Copy, Debug, PartialEq, Eq, Structural)]
pub enum Sharding {
    /// The node is not sharded: one copy sees every record.
    Unsharded,
    /// The node has `shards` copies, and a record goes to the copy that the hash of its
    /// column `column` selects.
    ByColumn { column: usize, shards: usize },
}

impl Sharding {
    /// The number of copies of a node that is sharded this way.
    pub open spec fn spec_shards(self) -> nat {
        match self {
            Sharding::Unsharded => 1,
            Sharding::ByColumn { shards, .. } => shards as nat,
        }
    }

    /// The number of copies of a node that is sharded this way.
    pub fn shards(self) -> (n: usize)
        ensures
            n == self.spec_shards(),
    {
        match self {
            Sharding::Unsharded => 1,
            Sharding::ByColumn { shards, .. } => shards,
        }
    }

    /// Whether there is no sharding.
    pub fn is_none(self) -> (b: bool)
        ensures
            b == (self == Sharding::Unsharded),
    {
        match self {
            Sharding::Unsharded => true,
            Sharding::ByColumn { .. } => false,
        }
    }
}

/// The global identifier of a node together with its local one, once that is known.
#[derive(Clone, Copy, Debug, PartialEq, Eq, Structural)]
pub struct IndexPair {
    global: NodeIndex,
    local: Option<LocalNodeIndex>,
}

impl IndexPair {
    /// The global half.
    pub closed spec fn spec_global(self) -> NodeIndex {
        self.global
    }

    /// The local half, if it has been filled in.
    pub closed spec fn spec_local(self) -> Option<LocalNodeIndex> {
        self.local
    }

    /// A pair that knows only the global identifier.
    pub fn new(global: NodeIndex) -> (p: IndexPair)
        ensures
            p.spec_global() == global,
            p.spec_local().is_none(),
    {
        IndexPair { global, local: None }
    }

    /// Fills in the local half.
    pub fn set_local(&mut self, local: LocalNodeIndex)
        ensures
            final(self).spec_global() == old(self).spec_global(),
            final(self).spec_local() == Some(local),
    {
        self.local = Some(local);
    }

    /// Whether the local half is known.
    pub fn has_local(&self) -> (b: bool)
        ensures
            b == self.spec_local().is_some(),
    {
        self.local.is_some()
    }

    /// The global half.
    pub fn as_global(&self) -> (g: NodeIndex)
        ensures
            g == self.spec_global(),
    {
        self.global
    }

    /// The local half, which must be known.
    pub fn as_local(&self) -> (l: LocalNodeIndex)
        requires
            self.spec_local().is_some(),
        ensures
            Some(l) == self.spec_local(),
    {
        self.local.unwrap()
    }

    /// Replaces this pair by the one that `mapping` holds for its global identifier.
    /// Where `mapping` has no entry for it the pair stays as it is and `false` is returned.
    pub fn remap(&mut self, mapping: &Remap) -> (found: bool)
        requires
            mapping.wf(),
        ensures
            found == mapping@.dom().contains(old(self).spec_global()),
            found ==> *final(self) == mapping@[old(self).spec_global()],
            !found ==> *final(self) == *old(self),
    {
        match mapping.get(self.global) {
            Some(p) => {
                *self = p;
                true
            },
            None => false,
        }
    }

    /// Two pairs with the same halves are the same pair.
    pub proof fn lemma_ext(a: IndexPair, b: IndexPair)
        requires
            a.spec_global() == b.spec_global(),
            a.spec_local() == b.spec_local(),
        ensures
            a == b,
    {
    }
}

impl From<NodeIndex> for IndexPair {
    fn from(global: NodeIndex) -> (p: IndexPair) {
        IndexPair { global, local: None }
    }
}

impl vstd::std_specs::convert::FromSpecImpl<NodeIndex> for IndexPair {
    open spec fn obeys_from_spec() -> bool {
        true
    }

    closed spec fn from_spec(global: NodeIndex) -> IndexPair {
        IndexPair { global, local: None }
    }
}

/// The mapping from global identifiers to pairs that a domain hands to each of its new
/// nodes: a finite map, kept as a list in which no global identifier occurs twice.
pub struct Remap {
    entries: Vec<(NodeIndex, IndexPair)>,
}

impl Remap {
    /// The first position at or after `from` whose entry is for `g`, if there is one.
    pub closed spec fn position(self, g: NodeIndex) -> Option<int> {
        if exists|i: int| 0 <= i < self.entries@.len() && self.entries@[i].0 == g {
            Some(choose|i: int| 0 <= i < self.entries@.len() && self.entries@[i].0 == g)
        } else {
            None
        }
    }

    /// No global identifier has two entries.
    pub closed spec fn wf(self) -> bool {
        forall|i: int, j: int|
            0 <= i < j < self.entries@.len() ==> self.entries@[i].0 != self.entries@[j].0
    }

    /// The map that this mapping stands for.
    pub closed spec fn view(self) -> Map<NodeIndex, IndexPair> {
        Map::new(
            |g: NodeIndex| self.position(g).is_some(),
            |g: NodeIndex| self.entries@[self.position(g).unwrap()].1,
        )
    }

    /// The number of entries.
    pub closed spec fn spec_len(self) -> nat {
        self.entries@.len()
    }

    /// The empty mapping.
    pub fn new() -> (r: Remap)
        ensures
            r.wf(),
            r@ == Map::<NodeIndex, IndexPair>::empty(),
            r.spec_len() == 0,
    {
        let r = Remap { entries: Vec::new() };
        assert(r@ =~= Map::<NodeIndex, IndexPair>::empty());
        r
    }

    /// The number of entries.
    pub fn len(&self) -> (n: usize)
        ensures
            n == self.spec_len(),
    {
        self.entries.len()
    }

    /// The entries of the mapping, as pairs of a global identifier and what it maps to.
    pub fn entries(&self) -> (e: Vec<(NodeIndex, IndexPair)>)
        requires
            self.wf(),
        ensures
            e@.len() == self.spec_len(),
            forall|g: NodeIndex| #[trigger]
                self@.dom().contains(g) <==> exists|j: int|
                    0 <= j < e@.len() && (#[trigger] e@[j]).0 == g,
            forall|j: int|
                0 <= j < e@.len() ==> self@.dom().contains((#[trigger] e@[j]).0) && self@[e@[j].0]
                    == e@[j].1,
    {
        let mut e: Vec<(NodeIndex, IndexPair)> = Vec::with_capacity(self.entries.len());
        let mut i: usize = 0;
        while i < self.entries.len()
            invariant
                i <= self.entries@.len(),
                e@ == self.entries@.take(i as int),
            decreases self.entries@.len() - i,
        {
            e.push((self.entries[i].0, self.entries[i].1));
            assert(e@ =~= self.entries@.take(i + 1));
            i += 1;
        }
        proof {
            assert(e@ =~= self.entries@);
            assert forall|j: int| 0 <= j < e@.len() implies self@.dom().contains(
                (#[trigger] e@[j]).0,
            ) && self@[e@[j].0] == e@[j].1 by {
                assert forall|a: int| 0 <= a < j implies self.entries@[a].0
                    != self.entries@[j].0 by {
                    assert(self.entries@[a].0 != self.entries@[j].0);
                }
                self.lemma_position_of(j);
            }
            assert forall|g: NodeIndex| #[trigger] self@.dom().contains(g) implies exists|j: int|
                0 <= j < e@.len() && (#[trigger] e@[j]).0 == g by {
                let w = self.position(g).unwrap();
                assert(e@[w].0 == g);
            }
        }
        e
    }

    /// A mapping with the same entries.
    pub fn copy(&self) -> (r: Remap)
        requires
            self.wf(),
        ensures
            r.wf(),
            r@ == self@,
            r.spec_len() == self.spec_len(),
    {
        let mut entries: Vec<(NodeIndex, IndexPair)> = Vec::with_capacity(self.entries.len());
        let mut i: usize = 0;
        while i < self.entries.len()
            invariant
                i <= self.entries@.len(),
                entries@ == self.entries@.take(i as int),
            decreases self.entries@.len() - i,
        {
            entries.push((self.entries[i].0, self.entries[i].1));
            assert(entries@ =~= self.entries@.take(i + 1));
            i += 1;
        }
        assert(entries@ =~= self.entries@);
        let r = Remap { entries };
        assert(r.entries@ == self.entries@);
        assert(r@ =~= self@);
        r
    }

    /// The pair that the mapping holds for `g`.
    pub fn get(&self, g: NodeIndex) -> (p: Option<IndexPair>)
        requires
            self.wf(),
        ensures
            p.is_some() == self@.dom().contains(g),
            p.is_some() ==> p.unwrap() == self@[g],
    {
        let mut i: usize = 0;
        while i < self.entries.len()
            invariant
                self.wf(),
                i <= self.entries@.len(),
                forall|j: int| 0 <= j < i ==> self.entries@[j].0 != g,
            decreases self.entries@.len() - i,
        {
            if self.entries[i].0 == g {
                proof {
                    self.lemma_position_of(i as int);
                }
                return Some(self.entries[i].1);
            }
            i += 1;
        }
        None
    }

    /// Where entry `i` is the first for its identifier, `position` finds an entry with the
    /// same pair.
    proof fn lemma_position_of(self, i: int)
        requires
            0 <= i < self.entries@.len(),
            forall|j: int| 0 <= j < i ==> self.entries@[j].0 != self.entries@[i].0,
        ensures
            self.position(self.entries@[i].0).is_some(),
            self.wf() ==> self.position(self.entries@[i].0) == Some(i),
    {
        let g = self.entries@[i].0;
        let w = self.position(g).unwrap();
        assert(0 <= w < self.entries@.len() && self.entries@[w].0 == g);
        if self.wf() && w != i {
            if w < i {
                assert(self.entries@[w].0 != g);
            } else {
                assert(self.entries@[i].0 != self.entries@[w].0);
            }
        }
    }

    /// Sets the pair for `g`, and returns the pair that the mapping held for it before.
    pub fn insert(&mut self, g: NodeIndex, p: IndexPair) -> (previous: Option<IndexPair>)
        requires
            old(self).wf(),
        ensures
            final(self).wf(),
            final(self)@ == old(self)@.insert(g, p),
            previous.is_some() == old(self)@.dom().contains(g),
            previous.is_some() ==> previous.unwrap() == old(self)@[g],
            final(self).spec_len() == old(self).spec_len() + (if previous.is_some() {
                0nat
            } else {
                1nat
            }),
    {
        let mut i: usize = 0;
        while i < self.entries.len()
            invariant
                *self == *old(self),
                old(self).wf(),
                i <= self.entries@.len(),
                forall|j: int| 0 <= j < i ==> self.entries@[j].0 != g,
            decreases self.entries@.len() - i,
        {
            if self.entries[i].0 == g {
                let previous = self.entries[i].1;
                proof {
                    self.lemma_position_of(i as int);
                }
                self.entries[i] = (g, p);
                proof {
                    assert(final(self).wf()) by {
                        assert forall|a: int, b: int|
                            0 <= a < b < self.entries@.len() implies self.entries@[a].0
                            != self.entries@[b].0 by {
                            assert(old(self).entries@[a].0 != old(self).entries@[b].0);
                        }
                    }
                    assert forall|h: NodeIndex| self.position(h).is_some() == (h == g || old(
                        self,
                    ).position(h).is_some()) by {
                        if old(self).position(h).is_some() {
                            let w = old(self).position(h).unwrap();
                            assert(self.entries@[w].0 == h);
                        }
                        if self.position(h).is_some() {
                            let w = self.position(h).unwrap();
                            assert(old(self).entries@[w].0 == h);
                        }
                        if h == g {
                            assert(self.entries@[i as int].0 == g);
                        }
                    }
                    assert forall|h: NodeIndex| self.position(h).is_some() implies #[trigger] self@[h]
                        == old(self)@.insert(g, p)[h] by {
                        let w = self.position(h).unwrap();
                        assert(self.entries@[w].0 == h);
                        assert(old(self).entries@[w].0 == h);
                        let w0 = old(self).position(h).unwrap();
                        assert(old(self).entries@[w0].0 == h);
                        if w0 != w {
                            if w0 < w {
                                assert(old(self).entries@[w0].0 != old(self).entries@[w].0);
                            } else {
                                assert(old(self).entries@[w].0 != old(self).entries@[w0].0);
                            }
                        }
                        if h == g {
                            if w != i as int {
                                if w < i as int {
                                    assert(old(self).entries@[w].0 != old(self).entries@[i as int].0);
                                } else {
                                    assert(old(self).entries@[i as int].0 != old(self).entries@[w].0);
                                }
                            }
                        }
                    }
                    assert(self@ =~= old(self)@.insert(g, p));
                }
                return Some(previous);
            }
            i += 1;
        }
        self.entries.push((g, p));
        proof {
            let n = old(self).entries@.len() as int;
            assert(old(self).position(g).is_none()) by {
                if old(self).position(g).is_some() {
                    let w = old(self).position(g).unwrap();
                    assert(old(self).entries@[w].0 == g);
                }
            }
            assert(final(self).wf()) by {
                assert forall|a: int, b: int|
                    0 <= a < b < self.entries@.len() implies self.entries@[a].0
                    != self.entries@[b].0 by {
                    if b < n {
                        assert(old(self).entries@[a].0 != old(self).entries@[b].0);
                    }
                }
            }
            assert forall|h: NodeIndex| self.position(h).is_some() == (h == g || old(
                self,
            ).position(h).is_some()) by {
                if old(self).position(h).is_some() {
                    let w = old(self).position(h).unwrap();
                    assert(self.entries@[w].0 == h);
                }
                if self.position(h).is_some() {
                    let w = self.position(h).unwrap();
                    if w < n {
                        assert(old(self).entries@[w].0 == h);
                    }
                }
                if h == g {
                    assert(self.entries@[n].0 == g);
                }
            }
            assert forall|h: NodeIndex| self.position(h).is_some() implies #[trigger] self@[h]
                == old(self)@.insert(g, p)[h] by {
                let w = self.position(h).unwrap();
                assert(self.entries@[w].0 == h);
                if h != g {
                    assert(w < n);
                    assert(old(self).entries@[w].0 == h);
                    let w0 = old(self).position(h).unwrap();
                    assert(old(self).entries@[w0].0 == h);
                    if w0 != w {
                        if w0 < w {
                            assert(old(self).entries@[w0].0 != old(self).entries@[w].0);
                        } else {
                            assert(old(self).entries@[w].0 != old(self).entries@[w0].0);
                        }
                    }
                } else {
                    if w < n {
                        assert(old(self).entries@[w].0 == g);
                    }
                }
            }
            assert(self@ =~= old(self)@.insert(g, p));
        }
        None
    }
}

} // verus!
