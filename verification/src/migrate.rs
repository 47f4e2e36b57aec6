//! What a migration decides when it is committed: the local identifiers of the new nodes of
//! a domain, and which node stands in for a parent that lives in another domain.

use crate::addressing::{DomainIndex, IndexPair, LocalNodeIndex, NodeIndex, Remap};
use crate::assoc::{
    assoc_map, distinct_keys, has_key, index_of_key, lemma_assoc_absent, lemma_assoc_at,
    lemma_assoc_push, lemma_assoc_update,
};
use crate::flow::{FlowGraph, Node, NodeOperator};
use vstd::prelude::*;

verus! {

/// The mapping `m` with an entry for each of `nodes`: the node with the next local
/// identifiers from `start` on, in order.
pub open spec fn with_locals(m: Map<NodeIndex, IndexPair>, nodes: Seq<NodeIndex>, start: nat) -> Map<
    NodeIndex,
    IndexPair,
>
    decreases nodes.len(),
{
    if nodes.len() == 0 {
        m
    } else {
        let before = with_locals(m, nodes.drop_last(), start);
        before.insert(nodes.last(), local_pair(nodes.last(), start + nodes.len() - 1))
    }
}

/// Whether `p` pairs the node `n` with the local identifier that has the number `local`.
pub open spec fn is_local_pair(p: IndexPair, n: NodeIndex, local: int) -> bool {
    p.spec_global() == n && p.spec_local().is_some() && p.spec_local().unwrap().spec_id() == local
}

/// The pair of the node `n` with the local identifier that has the number `local`.
pub open spec fn local_pair(n: NodeIndex, local: int) -> IndexPair {
    choose|p: IndexPair| is_local_pair(p, n, local)
}

/// The pair of the node `n` with the local identifier `local`.
fn pair_of(n: NodeIndex, local: u32) -> (p: IndexPair)
    ensures
        p == local_pair(n, local as int),
        is_local_pair(p, n, local as int),
{
    let mut p = IndexPair::new(n);
    p.set_local(LocalNodeIndex::make(local));
    proof {
        let q = local_pair(n, local as int);
        assert(is_local_pair(p, n, local as int));
        assert(is_local_pair(q, n, local as int));
        LocalNodeIndex::lemma_id_injective(p.spec_local().unwrap(), q.spec_local().unwrap());
        IndexPair::lemma_ext(p, q);
    }
    p
}

/// Gives each of the new nodes `nodes` of a domain a local identifier: the numbers that
/// follow those of the nodes that the domain has, which are as many as `remap` has entries.
/// The pairs are entered into `remap` and handed back in the order of the nodes. Nothing is
/// done, and `None` is handed back, where the numbers would leave 32 bits.
pub fn assign_local_addresses(remap: &mut Remap, nodes: &Vec<NodeIndex>) -> (r: Option<
    Vec<IndexPair>,
>)
    requires
        old(remap).wf(),
    ensures
        final(remap).wf(),
        r.is_some() == (old(remap).spec_len() + nodes@.len() <= u32::MAX),
        r.is_none() ==> final(remap)@ == old(remap)@ && final(remap).spec_len() == old(remap).spec_len(),
        r.is_some() ==> {
            &&& final(remap)@ == with_locals(old(remap)@, nodes@, old(remap).spec_len())
            &&& r.unwrap()@.len() == nodes@.len()
            &&& forall|i: int|
                0 <= i < nodes@.len() ==> is_local_pair(
                    #[trigger] r.unwrap()@[i],
                    nodes@[i],
                    old(remap).spec_len() + i,
                )
        },
{
    let start: usize = remap.len();
    if start > u32::MAX as usize || nodes.len() > u32::MAX as usize - start {
        return None;
    }
    let mut out: Vec<IndexPair> = Vec::with_capacity(nodes.len());
    let mut i: usize = 0;
    proof {
        assert(nodes@.take(0) =~= Seq::<NodeIndex>::empty());
    }
    while i < nodes.len()
        invariant
            i <= nodes@.len(),
            start == old(remap).spec_len(),
            start + nodes@.len() <= u32::MAX,
            remap.wf(),
            remap@ == with_locals(old(remap)@, nodes@.take(i as int), start as nat),
            out@.len() == i,
            forall|j: int|
                0 <= j < i ==> is_local_pair(#[trigger] out@[j], nodes@[j], start + j),
        decreases nodes@.len() - i,
    {
        proof {
            assert(nodes@.take(i + 1).drop_last() =~= nodes@.take(i as int));
            assert(nodes@.take(i + 1).last() == nodes@[i as int]);
        }
        let p = pair_of(nodes[i], (start + i) as u32);
        remap.insert(nodes[i], p);
        out.push(p);
        i += 1;
    }
    proof {
        assert(nodes@.take(nodes@.len() as int) =~= nodes@);
    }
    Some(out)
}

/// A parent that was exchanged: for the node `dst`, the node `instead` stands in for its
/// parent `src`.
#[derive(Clone, Copy, Debug, PartialEq, Eq, Structural)]
pub struct Swap {
    /// The node whose parent was exchanged.
    pub dst: NodeIndex,
    /// The parent that it had.
    pub src: NodeIndex,
    /// The node that stands in for the parent.
    pub instead: NodeIndex,
}

/// What one exchange makes of the exchanges `m` that are known, where `edge` says whether
/// the graph has an edge from the exchanged parent to the node that stands in: an exchange
/// for a node and parent that have none is entered; one that differs from the one that is
/// known takes its place unless the graph has that edge, which says that the known one is
/// nearer to the node; and wherever the exchanged parent itself stands in for another, the
/// node that stands in for it now does.
pub open spec fn swap_step(
    m: Map<(NodeIndex, NodeIndex), NodeIndex>,
    s: Swap,
    edge: bool,
) -> Map<(NodeIndex, NodeIndex), NodeIndex> {
    let k = (s.dst, s.src);
    let entered = if m.dom().contains(k) && (m[k] == s.instead || edge) {
        m
    } else {
        m.insert(k, s.instead)
    };
    entered.map_values(
        |v: NodeIndex|
            if v == s.src {
                s.instead
            } else {
                v
            },
    )
}

/// What the exchanges `more`, one after the other, make of the exchanges `m`.
pub open spec fn swaps_merged(
    m: Map<(NodeIndex, NodeIndex), NodeIndex>,
    more: Seq<Swap>,
    edges: Seq<(usize, usize)>,
) -> Map<(NodeIndex, NodeIndex), NodeIndex>
    decreases more.len(),
{
    if more.len() == 0 {
        m
    } else {
        swap_step(
            swaps_merged(m, more.drop_last(), edges),
            more.last(),
            edges.contains((more.last().src.0, more.last().instead.0)),
        )
    }
}

/// The exchanges of parents that a migration has made, by node and parent.
#[derive(Debug)]
pub struct Swaps {
    entries: Vec<Swap>,
}

impl Swaps {
    /// The exchanges as a list of pairs.
    pub closed spec fn pairs(self) -> Seq<((NodeIndex, NodeIndex), NodeIndex)> {
        Seq::new(
            self.entries@.len(),
            |i: int| ((self.entries@[i].dst, self.entries@[i].src), self.entries@[i].instead),
        )
    }

    /// The exchanges as a map: for a node and its parent, the node that stands in.
    pub closed spec fn view(self) -> Map<(NodeIndex, NodeIndex), NodeIndex> {
        assoc_map(self.pairs())
    }

    /// No node and parent have two exchanges.
    pub closed spec fn wf(self) -> bool {
        distinct_keys(self.pairs())
    }

    /// No exchanges.
    pub fn new() -> (s: Swaps)
        ensures
            s.wf(),
            s@ == Map::<(NodeIndex, NodeIndex), NodeIndex>::empty(),
    {
        let s = Swaps { entries: Vec::new() };
        proof {
            crate::assoc::lemma_assoc_empty::<(NodeIndex, NodeIndex), NodeIndex>();
            assert(s.pairs() =~= Seq::<((NodeIndex, NodeIndex), NodeIndex)>::empty());
        }
        s
    }

    fn find(&self, dst: NodeIndex, src: NodeIndex) -> (r: Option<usize>)
        requires
            self.wf(),
        ensures
            r.is_some() == self@.dom().contains((dst, src)),
            r.is_some() ==> r.unwrap() < self.entries@.len() && self.pairs()[r.unwrap() as int].0
                == (dst, src) && self@[(dst, src)] == self.pairs()[r.unwrap() as int].1,
    {
        let mut i: usize = 0;
        while i < self.entries.len()
            invariant
                self.wf(),
                i <= self.entries@.len(),
                forall|j: int| 0 <= j < i ==> (#[trigger] self.pairs()[j]).0 != (dst, src),
            decreases self.entries@.len() - i,
        {
            if self.entries[i].dst == dst && self.entries[i].src == src {
                proof {
                    lemma_assoc_at(self.pairs(), i as int);
                }
                return Some(i);
            }
            i += 1;
        }
        proof {
            lemma_assoc_absent(self.pairs(), (dst, src));
        }
        None
    }

    /// The node that stands in for the parent `src` of `dst`, if the parent was exchanged.
    pub fn get(&self, dst: NodeIndex, src: NodeIndex) -> (r: Option<NodeIndex>)
        requires
            self.wf(),
        ensures
            r.is_some() == self@.dom().contains((dst, src)),
            r.is_some() ==> r.unwrap() == self@[(dst, src)],
    {
        match self.find(dst, src) {
            Some(i) => Some(self.entries[i].instead),
            None => None,
        }
    }

    /// Takes in one exchange, where `edge` says whether the graph has an edge from the
    /// exchanged parent to the node that stands in.
    pub fn merge_one(&mut self, s: Swap, edge: bool)
        requires
            old(self).wf(),
        ensures
            final(self).wf(),
            final(self)@ == swap_step(old(self)@, s, edge),
    {
        let ghost start = self@;
        match self.find(s.dst, s.src) {
            Some(i) => {
                if self.entries[i].instead != s.instead && !edge {
                    let ghost before = self.pairs();
                    self.entries[i].instead = s.instead;
                    proof {
                        assert(self.pairs() =~= before.update(
                            i as int,
                            (before[i as int].0, s.instead),
                        ));
                        lemma_assoc_update(before, i as int, s.instead);
                    }
                }
            },
            None => {
                let ghost before = self.pairs();
                self.entries.push(s);
                proof {
                    assert(self.pairs() =~= before.push(((s.dst, s.src), s.instead)));
                    lemma_assoc_push(before, (s.dst, s.src), s.instead);
                }
            },
        }
        let ghost entered = self@;
        let ghost entered_pairs = self.pairs();
        let mut j: usize = 0;
        while j < self.entries.len()
            invariant
                j <= self.entries@.len(),
                self.entries@.len() == entered_pairs.len(),
                distinct_keys(entered_pairs),
                entered == assoc_map(entered_pairs),
                forall|h: int|
                    0 <= h < self.entries@.len() ==> (#[trigger] self.pairs()[h]).0
                        == entered_pairs[h].0,
                forall|h: int|
                    0 <= h < j ==> (#[trigger] self.pairs()[h]).1 == (if entered_pairs[h].1
                        == s.src {
                        s.instead
                    } else {
                        entered_pairs[h].1
                    }),
                forall|h: int|
                    j <= h < self.entries@.len() ==> (#[trigger] self.pairs()[h]).1
                        == entered_pairs[h].1,
            decreases self.entries@.len() - j,
        {
            let ghost prev = self.pairs();
            if self.entries[j].instead == s.src {
                self.entries[j].instead = s.instead;
            }
            proof {
                assert forall|h: int| 0 <= h < self.entries@.len() implies (
                #[trigger] self.pairs()[h]).0 == entered_pairs[h].0 by {
                    assert(self.pairs()[h].0 == prev[h].0);
                }
                assert forall|h: int| 0 <= h < j + 1 implies (#[trigger] self.pairs()[h]).1 == (
                if entered_pairs[h].1 == s.src {
                    s.instead
                } else {
                    entered_pairs[h].1
                }) by {
                    if h < j {
                        assert(self.pairs()[h].1 == prev[h].1);
                    } else {
                        assert(prev[h].1 == entered_pairs[h].1);
                    }
                }
                assert forall|h: int| j + 1 <= h < self.entries@.len() implies (
                #[trigger] self.pairs()[h]).1 == entered_pairs[h].1 by {
                    assert(self.pairs()[h].1 == prev[h].1);
                }
            }
            j += 1;
        }
        proof {
            let after = self.pairs();
            assert(distinct_keys(after)) by {
                assert forall|a: int, b: int| 0 <= a < b < after.len() implies (
                #[trigger] after[a]).0 != (#[trigger] after[b]).0 by {
                    assert(entered_pairs[a].0 != entered_pairs[b].0);
                }
            }
            let f = |v: NodeIndex|
                if v == s.src {
                    s.instead
                } else {
                    v
                };
            assert forall|k: (NodeIndex, NodeIndex)| has_key(after, k) == has_key(
                entered_pairs,
                k,
            ) by {
                if has_key(after, k) {
                    let w = index_of_key(after, k);
                    assert(entered_pairs[w].0 == k);
                }
                if has_key(entered_pairs, k) {
                    let w = index_of_key(entered_pairs, k);
                    assert(after[w].0 == k);
                }
            }
            assert forall|k: (NodeIndex, NodeIndex)| has_key(after, k) implies #[trigger] assoc_map(
                after,
            )[k] == f(entered[k]) by {
                let w = index_of_key(after, k);
                lemma_assoc_at(after, w);
                assert(entered_pairs[w].0 == k);
                lemma_assoc_at(entered_pairs, w);
            }
            assert(assoc_map(after) =~= entered.map_values(f));
        }
    }

    /// Takes in the exchanges `more`, one after the other; the graph says which of two
    /// exchanges for the same node and parent is the nearer to the node.
    pub fn merge(&mut self, more: &Vec<Swap>, graph: &FlowGraph)
        requires
            old(self).wf(),
            graph.wf(),
        ensures
            final(self).wf(),
            final(self)@ == swaps_merged(old(self)@, more@, graph.edges()),
    {
        let mut i: usize = 0;
        proof {
            assert(more@.take(0) =~= Seq::<Swap>::empty());
        }
        while i < more.len()
            invariant
                i <= more@.len(),
                graph.wf(),
                self.wf(),
                self@ == swaps_merged(old(self)@, more@.take(i as int), graph.edges()),
            decreases more@.len() - i,
        {
            proof {
                assert(more@.take(i + 1).drop_last() =~= more@.take(i as int));
                assert(more@.take(i + 1).last() == more@[i as int]);
            }
            let s = more[i];
            let edge: bool = graph.has_edge(s.src, s.instead);
            self.merge_one(s, edge);
            i += 1;
        }
        proof {
            assert(more@.take(more@.len() as int) =~= more@);
        }
    }

    /// Whether the exchanges `swaps` can be entered into the mapping `m` for the node `ni`:
    /// every node that stands in for a parent of `ni` has a pair in `m`, and no parent that
    /// was exchanged has one.
    pub open spec fn enterable(
        swaps: Map<(NodeIndex, NodeIndex), NodeIndex>,
        m: Map<NodeIndex, IndexPair>,
        ni: NodeIndex,
    ) -> bool {
        forall|g: NodeIndex| #[trigger]
            swaps.dom().contains((ni, g)) ==> m.dom().contains(swaps[(ni, g)])
                && !m.dom().contains(g)
    }

    /// The mapping `m` with the exchanges `swaps` entered for the node `ni`: every parent of
    /// `ni` that was exchanged leads to the pair of the node that stands in for it.
    pub open spec fn entered(
        swaps: Map<(NodeIndex, NodeIndex), NodeIndex>,
        m: Map<NodeIndex, IndexPair>,
        ni: NodeIndex,
    ) -> Map<NodeIndex, IndexPair> {
        Map::new(
            |g: NodeIndex| m.dom().contains(g) || swaps.dom().contains((ni, g)),
            |g: NodeIndex|
                if swaps.dom().contains((ni, g)) {
                    m[swaps[(ni, g)]]
                } else {
                    m[g]
                },
        )
    }

    /// The mapping that the node `ni` of a domain is committed with: the mapping `remap` of
    /// its domain, in which every parent of the node that was exchanged leads to the pair of
    /// the node that stands in. `None` where a node that stands in has no pair in the
    /// domain's mapping, or where a parent that was exchanged has a pair of its own there.
    pub fn remap_for(&self, remap: &Remap, ni: NodeIndex) -> (r: Option<Remap>)
        requires
            self.wf(),
            remap.wf(),
        ensures
            r.is_some() == Self::enterable(self@, remap@, ni),
            r.is_some() ==> r.unwrap().wf() && r.unwrap()@ == Self::entered(self@, remap@, ni),
    {
        let mut out = Remap::new();
        let mut i: usize = 0;
        // the mapping of the domain
        let pairs = remap.entries();
        while i < pairs.len()
            invariant
                i <= pairs@.len(),
                out.wf(),
                remap.wf(),
                pairs@.len() == remap.spec_len(),
                forall|g: NodeIndex| #[trigger]
                    remap@.dom().contains(g) <==> exists|j: int|
                        0 <= j < pairs@.len() && (#[trigger] pairs@[j]).0 == g,
                forall|j: int|
                    0 <= j < pairs@.len() ==> remap@.dom().contains((#[trigger] pairs@[j]).0)
                        && remap@[pairs@[j].0] == pairs@[j].1,
                forall|g: NodeIndex| #[trigger]
                    out@.dom().contains(g) <==> exists|j: int|
                        0 <= j < i && (#[trigger] pairs@[j]).0 == g,
                forall|g: NodeIndex| #[trigger] out@.dom().contains(g) ==> out@[g] == remap@[g],
            decreases pairs@.len() - i,
        {
            let ghost before = out@;
            out.insert(pairs[i].0, pairs[i].1);
            proof {
                assert forall|g: NodeIndex| #[trigger] out@.dom().contains(g) <==> exists|j: int|
                    0 <= j < i + 1 && (#[trigger] pairs@[j]).0 == g by {
                    if before.dom().contains(g) {
                        let j = choose|j: int| 0 <= j < i && (#[trigger] pairs@[j]).0 == g;
                        assert(pairs@[j].0 == g);
                    }
                    if g == pairs@[i as int].0 {
                        assert(pairs@[i as int].0 == g);
                    }
                    if exists|j: int| 0 <= j < i + 1 && (#[trigger] pairs@[j]).0 == g {
                        let j = choose|j: int| 0 <= j < i + 1 && (#[trigger] pairs@[j]).0 == g;
                        if j < i {
                            assert(before.dom().contains(g));
                        }
                    }
                }
            }
            i += 1;
        }
        proof {
            assert(out@ =~= remap@) by {
                assert forall|g: NodeIndex| out@.dom().contains(g) == remap@.dom().contains(
                    g,
                ) by {
                    if remap@.dom().contains(g) {
                        let j = choose|j: int|
                            0 <= j < pairs@.len() && (#[trigger] pairs@[j]).0 == g;
                        assert(pairs@[j].0 == g);
                    }
                    if out@.dom().contains(g) {
                        let j = choose|j: int| 0 <= j < i && (#[trigger] pairs@[j]).0 == g;
                        assert(remap@.dom().contains(pairs@[j].0));
                    }
                }
            }
            crate::assoc::lemma_assoc_empty::<(NodeIndex, NodeIndex), NodeIndex>();
            assert(self.pairs().take(0) =~= Seq::<((NodeIndex, NodeIndex), NodeIndex)>::empty());
            assert(out@ =~= Self::entered(assoc_map(self.pairs().take(0)), remap@, ni));
        }
        let ghost all = self.pairs();
        let mut e: usize = 0;
        while e < self.entries.len()
            invariant
                e <= self.entries@.len(),
                all == self.pairs(),
                distinct_keys(all),
                out.wf(),
                remap.wf(),
                Self::enterable(assoc_map(all.take(e as int)), remap@, ni),
                out@ == Self::entered(assoc_map(all.take(e as int)), remap@, ni),
            decreases self.entries@.len() - e,
        {
            let s = self.entries[e];
            let ghost before = assoc_map(all.take(e as int));
            proof {
                let t = all.take(e as int);
                assert(distinct_keys(t)) by {
                    assert forall|a: int, b: int| 0 <= a < b < t.len() implies (#[trigger] t[a]).0
                        != (#[trigger] t[b]).0 by {
                        assert(all[a].0 != all[b].0);
                    }
                }
                assert(!has_key(t, (s.dst, s.src))) by {
                    if has_key(t, (s.dst, s.src)) {
                        let w = index_of_key(t, (s.dst, s.src));
                        assert(all[w].0 != all[e as int].0);
                    }
                }
                lemma_assoc_push(t, (s.dst, s.src), s.instead);
                assert(all.take(e + 1) =~= t.push(((s.dst, s.src), s.instead)));
            }
            let ghost after = assoc_map(all.take(e + 1));
            if s.dst == ni {
                let instead = match remap.get(s.instead) {
                    Some(p) => p,
                    None => {
                        proof {
                            self.lemma_take_of_all(e + 1);
                            assert(after.dom().contains((ni, s.src)));
                            assert(after[(ni, s.src)] == s.instead);
                            assert(self@.dom().contains((ni, s.src)));
                        }
                        return None;
                    },
                };
                if remap.get(s.src).is_some() {
                    proof {
                        self.lemma_take_of_all(e + 1);
                        assert(after.dom().contains((ni, s.src)));
                        assert(self@.dom().contains((ni, s.src)));
                    }
                    return None;
                }
                out.insert(s.src, instead);
                proof {
                    assert(out@ =~= Self::entered(after, remap@, ni));
                }
            } else {
                proof {
                    assert(out@ =~= Self::entered(after, remap@, ni));
                }
            }
            e += 1;
        }
        proof {
            assert(all.take(self.entries@.len() as int) =~= all);
        }
        Some(out)
    }

    /// What the first `n` exchanges hold, all the exchanges hold too.
    proof fn lemma_take_of_all(self, n: int)
        requires
            self.wf(),
            0 <= n <= self.pairs().len(),
        ensures
            forall|k: (NodeIndex, NodeIndex)| #[trigger]
                assoc_map(self.pairs().take(n)).dom().contains(k) ==> self@.dom().contains(k)
                    && self@[k] == assoc_map(self.pairs().take(n))[k],
    {
        let all = self.pairs();
        let t = all.take(n);
        assert(distinct_keys(t)) by {
            assert forall|a: int, b: int| 0 <= a < b < t.len() implies (#[trigger] t[a]).0 != (
            #[trigger] t[b]).0 by {
                assert(all[a].0 != all[b].0);
            }
        }
        assert forall|k: (NodeIndex, NodeIndex)| #[trigger]
            assoc_map(t).dom().contains(k) implies self@.dom().contains(k) && self@[k]
            == assoc_map(t)[k] by {
            let w = index_of_key(t, k);
            lemma_assoc_at(t, w);
            assert(all[w].0 == k);
            lemma_assoc_at(all, w);
        }
    }
}

/// Why the new nodes of a domain cannot be made ready.
#[derive(Clone, Copy, Debug, PartialEq, Eq, Structural)]
pub enum CommitError {
    /// The domain would have more nodes than local identifiers.
    Full,
    /// For the node `node`, a node that stands in for a parent has no local identifier in
    /// the domain, or a parent that was exchanged has one.
    Unresolved { node: NodeIndex },
    /// The node `node` has no domain yet, or, where its columns were changed, no local
    /// identifier.
    Unplaced { node: NodeIndex },
}

/// Whether `after` is the operator `before` committed with the mapping `m`: it does the same
/// work, and names each parent by the pair that `m` holds for it, where `m` holds one.
pub open spec fn committed(before: NodeOperator, after: NodeOperator, m: Map<NodeIndex, IndexPair>) -> bool {
    &&& after.works_as(before)
    &&& after.sources().len() == before.sources().len()
    &&& forall|i: int|
        0 <= i < before.sources().len() ==> #[trigger] after.sources()[i] == NodeOperator::moved(
            before.sources()[i],
            m,
        )
}

/// Whether the operator is one that is committed with a mapping: a relational operator, not
/// a seam, a root or a reader.
pub open spec fn internal(o: NodeOperator) -> bool {
    !(o is Source || o is Ingress || o is Egress || o is Sharder || o is Reader)
}

/// Whether `mapping` is what the operator `o` of the node `node` is committed with, given
/// the mapping `all` of its domain: the mapping with the exchanges entered, or nothing where
/// the operator is not committed with one.
pub open spec fn prepared(
    swaps: Map<(NodeIndex, NodeIndex), NodeIndex>,
    all: Map<NodeIndex, IndexPair>,
    node: NodeIndex,
    o: NodeOperator,
    mapping: Option<Remap>,
) -> bool {
    if internal(o) {
        &&& Swaps::enterable(swaps, all, node)
        &&& mapping.is_some()
        &&& mapping.unwrap().wf()
        &&& mapping.unwrap()@ == Swaps::entered(swaps, all, node)
    } else {
        mapping.is_none()
    }
}

/// Makes the new nodes `nodes` of one domain ready, whose operators are `operators`, in the
/// same order. Each node gets the next local identifier of the domain, which is entered into
/// `remap`, the mapping of the domain. Then each relational operator among them is committed
/// with the mapping of the domain, in which those of its parents that were exchanged lead to
/// the nodes that stand in for them. The pairs of the nodes are handed back.
///
/// Nothing is done where the domain has no identifiers left. Where an exchange cannot be
/// entered for one of the nodes, the first such node is named; the identifiers are assigned
/// then, and no operator is changed.
pub fn initialize(
    remap: &mut Remap,
    swaps: &Swaps,
    nodes: &Vec<NodeIndex>,
    operators: &mut Vec<NodeOperator>,
) -> (r: Result<Vec<IndexPair>, CommitError>)
    requires
        old(remap).wf(),
        swaps.wf(),
        nodes@.len() == old(operators)@.len(),
    ensures
        final(remap).wf(),
        final(operators)@.len() == old(operators)@.len(),
        ({
            let fits = old(remap).spec_len() + nodes@.len() <= u32::MAX;
            let all = with_locals(old(remap)@, nodes@, old(remap).spec_len());
            match r {
                Err(CommitError::Full) => {
                    &&& !fits
                    &&& final(remap)@ == old(remap)@
                    &&& final(operators)@ == old(operators)@
                },
                Err(CommitError::Unresolved { node }) => {
                    &&& fits
                    &&& final(remap)@ == all
                    &&& final(operators)@ == old(operators)@
                    &&& exists|i: int|
                        0 <= i < nodes@.len() && #[trigger] nodes@[i] == node && internal(
                            old(operators)@[i],
                        ) && !Swaps::enterable(swaps@, all, node) && forall|j: int|
                            0 <= j < i && internal(old(operators)@[j]) ==> Swaps::enterable(
                                swaps@,
                                all,
                                #[trigger] nodes@[j],
                            )
                },
                Err(CommitError::Unplaced { .. }) => false,
                Ok(pairs) => {
                    &&& fits
                    &&& final(remap)@ == all
                    &&& pairs@.len() == nodes@.len()
                    &&& forall|i: int|
                        0 <= i < nodes@.len() ==> is_local_pair(
                            #[trigger] pairs@[i],
                            nodes@[i],
                            old(remap).spec_len() + i,
                        )
                    &&& forall|i: int|
                        0 <= i < nodes@.len() && internal(old(operators)@[i])
                            ==> Swaps::enterable(swaps@, all, #[trigger] nodes@[i])
                    &&& forall|i: int|
                        0 <= i < nodes@.len() ==> if internal(old(operators)@[i]) {
                            committed(
                                old(operators)@[i],
                                #[trigger] final(operators)@[i],
                                Swaps::entered(swaps@, all, nodes@[i]),
                            )
                        } else {
                            final(operators)@[i] == old(operators)@[i]
                        }
                },
            }
        }),
{
    let pairs = match assign_local_addresses(remap, nodes) {
        Some(pairs) => pairs,
        None => {
            return Err(CommitError::Full);
        },
    };
    let ghost all = remap@;
    let mut mappings: Vec<Option<Remap>> = Vec::new();
    let mut i: usize = 0;
    while i < nodes.len()
        invariant
            i <= nodes@.len(),
            nodes@.len() == operators@.len(),
            operators@ == old(operators)@,
            old(remap).spec_len() + nodes@.len() <= u32::MAX,
            all == with_locals(old(remap)@, nodes@, old(remap).spec_len()),
            pairs@.len() == nodes@.len(),
            forall|j: int|
                0 <= j < nodes@.len() ==> is_local_pair(
                    #[trigger] pairs@[j],
                    nodes@[j],
                    old(remap).spec_len() + j,
                ),
            remap.wf(),
            remap@ == all,
            swaps.wf(),
            mappings@.len() == i,
            forall|j: int|
                0 <= j < i ==> prepared(
                    swaps@,
                    all,
                    nodes@[j],
                    operators@[j],
                    #[trigger] mappings@[j],
                ),
        decreases nodes@.len() - i,
    {
        let inner: bool = operators[i].is_internal();
        assert(inner == internal(operators@[i as int]));
        if inner {
            match swaps.remap_for(remap, nodes[i]) {
                Some(m) => {
                    assert(Swaps::enterable(swaps@, all, nodes@[i as int]));
                    assert(m@ == Swaps::entered(swaps@, all, nodes@[i as int]));
                    mappings.push(Some(m));
                    assert(mappings@[i as int] == Some(m));
                },
                None => {
                    proof {
                        assert(nodes@[i as int] == nodes[i as int]);
                        assert forall|j: int|
                            0 <= j < i && internal(operators@[j]) implies Swaps::enterable(
                            swaps@,
                            all,
                            #[trigger] nodes@[j],
                        ) by {
                            assert(prepared(swaps@, all, nodes@[j], operators@[j], mappings@[j]));
                        }
                    }
                    return Err(CommitError::Unresolved { node: nodes[i] });
                },
            }
        } else {
            mappings.push(None);
        }
        i += 1;
    }
    let mut k: usize = 0;
    while k < nodes.len()
        invariant
            k <= nodes@.len(),
            remap.wf(),
            remap@ == all,
            nodes@.len() == operators@.len(),
            old(remap).spec_len() + nodes@.len() <= u32::MAX,
            all == with_locals(old(remap)@, nodes@, old(remap).spec_len()),
            pairs@.len() == nodes@.len(),
            forall|j: int|
                0 <= j < nodes@.len() ==> is_local_pair(
                    #[trigger] pairs@[j],
                    nodes@[j],
                    old(remap).spec_len() + j,
                ),
            operators@.len() == old(operators)@.len(),
            mappings@.len() == nodes@.len(),
            forall|j: int|
                0 <= j < nodes@.len() ==> prepared(
                    swaps@,
                    all,
                    nodes@[j],
                    old(operators)@[j],
                    #[trigger] mappings@[j],
                ),
            forall|j: int| k <= j < nodes@.len() ==> operators@[j] == old(operators)@[j],
            forall|j: int|
                0 <= j < k ==> if internal(old(operators)@[j]) {
                    committed(
                        old(operators)@[j],
                        #[trigger] operators@[j],
                        Swaps::entered(swaps@, all, nodes@[j]),
                    )
                } else {
                    operators@[j] == old(operators)@[j]
                },
        decreases nodes@.len() - k,
    {
        assert(nodes@[k as int] == nodes[k as int]);
        match &mappings[k] {
            Some(m) => {
                operators[k].on_commit(nodes[k], m);
            },
            None => {},
        }
        k += 1;
    }
    proof {
        assert forall|j: int|
            0 <= j < nodes@.len() && internal(old(operators)@[j]) implies Swaps::enterable(
            swaps@,
            all,
            #[trigger] nodes@[j],
        ) by {
            assert(prepared(swaps@, all, nodes@[j], old(operators)@[j], mappings@[j]));
        }
    }
    Ok(pairs)
}

/// Whether the node `after` is the node `before` but for its address and its operator.
pub open spec fn same_but_commit(before: Node, after: Node) -> bool {
    &&& after.name == before.name
    &&& after.fields == before.fields
    &&& after.domain == before.domain
    &&& after.sharded_by == before.sharded_by
    &&& after.transactional == before.transactional
    &&& after.parents == before.parents
    &&& after.origins == before.origins
}

/// Whether the new nodes `nodes` of one domain are made ready in the graph `after`, which
/// was `before`: the domain had `count` nodes and the mapping `m`; each new node has got
/// the next local identifier, in order; and each relational operator among them is
/// committed with the mapping of the domain as it is then, with the exchanges of its
/// parents entered. Nothing else of the nodes has changed.
pub open spec fn group_done(
    before: Seq<Node>,
    after: Seq<Node>,
    swaps: Map<(NodeIndex, NodeIndex), NodeIndex>,
    m: Map<NodeIndex, IndexPair>,
    count: nat,
    nodes: Seq<NodeIndex>,
) -> bool {
    let all = with_locals(m, nodes, count);
    &&& count + nodes.len() <= u32::MAX
    &&& forall|i: int|
        0 <= i < nodes.len() ==> {
            let b = before[(#[trigger] nodes[i]).0 as int];
            let a = after[nodes[i].0 as int];
            &&& same_but_commit(b, a)
            &&& is_local_pair(a.address, nodes[i], count + i)
            &&& if internal(b.operator) {
                Swaps::enterable(swaps, all, nodes[i]) && committed(
                    b.operator,
                    a.operator,
                    Swaps::entered(swaps, all, nodes[i]),
                )
            } else {
                a.operator == b.operator
            }
        }
}

/// Whether `e` is why the new nodes `nodes` of one domain cannot be made ready in the
/// graph `before`: the domain, which has `count` nodes and the mapping `m`, has no
/// identifiers left for them; or an exchange cannot be entered for a node, the first such.
pub open spec fn group_refused(
    before: Seq<Node>,
    swaps: Map<(NodeIndex, NodeIndex), NodeIndex>,
    m: Map<NodeIndex, IndexPair>,
    count: nat,
    nodes: Seq<NodeIndex>,
    e: CommitError,
) -> bool {
    let all = with_locals(m, nodes, count);
    match e {
        CommitError::Full => count + nodes.len() > u32::MAX,
        CommitError::Unresolved { node } => count + nodes.len() <= u32::MAX && exists|i: int|
            0 <= i < nodes.len() && #[trigger] nodes[i] == node && internal(
                before[nodes[i].0 as int].operator,
            ) && !Swaps::enterable(swaps, all, node) && forall|j: int|
                0 <= j < i && internal(before[nodes[j].0 as int].operator)
                    ==> Swaps::enterable(swaps, all, #[trigger] nodes[j]),
        CommitError::Unplaced { .. } => false,
    }
}

/// A group that is made ready in a graph is made ready from any graph that holds its nodes
/// as that graph held them.
pub proof fn lemma_done_same(
    before: Seq<Node>,
    other: Seq<Node>,
    after: Seq<Node>,
    swaps: Map<(NodeIndex, NodeIndex), NodeIndex>,
    m: Map<NodeIndex, IndexPair>,
    count: nat,
    nodes: Seq<NodeIndex>,
)
    requires
        group_done(before, after, swaps, m, count, nodes),
        forall|i: int|
            0 <= i < nodes.len() ==> before[(#[trigger] nodes[i]).0 as int] == other[nodes[i].0 as int],
    ensures
        group_done(other, after, swaps, m, count, nodes),
{
    assert forall|i: int| 0 <= i < nodes.len() implies {
        let b = other[(#[trigger] nodes[i]).0 as int];
        let a = after[nodes[i].0 as int];
        &&& same_but_commit(b, a)
        &&& is_local_pair(a.address, nodes[i], count + i)
        &&& if internal(b.operator) {
            Swaps::enterable(swaps, with_locals(m, nodes, count), nodes[i]) && committed(
                b.operator,
                a.operator,
                Swaps::entered(swaps, with_locals(m, nodes, count), nodes[i]),
            )
        } else {
            a.operator == b.operator
        }
    } by {
        assert(before[nodes[i].0 as int] == other[nodes[i].0 as int]);
    }
}

/// A group that is made ready in a graph stays so in any graph that holds its nodes as
/// that graph holds them.
pub proof fn lemma_done_kept(
    before: Seq<Node>,
    after: Seq<Node>,
    later: Seq<Node>,
    swaps: Map<(NodeIndex, NodeIndex), NodeIndex>,
    m: Map<NodeIndex, IndexPair>,
    count: nat,
    nodes: Seq<NodeIndex>,
)
    requires
        group_done(before, after, swaps, m, count, nodes),
        forall|i: int|
            0 <= i < nodes.len() ==> later[(#[trigger] nodes[i]).0 as int] == after[nodes[i].0 as int],
    ensures
        group_done(before, later, swaps, m, count, nodes),
{
    assert forall|i: int| 0 <= i < nodes.len() implies {
        let b = before[(#[trigger] nodes[i]).0 as int];
        let a = later[nodes[i].0 as int];
        &&& same_but_commit(b, a)
        &&& is_local_pair(a.address, nodes[i], count + i)
        &&& if internal(b.operator) {
            Swaps::enterable(swaps, with_locals(m, nodes, count), nodes[i]) && committed(
                b.operator,
                a.operator,
                Swaps::entered(swaps, with_locals(m, nodes, count), nodes[i]),
            )
        } else {
            a.operator == b.operator
        }
    } by {
        assert(later[nodes[i].0 as int] == after[nodes[i].0 as int]);
    }
}

/// A group that cannot be made ready in a graph cannot be made ready, for the same reason,
/// in any graph that holds its nodes as that graph holds them.
pub proof fn lemma_refused_same(
    before: Seq<Node>,
    other: Seq<Node>,
    swaps: Map<(NodeIndex, NodeIndex), NodeIndex>,
    m: Map<NodeIndex, IndexPair>,
    count: nat,
    nodes: Seq<NodeIndex>,
    e: CommitError,
)
    requires
        group_refused(before, swaps, m, count, nodes, e),
        forall|i: int|
            0 <= i < nodes.len() ==> before[(#[trigger] nodes[i]).0 as int] == other[nodes[i].0 as int],
    ensures
        group_refused(other, swaps, m, count, nodes, e),
{
    let all = with_locals(m, nodes, count);
    match e {
        CommitError::Unresolved { node } => {
            let i = choose|i: int|
                0 <= i < nodes.len() && #[trigger] nodes[i] == node && internal(
                    before[nodes[i].0 as int].operator,
                ) && !Swaps::enterable(swaps, all, node) && forall|j: int|
                    0 <= j < i && internal(before[nodes[j].0 as int].operator)
                        ==> Swaps::enterable(swaps, all, #[trigger] nodes[j]);
            assert(before[nodes[i].0 as int] == other[nodes[i].0 as int]);
            assert forall|j: int|
                0 <= j < i && internal(other[nodes[j].0 as int].operator) implies Swaps::enterable(
                swaps,
                all,
                #[trigger] nodes[j],
            ) by {
                assert(before[nodes[j].0 as int] == other[nodes[j].0 as int]);
            }
        },
        _ => {},
    }
}

/// Whether the node with the number `t` is one of `nodes`.
pub open spec fn names(nodes: Seq<NodeIndex>, t: int) -> bool {
    exists|j: int| 0 <= j < nodes.len() && (#[trigger] nodes[j]).0 == t
}

/// Whether no node occurs twice in `nodes`, and each is a node of a graph with `len`
/// nodes other than the root.
pub open spec fn distinct_nodes(nodes: Seq<NodeIndex>, len: nat) -> bool {
    &&& forall|i: int| 0 <= i < nodes.len() ==> 0 < (#[trigger] nodes[i]).0 < len
    &&& forall|i: int, j: int|
        0 <= i < j < nodes.len() ==> (#[trigger] nodes[i]) != (#[trigger] nodes[j])
}

/// The position of the first of `groups` that is for the domain `d`, or -1 where none is.
pub open spec fn group_of(groups: Seq<(DomainIndex, Seq<NodeIndex>)>, d: DomainIndex) -> int
    decreases groups.len(),
{
    if groups.len() == 0 {
        -1
    } else if group_of(groups.drop_last(), d) >= 0 {
        group_of(groups.drop_last(), d)
    } else if groups.last().0 == d {
        groups.len() - 1
    } else {
        -1
    }
}

/// `group_of` finds the first group of the domain.
pub proof fn lemma_group_of(groups: Seq<(DomainIndex, Seq<NodeIndex>)>, d: DomainIndex, j: int)
    requires
        -1 <= j < groups.len(),
        j >= 0 ==> groups[j].0 == d,
        forall|i: int| 0 <= i < groups.len() && (j < 0 || i < j) ==> (#[trigger] groups[i]).0 != d,
    ensures
        group_of(groups, d) == j,
    decreases groups.len(),
{
    if groups.len() > 0 {
        let init = groups.drop_last();
        if j >= 0 && j < groups.len() - 1 {
            lemma_group_of(init, d, j);
        } else {
            assert forall|i: int| 0 <= i < init.len() implies (#[trigger] init[i]).0 != d by {
                assert(init[i] == groups[i]);
            }
            lemma_group_of(init, d, -1);
        }
    }
}

/// The nodes `nodes`, each with its domain, grouped by domain: the domains in the order in
/// which they first occur, each with its nodes in their order.
pub open spec fn grouped(nodes: Seq<(NodeIndex, DomainIndex)>) -> Seq<
    (DomainIndex, Seq<NodeIndex>),
>
    decreases nodes.len(),
{
    if nodes.len() == 0 {
        Seq::empty()
    } else {
        let before = grouped(nodes.drop_last());
        let j = group_of(before, nodes.last().1);
        if 0 <= j < before.len() {
            before.update(j, (nodes.last().1, before[j].1.push(nodes.last().0)))
        } else {
            before.push((nodes.last().1, seq![nodes.last().0]))
        }
    }
}

/// What `group_of` finds: the first group of the domain, or none where there is none.
pub proof fn lemma_group_found(groups: Seq<(DomainIndex, Seq<NodeIndex>)>, d: DomainIndex)
    ensures
        -1 <= group_of(groups, d) < groups.len(),
        group_of(groups, d) >= 0 ==> groups[group_of(groups, d)].0 == d,
        group_of(groups, d) < 0 ==> forall|i: int|
            0 <= i < groups.len() ==> (#[trigger] groups[i]).0 != d,
    decreases groups.len(),
{
    if groups.len() > 0 {
        lemma_group_found(groups.drop_last(), d);
        if group_of(groups, d) < 0 {
            assert forall|i: int| 0 <= i < groups.len() implies (#[trigger] groups[i]).0 != d by {
                if i < groups.len() - 1 {
                    assert(groups.drop_last()[i] == groups[i]);
                }
            }
        }
    }
}

/// Whether no two of `groups` are for the same domain, and no node occurs twice in them.
pub open spec fn groups_apart(groups: Seq<(DomainIndex, Seq<NodeIndex>)>) -> bool {
    &&& forall|a: int, b: int|
        0 <= a < b < groups.len() ==> (#[trigger] groups[a]).0 != (#[trigger] groups[b]).0
    &&& forall|a: int, i: int, b: int, j: int|
        0 <= a < groups.len() && 0 <= i < groups[a].1.len() && 0 <= b < groups.len() && 0 <= j
            < groups[b].1.len() && (#[trigger] groups[a].1[i]) == (#[trigger] groups[b].1[j])
            ==> a == b && i == j
}

/// Whether every node of `groups` is one of `placed`, with the domain of its group.
pub open spec fn groups_within(
    groups: Seq<(DomainIndex, Seq<NodeIndex>)>,
    placed: Seq<(NodeIndex, DomainIndex)>,
) -> bool {
    forall|a: int, i: int|
        0 <= a < groups.len() && 0 <= i < groups[a].1.len() ==> exists|k: int|
            0 <= k < placed.len() && (#[trigger] placed[k]) == ((#[trigger] groups[a].1[i]), groups[a].0)
}

/// Whether no node occurs twice in `placed`.
pub open spec fn placed_once(placed: Seq<(NodeIndex, DomainIndex)>) -> bool {
    forall|i: int, j: int|
        0 <= i < j < placed.len() ==> (#[trigger] placed[i]).0 != (#[trigger] placed[j]).0
}

/// Grouping keeps the nodes apart: the groups of nodes of which none occurs twice are for
/// different domains, hold each node once, and hold no node that was not grouped.
pub proof fn lemma_grouped(placed: Seq<(NodeIndex, DomainIndex)>)
    requires
        placed_once(placed),
    ensures
        groups_apart(grouped(placed)),
        groups_within(grouped(placed), placed),
    decreases placed.len(),
{
    if placed.len() > 0 {
        let init = placed.drop_last();
        let (n, d) = placed.last();
        assert(placed_once(init)) by {
            assert forall|i: int, j: int| 0 <= i < j < init.len() implies (#[trigger] init[i]).0 != (
            #[trigger] init[j]).0 by {
                assert(init[i] == placed[i] && init[j] == placed[j]);
            }
        }
        lemma_grouped(init);
        let before = grouped(init);
        let after = grouped(placed);
        let j = group_of(before, d);
        lemma_group_found(before, d);
        // the new node is in none of the groups
        assert forall|a: int, i: int|
            0 <= a < before.len() && 0 <= i < before[a].1.len() implies (#[trigger] before[a].1[i])
            != n by {
            let k = choose|k: int|
                0 <= k < init.len() && (#[trigger] init[k]) == (before[a].1[i], before[a].0);
            assert(init[k] == placed[k]);
            assert(placed[k].0 != placed[placed.len() - 1].0);
        }
        assert(groups_within(after, placed)) by {
            assert forall|a: int, i: int|
                0 <= a < after.len() && 0 <= i < after[a].1.len() implies exists|k: int|
                0 <= k < placed.len() && (#[trigger] placed[k]) == (
                    (#[trigger] after[a].1[i]),
                    after[a].0,
                ) by {
                if a < before.len() && i < before[a].1.len() {
                    assert(after[a].1[i] == before[a].1[i]);
                    assert(after[a].0 == before[a].0);
                    let k = choose|k: int|
                        0 <= k < init.len() && (#[trigger] init[k]) == (
                            before[a].1[i],
                            before[a].0,
                        );
                    assert(placed[k] == init[k]);
                } else {
                    assert(after[a].1[i] == n);
                    assert(after[a].0 == d);
                    assert(placed[placed.len() - 1] == (n, d));
                }
            }
        }
        assert(groups_apart(after)) by {
            assert forall|a: int, b: int| 0 <= a < b < after.len() implies (#[trigger] after[a]).0
                != (#[trigger] after[b]).0 by {
                if b < before.len() {
                    assert(before[a].0 != before[b].0);
                } else {
                    assert(before[a].0 != d);
                }
            }
            assert forall|a: int, i: int, b: int, k: int|
                0 <= a < after.len() && 0 <= i < after[a].1.len() && 0 <= b < after.len() && 0
                    <= k < after[b].1.len() && (#[trigger] after[a].1[i]) == (
                #[trigger] after[b].1[k]) implies a == b && i == k by {
                let first_old = a < before.len() && i < before[a].1.len();
                let second_old = b < before.len() && k < before[b].1.len();
                if first_old {
                    assert(after[a].1[i] == before[a].1[i]);
                }
                if second_old {
                    assert(after[b].1[k] == before[b].1[k]);
                }
                if !first_old {
                    assert(after[a].1[i] == n);
                }
                if !second_old {
                    assert(after[b].1[k] == n);
                }
            }
        }
    }
}

/// What a list of groups stands for.
pub open spec fn groups_view(groups: Seq<(DomainIndex, Vec<NodeIndex>)>) -> Seq<
    (DomainIndex, Seq<NodeIndex>),
> {
    Seq::new(groups.len(), |i: int| (groups[i].0, groups[i].1@))
}

/// Groups the nodes `nodes`, each of which comes with its domain, by domain; see
/// [`grouped`].
pub fn group_by_domain(nodes: &Vec<(NodeIndex, DomainIndex)>) -> (groups: Vec<
    (DomainIndex, Vec<NodeIndex>),
>)
    ensures
        groups_view(groups@) == grouped(nodes@),
{
    let mut groups: Vec<(DomainIndex, Vec<NodeIndex>)> = Vec::new();
    let mut i: usize = 0;
    proof {
        assert(nodes@.take(0) =~= Seq::<(NodeIndex, DomainIndex)>::empty());
        assert(groups_view(groups@) =~= grouped(nodes@.take(0)));
    }
    while i < nodes.len()
        invariant
            i <= nodes@.len(),
            groups_view(groups@) == grouped(nodes@.take(i as int)),
        decreases nodes@.len() - i,
    {
        let (n, d) = nodes[i];
        let ghost before = groups_view(groups@);
        proof {
            assert(nodes@.take(i + 1).drop_last() =~= nodes@.take(i as int));
            assert(nodes@.take(i + 1).last() == nodes@[i as int]);
        }
        let mut j: usize = 0;
        let mut found: bool = false;
        while j < groups.len() && !found
            invariant
                j <= groups@.len(),
                before == groups_view(groups@),
                found ==> j < groups@.len() && groups@[j as int].0 == d,
                forall|h: int| 0 <= h < j ==> (#[trigger] before[h]).0 != d,
            decreases groups@.len() - j, (if found { 0int } else { 1int }),
        {
            assert(before[j as int].0 == groups@[j as int].0);
            if groups[j].0 == d {
                found = true;
            } else {
                j += 1;
            }
        }
        if found {
            proof {
                lemma_group_of(before, d, j as int);
            }
            groups[j].1.push(n);
            assert(groups_view(groups@) =~= before.update(j as int, (d, before[j as int].1.push(n))));
        } else {
            proof {
                lemma_group_of(before, d, -1);
            }
            let mut only: Vec<NodeIndex> = Vec::new();
            only.push(n);
            groups.push((d, only));
            assert(groups_view(groups@) =~= before.push((d, seq![n])));
        }
        i += 1;
    }
    proof {
        assert(nodes@.take(nodes@.len() as int) =~= nodes@);
    }
    groups
}

} // verus!
