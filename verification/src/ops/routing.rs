//! The seam between domains: the egress that sends records out of a domain, and the ingress
//! that takes them in.

use crate::addressing::{DomainIndex, IndexPair, LocalNodeIndex, NodeIndex, Remap, Tag};
use crate::data::{clone_records, Delta, Record};
use vstd::prelude::*;

verus! {

/// Takes in the records that come from another domain and hands them to its children
/// unchanged.
#[derive(Clone, Copy, Debug)]
pub struct Ingress {
    src: IndexPair,
}

impl Ingress {
    /// The node on the other side of the seam that the records come from.
    pub closed spec fn source(self) -> IndexPair {
        self.src
    }

    /// An ingress for the records of `src`.
    pub fn new(src: NodeIndex) -> (i: Ingress)
        ensures
            i.source().spec_global() == src,
            i.source().spec_local().is_none(),
    {
        Ingress { src: IndexPair::new(src) }
    }

    /// The parents of this node: the one that it was made with.
    pub fn ancestors(&self) -> (a: Vec<NodeIndex>)
        ensures
            a@ == seq![self.source().spec_global()],
    {
        let mut a: Vec<NodeIndex> = Vec::new();
        a.push(self.src.as_global());
        assert(a@ =~= seq![self.source().spec_global()]);
        a
    }

    /// Localizes the reference to the parent.
    pub fn on_commit(&mut self, _us: NodeIndex, remap: &Remap)
        requires
            remap.wf(),
        ensures
            final(self).source() == if remap@.dom().contains(old(self).source().spec_global()) {
                remap@[old(self).source().spec_global()]
            } else {
                old(self).source()
            },
    {
        self.src.remap(remap);
    }

    /// Hands the records on unchanged.
    pub fn on_input(&self, rs: Vec<Record>) -> (out: Vec<Record>)
        ensures
            out.deep_view() == rs.deep_view(),
    {
        rs
    }

    /// Where column `column` of the output comes from: the same column of the parent.
    pub fn parent_columns(&self, column: usize) -> (r: Vec<(NodeIndex, Option<usize>)>)
        ensures
            r@ == seq![(self.source().spec_global(), Some(column))],
    {
        let mut v: Vec<(NodeIndex, Option<usize>)> = Vec::new();
        v.push((self.src.as_global(), Some(column)));
        assert(v@ =~= seq![(self.source().spec_global(), Some(column))]);
        v
    }
}

/// Where an egress sends to: the ingress node on the other side, and the domain and shard
/// in which it lives.
#[derive(Clone, Copy, Debug, PartialEq, Eq, Structural)]
pub struct EgressTx {
    /// The global identifier of the ingress.
    pub node: NodeIndex,
    /// The local identifier of the ingress in its domain.
    pub local: LocalNodeIndex,
    /// The domain of the ingress.
    pub domain: DomainIndex,
    /// The shard of that domain.
    pub shard: usize,
}

/// What an egress sends: the records, and where to.
#[derive(Debug)]
pub struct Outgoing {
    /// Where the records go.
    pub to: EgressTx,
    /// The records.
    pub records: Vec<Record>,
}

/// Sends the records of its parent to the ingress nodes of other domains. A regular update
/// goes to every one of them; a piece of a replay goes only to the one that the replay path
/// leads through.
#[derive(Debug)]
pub struct Egress {
    src: IndexPair,
    txs: Vec<EgressTx>,
    tags: Vec<(Tag, NodeIndex)>,
}

impl Egress {
    /// The parent.
    pub closed spec fn source(self) -> IndexPair {
        self.src
    }

    /// Where the egress sends to, in the order in which the destinations were added.
    pub closed spec fn destinations(self) -> Seq<EgressTx> {
        self.txs@
    }

    /// The replay paths that lead through the egress, each with the ingress that it goes on
    /// to, in the order in which they were added.
    pub closed spec fn paths(self) -> Seq<(Tag, NodeIndex)> {
        self.tags@
    }

    /// The ingress that the replay path `tag` goes on to: that of the first entry for the
    /// tag.
    pub open spec fn next_on(paths: Seq<(Tag, NodeIndex)>, tag: Tag) -> Option<NodeIndex>
        decreases paths.len(),
    {
        if paths.len() == 0 {
            None
        } else if paths[0].0 == tag {
            Some(paths[0].1)
        } else {
            Self::next_on(paths.skip(1), tag)
        }
    }

    /// The destinations that a batch goes to: all of them for a regular update, and for a
    /// piece of the replay `tag` those on the ingress that the path goes on to.
    pub open spec fn targets(self, replay: Option<Tag>) -> Seq<EgressTx> {
        match replay {
            None => self.destinations(),
            Some(tag) => match Self::next_on(self.paths(), tag) {
                None => Seq::empty(),
                Some(node) => self.destinations().filter(|tx: EgressTx| tx.node == node),
            },
        }
    }

    /// An egress below `src` that sends nowhere yet.
    pub fn new(src: NodeIndex) -> (e: Egress)
        ensures
            e.source().spec_global() == src,
            e.source().spec_local().is_none(),
            e.destinations().len() == 0,
            e.paths().len() == 0,
    {
        Egress { src: IndexPair::new(src), txs: Vec::new(), tags: Vec::new() }
    }

    /// The parents of this node: the one that it was made with.
    pub fn ancestors(&self) -> (a: Vec<NodeIndex>)
        ensures
            a@ == seq![self.source().spec_global()],
    {
        let mut a: Vec<NodeIndex> = Vec::new();
        a.push(self.src.as_global());
        assert(a@ =~= seq![self.source().spec_global()]);
        a
    }

    /// Localizes the reference to the parent.
    pub fn on_commit(&mut self, _us: NodeIndex, remap: &Remap)
        requires
            remap.wf(),
        ensures
            final(self).source() == if remap@.dom().contains(old(self).source().spec_global()) {
                remap@[old(self).source().spec_global()]
            } else {
                old(self).source()
            },
            final(self).destinations() == old(self).destinations(),
            final(self).paths() == old(self).paths(),
    {
        self.src.remap(remap);
    }

    /// Adds a destination.
    pub fn add_tx(&mut self, tx: EgressTx)
        ensures
            final(self).source() == old(self).source(),
            final(self).destinations() == old(self).destinations().push(tx),
            final(self).paths() == old(self).paths(),
    {
        self.txs.push(tx);
    }

    /// Notes that the replay path `tag` goes on to the ingress `node`.
    pub fn add_tag(&mut self, tag: Tag, node: NodeIndex)
        ensures
            final(self).source() == old(self).source(),
            final(self).destinations() == old(self).destinations(),
            final(self).paths() == old(self).paths().push((tag, node)),
    {
        self.tags.push((tag, node));
    }

    fn next_for(&self, tag: Tag) -> (n: Option<NodeIndex>)
        ensures
            n == Self::next_on(self.paths(), tag),
    {
        let mut i: usize = 0;
        proof {
            assert(self.tags@.skip(0) =~= self.tags@);
        }
        while i < self.tags.len()
            invariant
                i <= self.tags@.len(),
                Self::next_on(self.paths(), tag) == Self::next_on(self.tags@.skip(i as int), tag),
            decreases self.tags@.len() - i,
        {
            proof {
                assert(self.tags@.skip(i as int)[0] == self.tags@[i as int]);
                assert(self.tags@.skip(i as int).skip(1) =~= self.tags@.skip(i + 1));
            }
            if self.tags[i].0 == tag {
                return Some(self.tags[i].1);
            }
            i += 1;
        }
        None
    }

    /// What is sent for a batch: a copy of the records to each destination that the batch
    /// goes to, in the order of the destinations.
    pub fn on_input(&self, rs: &Vec<Record>, replay: Option<Tag>) -> (out: Vec<Outgoing>)
        ensures
            out@.len() == self.targets(replay).len(),
            forall|i: int|
                0 <= i < out@.len() ==> (#[trigger] out@[i]).to == self.targets(replay)[i]
                    && out@[i].records.deep_view() == rs.deep_view(),
    {
        let mut out: Vec<Outgoing> = Vec::new();
        let via: Option<NodeIndex> = match replay {
            None => None,
            Some(tag) => match self.next_for(tag) {
                None => {
                    return out;
                },
                Some(node) => Some(node),
            },
        };
        let ghost all = self.txs@;
        let ghost pred = |tx: EgressTx| tx.node == via.unwrap();
        let ghost mut sent = Seq::<EgressTx>::empty();
        let mut i: usize = 0;
        proof {
            reveal(Seq::filter);
            assert(all.take(0) =~= Seq::<EgressTx>::empty());
        }
        while i < self.txs.len()
            invariant
                i <= self.txs@.len(),
                all == self.txs@,
                pred == |tx: EgressTx| tx.node == via.unwrap(),
                sent == if via.is_some() {
                    all.take(i as int).filter(pred)
                } else {
                    all.take(i as int)
                },
                out@.len() == sent.len(),
                forall|j: int|
                    0 <= j < out@.len() ==> (#[trigger] out@[j]).to == sent[j]
                        && out@[j].records.deep_view() == rs.deep_view(),
            decreases self.txs@.len() - i,
        {
            proof {
                assert(all.take(i + 1) =~= all.take(i as int).push(all[i as int]));
                all.take(i as int).lemma_filter_push(all[i as int], pred);
            }
            let tx = self.txs[i];
            let goes: bool = match via {
                None => true,
                Some(node) => tx.node == node,
            };
            if goes {
                out.push(Outgoing { to: tx, records: clone_records(rs) });
                proof {
                    sent = sent.push(tx);
                }
            }
            i += 1;
        }
        proof {
            assert(all.take(self.txs@.len() as int) =~= all);
        }
        out
    }

    /// Where column `column` of the output comes from: the same column of the parent.
    pub fn parent_columns(&self, column: usize) -> (r: Vec<(NodeIndex, Option<usize>)>)
        ensures
            r@ == seq![(self.source().spec_global(), Some(column))],
    {
        let mut v: Vec<(NodeIndex, Option<usize>)> = Vec::new();
        v.push((self.src.as_global(), Some(column)));
        assert(v@ =~= seq![(self.source().spec_global(), Some(column))]);
        v
    }
}

} // verus!
