//! The domain: the container that owns a set of nodes and their states, takes in the
//! batches that are sent to its nodes, one after the other, and says what goes on from each.

use crate::addressing::{DomainIndex, LocalNodeIndex, NodeIndex, Tag};
use crate::data::{
    check_columns_within, check_rows_have_width, clone_row, columns_within, rows_have_width,
    DataType, Delta, Record, Row, SignedRow,
};
use crate::flow::NodeOperator;
use crate::ops::base::{TableOperation, Write};
use crate::ops::grouped::misses_on;
use crate::ops::routing::{EgressTx, Outgoing};
use crate::processing::{Miss, MissView, ProcessingResult, StateMap};
use crate::replay::{
    wanted, MissAction, ReplayEngine, ReplayError, ReplayPath, RequestPartialReplay, Wanted,
};
use crate::state::{LookupResult, Materialized, State};
use vstd::prelude::*;

verus! {

/// Why a domain cannot go on.
#[derive(Clone, Copy, Debug, PartialEq, Eq, Structural)]
pub enum DomainError {
    /// A packet names a node that the domain does not have.
    UnknownNode,
    /// A node received a packet before it was ready.
    NotReady,
    /// The domain is not in the shape that a packet needs: rows of the wrong width, a state
    /// that is missing or keyed on other columns, an operator that cannot take what its
    /// parent gives.
    InvariantViolation,
    /// A replay arrived that nobody had asked for.
    UnknownReplay,
}

/// One node of a domain.
#[derive(Debug)]
pub struct DomainNode {
    /// The global identifier of the node.
    pub global: NodeIndex,
    /// The operator.
    pub operator: NodeOperator,
    /// The nodes of this domain that take the records of the node.
    pub children: Vec<LocalNodeIndex>,
    /// The number of columns of the node's output.
    pub width: usize,
    /// Whether the node may take packets.
    pub ready: bool,
}

/// What a node makes of a batch.
#[derive(Debug)]
pub struct Delivery {
    /// The records that go on to the children of the node.
    pub results: Vec<Record>,
    /// The lookups that fell into a hole.
    pub misses: Vec<Miss>,
    /// The records that the operator could not take in.
    pub rejected: Vec<Record>,
    /// What an egress sends to other domains.
    pub egress: Vec<Outgoing>,
    /// What a sharder sends to each shard.
    pub shards: Vec<Vec<Record>>,
}

/// What a delivery stands for.
pub struct Delivered {
    /// The records that go on to the children of the node.
    pub out: Delta,
    /// The lookups that fell into a hole.
    pub misses: Seq<MissView>,
    /// The records that the operator could not take in.
    pub rejected: Delta,
    /// The destinations of what an egress sends, each of which gets the batch.
    pub egress: Seq<EgressTx>,
    /// What a sharder sends to each shard.
    pub shards: Seq<Delta>,
    /// The state that the operator keeps for itself, afterwards: the accumulators of an
    /// aggregation, the best rows of a top-k.
    pub own: Option<Materialized>,
}

impl Delivery {
    /// A delivery that emits `p` and sends nothing elsewhere.
    fn plain(p: ProcessingResult) -> (d: Delivery)
        ensures
            d.results == p.results,
            d.misses == p.misses,
            d.rejected == p.rejected,
            d.egress@.len() == 0,
            d.shards@.len() == 0,
    {
        Delivery {
            results: p.results,
            misses: p.misses,
            rejected: p.rejected,
            egress: Vec::new(),
            shards: Vec::new(),
        }
    }

    /// The destinations of what the egress sends.
    pub open spec fn sent_to(self) -> Seq<EgressTx> {
        Seq::new(self.egress@.len(), |i: int| self.egress@[i].to)
    }

    /// What the sharder sends to each shard.
    pub open spec fn shared(self) -> Seq<Delta> {
        Seq::new(self.shards@.len(), |i: int| self.shards@[i].deep_view())
    }
}

/// A batch on its way from one node to another.
pub struct Batch {
    /// The node that takes the batch.
    pub to: LocalNodeIndex,
    /// The node that sent it.
    pub from: LocalNodeIndex,
    /// The records.
    pub delta: Delta,
}

/// What a batch of writes to a base has led to within its domain.
#[derive(Debug)]
pub struct WriteOutcome {
    /// The records that the base emitted.
    pub records: Vec<Record>,
    /// The positions of the writes that the base rejected.
    pub rejected: Vec<usize>,
    /// The deliveries that were made below the base, in their order.
    pub deliveries: Vec<Delivery>,
    /// Why the deliveries ended before every batch was delivered, if they did.
    pub error: Option<DomainError>,
    /// The requests for replays that are to be sent now, or the error that a miss of the
    /// deliveries has no replay path.
    pub requests: Result<Vec<RequestPartialReplay>, ReplayError>,
}

/// A batch that waits to be delivered.
#[derive(Debug)]
pub struct Pending {
    /// The node that takes the batch.
    pub to: LocalNodeIndex,
    /// The node that sent it.
    pub from: LocalNodeIndex,
    /// The records.
    pub records: Vec<Record>,
}

/// The nodes of one domain, with the states that they keep.
#[derive(Debug)]
pub struct Domain {
    /// The domain.
    pub index: DomainIndex,
    /// The shard of the domain that this is.
    pub shard: usize,
    /// The nodes, by local identifier.
    pub nodes: Vec<DomainNode>,
    /// The materialized output of the nodes that have one.
    pub states: StateMap,
    /// What the aggregations remember of their groups.
    pub accumulators: StateMap,
    /// The requests for replays.
    pub replay: ReplayEngine,
}

impl Domain {
    /// The node with the local identifier `l`.
    pub open spec fn node(self, l: LocalNodeIndex) -> DomainNode {
        self.nodes@[l.spec_id() as int]
    }

    /// Whether the domain has the node `l`.
    pub open spec fn has(self, l: LocalNodeIndex) -> bool {
        l.spec_id() < self.nodes@.len()
    }

    /// The domain is sound: its states and requests are, every materialized output has rows
    /// of the width of its node, and what an aggregation remembers fits the aggregation.
    pub open spec fn wf(self) -> bool {
        &&& self.states.wf()
        &&& self.accumulators.wf()
        &&& self.replay.wf()
        &&& forall|l: LocalNodeIndex|
            self.has(l) && (#[trigger] self.states.model(l)).is_some() ==> self.states.model(
                l,
            ).unwrap().uniform(self.node(l).width as nat) && self.states.model(l).unwrap().wf()
        &&& forall|l: LocalNodeIndex|
            self.has(l) && (#[trigger] self.accumulators.model(l)).is_some() ==> (self.node(
                l,
            ).operator matches NodeOperator::Aggregation(a) ==> a.coherent(
                self.accumulators.model(l).unwrap(),
            ))
        &&& forall|l: LocalNodeIndex|
            self.has(l) ==> (#[trigger] self.node(l).operator matches NodeOperator::Reader(r)
                ==> r.wf())
        &&& forall|l: LocalNodeIndex|
            !self.has(l) ==> (#[trigger] self.states.model(l)).is_none()
        &&& forall|l: LocalNodeIndex|
            !self.has(l) ==> (#[trigger] self.accumulators.model(l)).is_none()
    }

    /// Whether the operator of the node `to` can take the batch `delta` from the node
    /// `from`, as the domain stands.
    pub open spec fn deliverable(self, to: LocalNodeIndex, from: LocalNodeIndex, delta: Delta) -> bool {
        let w = self.node(from).width as nat;
        &&& self.has(to)
        &&& self.has(from)
        &&& self.node(to).ready
        &&& rows_have_width(delta, w)
        &&& match self.node(to).operator {
            NodeOperator::Source => false,
            NodeOperator::Base(_) => false,
            NodeOperator::Identity(_) => true,
            NodeOperator::ParamFilter(_) => true,
            NodeOperator::Filter(_) => true,
            NodeOperator::Ingress(_) => true,
            NodeOperator::Egress(_) => true,
            NodeOperator::Project(o) => columns_within(o.columns(), w),
            NodeOperator::Union(o) => o.has_parent(from) && columns_within(o.columns_of(from), w),
            NodeOperator::Sharder(o) => o.wf() && o.sharded_by() < w,
            NodeOperator::Aggregation(o) => columns_within(o.group(), w) && o.column() < w
                && self.accumulators.model(to).is_some(),
            NodeOperator::Reader(r) => r@.state.is_some() ==> columns_within(r.key_columns(), w),
            NodeOperator::Join(o) => {
                let l = o.left_parent().spec_local();
                let r = o.right_parent().spec_local();
                &&& l.is_some()
                &&& r.is_some()
                &&& l != r
                &&& (from == l.unwrap() || from == r.unwrap())
                &&& self.has(l.unwrap())
                &&& self.has(r.unwrap())
                &&& self.states.model(l.unwrap()).is_some()
                &&& self.states.model(r.unwrap()).is_some()
                &&& self.states.model(l.unwrap()).unwrap().key == o.left_key()
                &&& self.states.model(r.unwrap()).unwrap().key == o.right_key()
                &&& o.fits_width(true, self.node(l.unwrap()).width as nat)
                &&& o.fits_width(false, self.node(r.unwrap()).width as nat)
                &&& delta.len() <= i64::MAX
            },
            NodeOperator::TopK(o) => {
                let p = o.source().spec_local();
                &&& p.is_some()
                &&& p.unwrap() != to
                &&& self.has(p.unwrap())
                &&& self.states.model(p.unwrap()).is_some()
                &&& self.states.model(p.unwrap()).unwrap().key == o.group()
                &&& self.states.model(to).is_some()
                &&& self.states.model(to).unwrap().key == o.group()
                &&& o.fits_width(self.node(p.unwrap()).width as nat)
                &&& o.fits_width(w)
                &&& self.node(p.unwrap()).width == self.node(to).width
            },
        }
    }

    /// What the operator of the node `to` makes of the batch `delta` from the node `from`.
    pub open spec fn computed(self, to: LocalNodeIndex, from: LocalNodeIndex, delta: Delta) -> Delivered {
        let nothing = Delivered {
            out: Seq::empty(),
            misses: Seq::empty(),
            rejected: Seq::empty(),
            egress: Seq::empty(),
            shards: Seq::empty(),
            own: None,
        };
        match self.node(to).operator {
            NodeOperator::Identity(_) => Delivered { out: delta, ..nothing },
            NodeOperator::Ingress(_) => Delivered { out: delta, ..nothing },
            NodeOperator::ParamFilter(_) => nothing,
            NodeOperator::Filter(o) => Delivered { out: o.transform(delta), ..nothing },
            NodeOperator::Project(o) => Delivered { out: o.transform(delta), ..nothing },
            NodeOperator::Union(o) => Delivered { out: o.transform(from, delta), ..nothing },
            NodeOperator::Egress(o) => Delivered { egress: o.targets(None), ..nothing },
            NodeOperator::Sharder(o) => Delivered {
                shards: Seq::new(o.fan_out() as nat, |s: int| o.share(delta, s as nat)),
                ..nothing
            },
            NodeOperator::Aggregation(o) => {
                let run = o.run(self.accumulators.model(to).unwrap(), delta);
                Delivered {
                    out: run.out,
                    misses: misses_on(to, o.state_key(), run.misses),
                    rejected: run.rejected,
                    own: Some(run.state),
                    ..nothing
                }
            },
            NodeOperator::Join(o) => {
                let l = o.left_parent().spec_local().unwrap();
                let r = o.right_parent().spec_local().unwrap();
                let left = from == l;
                let other = self.states.model(
                    if left {
                        r
                    } else {
                        l
                    },
                ).unwrap();
                let run = o.run(
                    left,
                    if left {
                        r
                    } else {
                        l
                    },
                    r,
                    other,
                    self.states.model(r).unwrap(),
                    delta,
                    delta.len() as int,
                );
                Delivered { out: run.out, misses: run.misses, ..nothing }
            },
            NodeOperator::TopK(o) => {
                let p = o.source().spec_local().unwrap();
                let run = o.run(
                    to,
                    p,
                    self.states.model(to).unwrap(),
                    self.states.model(p).unwrap(),
                    delta,
                );
                Delivered { out: run.out, misses: run.misses, own: Some(run.state), ..nothing }
            },
            _ => nothing,
        }
    }

    /// Whether the node `to` keeps its materialized output up to date itself.
    pub open spec fn keeps_itself(self, to: LocalNodeIndex) -> bool {
        self.node(to).operator is TopK || self.node(to).operator is Base
    }

    /// Whether the output `out` of the node `to` can be applied to the materialized output
    /// of the node, if it has one.
    pub open spec fn applicable(self, to: LocalNodeIndex, out: Delta) -> bool {
        self.states.model(to).is_some() && !self.keeps_itself(to) ==> rows_have_width(
            out,
            self.node(to).width as nat,
        ) && columns_within(self.states.model(to).unwrap().key, self.node(to).width as nat)
    }

    /// An empty domain.
    pub fn new(index: DomainIndex, shard: usize, max_concurrent_replays: usize) -> (d: Domain)
        ensures
            d.wf(),
            d.index == index,
            d.shard == shard,
            d.nodes@.len() == 0,
            d.replay@.ceiling == max_concurrent_replays,
    {
        Domain {
            index,
            shard,
            nodes: Vec::new(),
            states: StateMap::new(),
            accumulators: StateMap::new(),
            replay: ReplayEngine::new(max_concurrent_replays),
        }
    }

    /// The number of nodes.
    pub fn node_count(&self) -> (n: usize)
        ensures
            n == self.nodes@.len(),
    {
        self.nodes.len()
    }

    /// Takes a node into the domain and gives it the next local identifier. An aggregation
    /// gets an empty state for what it remembers of its groups. A reader must be sound.
    /// `None`, and nothing done, where the domain cannot count more nodes.
    pub fn add_node(&mut self, node: DomainNode) -> (l: Option<LocalNodeIndex>)
        requires
            old(self).wf(),
            node.operator matches NodeOperator::Reader(r) ==> r.wf(),
        ensures
            final(self).wf(),
            l.is_some() == (old(self).nodes@.len() < u32::MAX),
            l.is_none() ==> *final(self) == *old(self),
            l.is_some() ==> {
                &&& l.unwrap().spec_id() == old(self).nodes@.len()
                &&& final(self).nodes@ == old(self).nodes@.push(node)
                &&& final(self).states == old(self).states
                &&& final(self).replay == old(self).replay
                &&& forall|m: LocalNodeIndex|
                    m != l.unwrap() ==> final(self).accumulators.model(m) == old(self).accumulators.model(m)
                &&& final(self).accumulators.model(l.unwrap()) == match node.operator {
                    NodeOperator::Aggregation(a) => Some(
                        Materialized::empty(a.state_key(), false),
                    ),
                    _ => Option::<Materialized>::None,
                }
            },
    {
        if self.nodes.len() >= u32::MAX as usize {
            return None;
        }
        let l = LocalNodeIndex::make(self.nodes.len() as u32);
        match &node.operator {
            NodeOperator::Aggregation(a) => {
                let own = State::new(a.own_key(), false);
                proof {
                    a.lemma_empty_coherent();
                }
                self.accumulators.insert(l, own);
            },
            _ => {},
        }
        self.nodes.push(node);
        proof {
            assert forall|m: LocalNodeIndex| old(self).has(m) implies self.node(m) == old(self).node(m) by {}
            assert forall|m: LocalNodeIndex| self.has(m) && !old(self).has(m) implies m == l by {
                LocalNodeIndex::lemma_id_injective(m, l);
            }
            assert(old(self).states.model(l).is_none());
            assert(old(self).accumulators.model(l).is_none());
        }
        Some(l)
    }


    /// The error that a batch from `from` to `to` meets which cannot be delivered.
    pub open spec fn refusal(self, to: LocalNodeIndex, from: LocalNodeIndex) -> DomainError {
        if !self.has(to) || !self.has(from) {
            DomainError::UnknownNode
        } else if !self.node(to).ready {
            DomainError::NotReady
        } else {
            DomainError::InvariantViolation
        }
    }

    /// Checks whether the node `to` can take the batch `rs` from the node `from`.
    pub fn check(&self, to: LocalNodeIndex, from: LocalNodeIndex, rs: &Vec<Record>) -> (r: Result<
        (),
        DomainError,
    >)
        requires
            self.wf(),
        ensures
            r.is_ok() == self.deliverable(to, from, rs.deep_view()),
            r.is_err() ==> r.unwrap_err() == self.refusal(to, from),
    {
        let t: usize = to.id();
        let f: usize = from.id();
        let n: usize = self.nodes.len();
        if t >= n || f >= n {
            return Err(DomainError::UnknownNode);
        }
        if !self.nodes[t].ready {
            return Err(DomainError::NotReady);
        }
        let w: usize = self.nodes[f].width;
        if !check_rows_have_width(rs, w) {
            return Err(DomainError::InvariantViolation);
        }
        assert(rs.deep_view().len() == rs@.len());
        let ok: bool = match &self.nodes[t].operator {
            NodeOperator::Source => false,
            NodeOperator::Base(_) => false,
            NodeOperator::Identity(_) => true,
            NodeOperator::ParamFilter(_) => true,
            NodeOperator::Filter(_) => true,
            NodeOperator::Ingress(_) => true,
            NodeOperator::Egress(_) => true,
            NodeOperator::Project(o) => o.check_width(w),
            NodeOperator::Union(o) => o.check_width(from, w),
            NodeOperator::Sharder(o) => o.check_width(w),
            NodeOperator::Aggregation(o) => o.check_width(w) && self.accumulators.get(
                to,
            ).is_some(),
            NodeOperator::Reader(r) => !r.is_ready() || r.check_width(w),
            NodeOperator::Join(o) => {
                let l = o.left();
                let r = o.right();
                if !l.has_local() || !r.has_local() {
                    false
                } else {
                    let ll = l.as_local();
                    let rl = r.as_local();
                    if ll == rl || !(from == ll || from == rl) || ll.id() >= n || rl.id() >= n {
                        false
                    } else {
                        match (self.states.get(ll), self.states.get(rl)) {
                            (Some(ls), Some(rstate)) => {
                                crate::data::same_columns(ls.key_columns(), o.key_columns(true))
                                    && crate::data::same_columns(
                                    rstate.key_columns(),
                                    o.key_columns(false),
                                ) && o.check_width(true, self.nodes[ll.id()].width)
                                    && o.check_width(false, self.nodes[rl.id()].width) && (
                                rs.len() as u64) <= 0x7fff_ffff_ffff_ffffu64
                            },
                            _ => false,
                        }
                    }
                }
            },
            NodeOperator::TopK(o) => {
                let p = o.src();
                if !p.has_local() {
                    false
                } else {
                    let pl = p.as_local();
                    if pl == to || pl.id() >= n {
                        false
                    } else {
                        match (self.states.get(pl), self.states.get(to)) {
                            (Some(ps), Some(own)) => {
                                crate::data::same_columns(ps.key_columns(), o.key_columns())
                                    && crate::data::same_columns(
                                    own.key_columns(),
                                    o.key_columns(),
                                ) && o.check_width(self.nodes[pl.id()].width) && o.check_width(w)
                                    && self.nodes[pl.id()].width == self.nodes[t].width
                            },
                            _ => false,
                        }
                    }
                }
            },
        };
        if ok {
            Ok(())
        } else {
            Err(DomainError::InvariantViolation)
        }
    }

    /// What an operator without a state of its own makes of a batch.
    fn deliver_plain(&self, to: LocalNodeIndex, from: LocalNodeIndex, rs: Vec<Record>) -> (d:
        Delivery)
        requires
            self.wf(),
            self.deliverable(to, from, rs.deep_view()),
            !(self.node(to).operator is Aggregation),
            !(self.node(to).operator is TopK),
            !(self.node(to).operator is Reader),
        ensures
            d.results.deep_view() == self.computed(to, from, rs.deep_view()).out,
            d.misses.deep_view() == self.computed(to, from, rs.deep_view()).misses,
            d.rejected.deep_view() == self.computed(to, from, rs.deep_view()).rejected,
            d.sent_to() == self.computed(to, from, rs.deep_view()).egress,
            forall|i: int|
                0 <= i < d.egress@.len() ==> (#[trigger] d.egress@[i]).records.deep_view()
                    == rs.deep_view(),
            d.shared() == self.computed(to, from, rs.deep_view()).shards,
    {
        let ghost delta = rs.deep_view();
        let ghost w = self.node(from).width as nat;
        let t: usize = to.id();
        let ghost expected = self.computed(to, from, delta);
        match &self.nodes[t].operator {
            NodeOperator::Identity(o) => {
                let d = Delivery::plain(o.on_input(from, rs));
                proof {
                    assert(d.misses.deep_view() =~= expected.misses);
                    assert(d.rejected.deep_view() =~= expected.rejected);
                    assert(d.sent_to() =~= expected.egress);
                    assert(d.shared() =~= expected.shards);
                }
                d
            },
            NodeOperator::ParamFilter(o) => {
                let d = Delivery::plain(o.on_input(from, rs));
                proof {
                    assert(d.results.deep_view() =~= expected.out);
                    assert(d.misses.deep_view() =~= expected.misses);
                    assert(d.rejected.deep_view() =~= expected.rejected);
                    assert(d.sent_to() =~= expected.egress);
                    assert(d.shared() =~= expected.shards);
                }
                d
            },
            NodeOperator::Filter(o) => {
                let d = Delivery::plain(o.on_input(from, rs));
                proof {
                    assert(d.misses.deep_view() =~= expected.misses);
                    assert(d.rejected.deep_view() =~= expected.rejected);
                    assert(d.sent_to() =~= expected.egress);
                    assert(d.shared() =~= expected.shards);
                }
                d
            },
            NodeOperator::Ingress(o) => {
                let d = Delivery::plain(ProcessingResult::emit(o.on_input(rs)));
                proof {
                    assert(d.sent_to() =~= expected.egress);
                    assert(d.shared() =~= expected.shards);
                }
                d
            },
            NodeOperator::Project(o) => {
                let d = Delivery::plain(o.on_input(from, rs));
                proof {
                    assert(d.misses.deep_view() =~= expected.misses);
                    assert(d.rejected.deep_view() =~= expected.rejected);
                    assert(d.sent_to() =~= expected.egress);
                    assert(d.shared() =~= expected.shards);
                }
                d
            },
            NodeOperator::Union(o) => {
                let d = Delivery::plain(o.on_input(from, rs));
                proof {
                    assert(d.misses.deep_view() =~= expected.misses);
                    assert(d.rejected.deep_view() =~= expected.rejected);
                    assert(d.sent_to() =~= expected.egress);
                    assert(d.shared() =~= expected.shards);
                }
                d
            },
            NodeOperator::Egress(o) => {
                let egress = o.on_input(&rs, None);
                let d = Delivery {
                    results: Vec::new(),
                    misses: Vec::new(),
                    rejected: Vec::new(),
                    egress,
                    shards: Vec::new(),
                };
                proof {
                    assert(d.results.deep_view() =~= Seq::<SignedRow>::empty());
                    assert(d.misses.deep_view() =~= Seq::<MissView>::empty());
                    assert(d.rejected.deep_view() =~= Seq::<SignedRow>::empty());
                    assert(d.sent_to() =~= o.targets(None));
                    assert(d.shared() =~= Seq::<Delta>::empty());
                }
                d
            },
            NodeOperator::Sharder(o) => {
                let shards = o.on_input(from, rs);
                let d = Delivery {
                    results: Vec::new(),
                    misses: Vec::new(),
                    rejected: Vec::new(),
                    egress: Vec::new(),
                    shards,
                };
                proof {
                    assert(d.results.deep_view() =~= Seq::<SignedRow>::empty());
                    assert(d.misses.deep_view() =~= Seq::<MissView>::empty());
                    assert(d.rejected.deep_view() =~= Seq::<SignedRow>::empty());
                    assert(d.sent_to() =~= Seq::<EgressTx>::empty());
                    assert(d.shared() =~= Seq::new(
                        o.fan_out() as nat,
                        |s: int| o.share(delta, s as nat),
                    ));
                }
                d
            },
            NodeOperator::Join(o) => {
                let ghost l = o.left_parent().spec_local().unwrap();
                let ghost r = o.right_parent().spec_local().unwrap();
                proof {
                    let ml = self.states.model(l).unwrap();
                    let mr = self.states.model(r).unwrap();
                    assert(ml.uniform(self.node(l).width as nat));
                    assert(mr.uniform(self.node(r).width as nat));
                    assert(o.state_fits(true, ml));
                    assert(o.state_fits(false, mr));
                    assert(o.accepts(from == l, delta));
                }
                let p = o.on_input(from, rs, &self.states);
                let d = Delivery::plain(p);
                proof {
                    assert(d.rejected.deep_view() =~= expected.rejected);
                    assert(d.sent_to() =~= expected.egress);
                    assert(d.shared() =~= expected.shards);
                }
                d
            },
            _ => {
                let d = Delivery {
                    results: Vec::new(),
                    misses: Vec::new(),
                    rejected: Vec::new(),
                    egress: Vec::new(),
                    shards: Vec::new(),
                };
                proof {
                    assert(d.results.deep_view() =~= expected.out);
                    assert(d.misses.deep_view() =~= expected.misses);
                    assert(d.rejected.deep_view() =~= expected.rejected);
                    assert(d.sent_to() =~= expected.egress);
                    assert(d.shared() =~= expected.shards);
                }
                d
            },
        }
    }

    /// Whether `after` is the domain after the node `to` has taken the batch `delta` from
    /// the node `from`, and `d` what the node made of the batch: the delivery is what the
    /// operator computes; an aggregation and a top-k keep their own state up to date; a
    /// reader applies the batch to its state; a node with a materialized output that it does
    /// not keep itself has its output applied to it; and nothing else changes.
    pub open spec fn delivered(
        self,
        after: Domain,
        to: LocalNodeIndex,
        from: LocalNodeIndex,
        delta: Delta,
        d: Delivery,
    ) -> bool {
        let c = self.computed(to, from, delta);
        &&& d.results.deep_view() == c.out
        &&& d.misses.deep_view() == c.misses
        &&& d.rejected.deep_view() == c.rejected
        &&& d.sent_to() == c.egress
        &&& forall|i: int|
            0 <= i < d.egress@.len() ==> (#[trigger] d.egress@[i]).records.deep_view() == delta
        &&& d.shared() == c.shards
        &&& after.nodes@.len() == self.nodes@.len()
        &&& after.replay == self.replay
        &&& after.index == self.index
        &&& after.shard == self.shard
        &&& forall|l: LocalNodeIndex|
            self.has(l) && l != to ==> #[trigger] after.node(l) == self.node(l)
        &&& after.node(to).global == self.node(to).global
        &&& after.node(to).children == self.node(to).children
        &&& after.node(to).width == self.node(to).width
        &&& after.node(to).ready == self.node(to).ready
        &&& match self.node(to).operator {
            NodeOperator::Reader(before) => after.node(to).operator matches NodeOperator::Reader(
                reader,
            ) && reader.source() == before.source() && reader.key_columns()
                == before.key_columns() && reader@.waiters == before@.waiters && reader@.state
                == match before@.state {
                Some(m) => Some(m.apply(delta)),
                None => None,
            },
            _ => after.node(to).operator == self.node(to).operator,
        }
        &&& forall|l: LocalNodeIndex|
            l != to ==> #[trigger] after.states.model(l) == self.states.model(l)
        &&& forall|l: LocalNodeIndex|
            l != to ==> #[trigger] after.accumulators.model(l) == self.accumulators.model(l)
        &&& after.accumulators.model(to) == if self.node(to).operator is Aggregation {
            c.own
        } else {
            self.accumulators.model(to)
        }
        &&& after.states.model(to) == if self.node(to).operator is TopK {
            c.own
        } else {
            match self.states.model(to) {
                Some(m) => Some(m.apply(c.out)),
                None => None,
            }
        }
    }

    /// A domain that differs from a sound one at the node `to` only, and is sound there, is
    /// sound.
    pub proof fn lemma_wf_frame(self, after: Domain, to: LocalNodeIndex)
        requires
            self.wf(),
            self.has(to),
            after.nodes@.len() == self.nodes@.len(),
            after.replay.wf(),
            after.states.wf(),
            after.accumulators.wf(),
            forall|l: LocalNodeIndex|
                self.has(l) && l != to ==> #[trigger] after.node(l) == self.node(l),
            after.node(to).width == self.node(to).width,
            after.node(to).operator == self.node(to).operator || (
            after.node(to).operator matches NodeOperator::Reader(r) && r.wf()),
            forall|l: LocalNodeIndex|
                l != to ==> #[trigger] after.states.model(l) == self.states.model(l),
            forall|l: LocalNodeIndex|
                l != to ==> #[trigger] after.accumulators.model(l) == self.accumulators.model(l),
            after.states.model(to) matches Some(m) ==> m.wf() && m.uniform(
                self.node(to).width as nat,
            ),
            after.accumulators.model(to) matches Some(m) ==> (
            after.node(to).operator matches NodeOperator::Aggregation(a) ==> a.coherent(m)),
        ensures
            after.wf(),
    {
        assert forall|l: LocalNodeIndex|
            after.has(l) && (#[trigger] after.states.model(l)).is_some() implies after.states.model(
            l,
        ).unwrap().uniform(after.node(l).width as nat) && after.states.model(l).unwrap().wf() by {
            if l != to {
                assert(after.states.model(l) == self.states.model(l));
                assert(after.node(l) == self.node(l));
            }
        }
        assert forall|l: LocalNodeIndex|
            after.has(l) && (#[trigger] after.accumulators.model(l)).is_some() implies (
        after.node(l).operator matches NodeOperator::Aggregation(a) ==> a.coherent(
            after.accumulators.model(l).unwrap(),
        )) by {
            if l != to {
                assert(after.accumulators.model(l) == self.accumulators.model(l));
                assert(after.node(l) == self.node(l));
            }
        }
        assert forall|l: LocalNodeIndex| after.has(l) implies (
        #[trigger] after.node(l).operator matches NodeOperator::Reader(r) ==> r.wf()) by {
            if l != to {
                assert(after.node(l) == self.node(l));
            }
        }
        assert forall|l: LocalNodeIndex| !after.has(l) implies (
        #[trigger] after.states.model(l)).is_none() by {
            assert(l != to);
            assert(after.states.model(l) == self.states.model(l));
        }
        assert forall|l: LocalNodeIndex| !after.has(l) implies (
        #[trigger] after.accumulators.model(l)).is_none() by {
            assert(l != to);
            assert(after.accumulators.model(l) == self.accumulators.model(l));
        }
    }

    /// A domain with the nodes of a sound one, and with states that stand for the same, is
    /// sound.
    pub proof fn lemma_wf_same_models(self, after: Domain)
        requires
            self.wf(),
            after.nodes == self.nodes,
            after.replay.wf(),
            after.states.wf(),
            after.accumulators.wf(),
            forall|l: LocalNodeIndex| #[trigger] after.states.model(l) == self.states.model(l),
            forall|l: LocalNodeIndex| #[trigger]
                after.accumulators.model(l) == self.accumulators.model(l),
        ensures
            after.wf(),
    {
        assert forall|l: LocalNodeIndex|
            after.has(l) && (#[trigger] after.states.model(l)).is_some() implies after.states.model(
            l,
        ).unwrap().uniform(after.node(l).width as nat) && after.states.model(l).unwrap().wf() by {
            assert(after.states.model(l) == self.states.model(l));
        }
        assert forall|l: LocalNodeIndex|
            after.has(l) && (#[trigger] after.accumulators.model(l)).is_some() implies (
        after.node(l).operator matches NodeOperator::Aggregation(a) ==> a.coherent(
            after.accumulators.model(l).unwrap(),
        )) by {
            assert(after.accumulators.model(l) == self.accumulators.model(l));
        }
        assert forall|l: LocalNodeIndex| after.has(l) implies (
        #[trigger] after.node(l).operator matches NodeOperator::Reader(r) ==> r.wf()) by {
            assert(after.node(l) == self.node(l));
        }
        assert forall|l: LocalNodeIndex| !after.has(l) implies (
        #[trigger] after.states.model(l)).is_none() by {
            assert(after.states.model(l) == self.states.model(l));
        }
        assert forall|l: LocalNodeIndex| !after.has(l) implies (
        #[trigger] after.accumulators.model(l)).is_none() by {
            assert(after.accumulators.model(l) == self.accumulators.model(l));
        }
    }

    /// What an aggregation makes of a batch; what it remembers of its groups is brought up
    /// to date.
    fn deliver_aggregation(&mut self, to: LocalNodeIndex, from: LocalNodeIndex, rs: Vec<Record>) -> (p:
        ProcessingResult)
        requires
            old(self).wf(),
            old(self).deliverable(to, from, rs.deep_view()),
            old(self).node(to).operator is Aggregation,
        ensures
            final(self).wf(),
            final(self).nodes == old(self).nodes,
            final(self).states == old(self).states,
            final(self).replay == old(self).replay,
            final(self).index == old(self).index,
            final(self).shard == old(self).shard,
            p.delta() == old(self).computed(to, from, rs.deep_view()).out,
            p.missed() == old(self).computed(to, from, rs.deep_view()).misses,
            p.refused() == old(self).computed(to, from, rs.deep_view()).rejected,
            final(self).accumulators.model(to) == old(self).computed(
                to,
                from,
                rs.deep_view(),
            ).own,
            forall|l: LocalNodeIndex|
                l != to ==> #[trigger] final(self).accumulators.model(l) == old(self).accumulators.model(l),
    {
        let t: usize = to.id();
        let mut own = self.accumulators.take(to).unwrap();
        let p = match &self.nodes[t].operator {
            NodeOperator::Aggregation(o) => {
                proof {
                    assert(o.accepts(rs.deep_view()));
                }
                o.on_input(to, rs, &mut own)
            },
            _ => ProcessingResult::default(),
        };
        self.accumulators.insert(to, own);
        proof {
            old(self).lemma_wf_frame(*self, to);
        }
        p
    }

    /// What a top-k makes of a batch; the best rows that it keeps are brought up to date.
    fn deliver_topk(&mut self, to: LocalNodeIndex, from: LocalNodeIndex, rs: Vec<Record>) -> (p:
        ProcessingResult)
        requires
            old(self).wf(),
            old(self).deliverable(to, from, rs.deep_view()),
            old(self).node(to).operator is TopK,
        ensures
            final(self).wf(),
            final(self).nodes == old(self).nodes,
            final(self).accumulators == old(self).accumulators,
            final(self).replay == old(self).replay,
            final(self).index == old(self).index,
            final(self).shard == old(self).shard,
            p.delta() == old(self).computed(to, from, rs.deep_view()).out,
            p.missed() == old(self).computed(to, from, rs.deep_view()).misses,
            p.refused() == old(self).computed(to, from, rs.deep_view()).rejected,
            final(self).states.model(to) == old(self).computed(to, from, rs.deep_view()).own,
            forall|l: LocalNodeIndex|
                l != to ==> #[trigger] final(self).states.model(l) == old(self).states.model(l),
    {
        let t: usize = to.id();
        let ghost delta = rs.deep_view();
        let ghost width = self.node(to).width as nat;
        let ghost start = self.states.model(to).unwrap();
        let mut own = self.states.take(to).unwrap();
        let p = match &self.nodes[t].operator {
            NodeOperator::TopK(o) => {
                let ghost above = o.source().spec_local().unwrap();
                let ghost parent = old(self).states.model(above).unwrap();
                proof {
                    assert(self.states.model(above) == old(self).states.model(above));
                    assert(old(self).has(above));
                    assert(parent.uniform(old(self).node(above).width as nat));
                    assert(o.state_fits(parent));
                    assert(o.accepts(delta));
                    assert(start.uniform(width));
                    o.lemma_run_uniform(to, above, start, parent, delta, width);
                }
                o.on_input(to, rs, &mut own, &self.states)
            },
            _ => ProcessingResult::default(),
        };
        self.states.insert(to, own);
        proof {
            assert(p.refused() =~= Seq::<SignedRow>::empty());
            old(self).lemma_wf_frame(*self, to);
        }
        p
    }

    /// Applies a batch to the state of a reader.
    fn deliver_reader(&mut self, to: LocalNodeIndex, from: LocalNodeIndex, rs: &Vec<Record>)
        requires
            old(self).wf(),
            old(self).deliverable(to, from, rs.deep_view()),
            old(self).node(to).operator is Reader,
        ensures
            final(self).wf(),
            final(self).states == old(self).states,
            final(self).accumulators == old(self).accumulators,
            final(self).replay == old(self).replay,
            final(self).index == old(self).index,
            final(self).shard == old(self).shard,
            final(self).nodes@.len() == old(self).nodes@.len(),
            forall|l: LocalNodeIndex|
                old(self).has(l) && l != to ==> #[trigger] final(self).node(l) == old(self).node(l),
            final(self).node(to).global == old(self).node(to).global,
            final(self).node(to).children == old(self).node(to).children,
            final(self).node(to).width == old(self).node(to).width,
            final(self).node(to).ready == old(self).node(to).ready,
            final(self).node(to).operator matches NodeOperator::Reader(reader) && reader.source()
                == old(self).node(to).operator->Reader_0.source() && reader.key_columns() == old(self).node(to).operator->Reader_0.key_columns() && reader@.waiters == old(self).node(
                to,
            ).operator->Reader_0@.waiters && reader@.state == match old(self).node(
                to,
            ).operator->Reader_0@.state {
                Some(m) => Some(m.apply(rs.deep_view())),
                None => None,
            },
    {
        let t: usize = to.id();
        let ghost before = self.nodes@;
        match &mut self.nodes[t].operator {
            NodeOperator::Reader(r) => {
                proof {
                    r.lemma_wf();
                }
                r.on_input(rs);
            },
            _ => {},
        }
        proof {
            assert forall|l: LocalNodeIndex|
                old(self).has(l) && l != to implies #[trigger] self.node(l) == old(self).node(
                l,
            ) by {
                if l.spec_id() == to.spec_id() {
                    LocalNodeIndex::lemma_id_injective(l, to);
                }
            }
            old(self).lemma_wf_frame(*self, to);
        }
    }

    /// Takes in the batch `rs` that the node `from` sends to the node `to`: the operator of
    /// `to` is run on the batch, what it keeps for itself is brought up to date, and its
    /// output is applied to its materialized output if it has one. What the node made of
    /// the batch is handed back; the records of the delivery go on to the children of the
    /// node. The batch is refused where the domain does not have the nodes, where `to` is
    /// not ready, and where the domain is not in the shape that the operator needs; then
    /// the domain is not to be used further.
    pub fn dispatch(&mut self, to: LocalNodeIndex, from: LocalNodeIndex, rs: Vec<Record>) -> (r:
        Result<Delivery, DomainError>)
        requires
            old(self).wf(),
        ensures
            final(self).wf(),
            r.is_ok() == (old(self).deliverable(to, from, rs.deep_view()) && old(self).applicable(
                to,
                old(self).computed(to, from, rs.deep_view()).out,
            )),
            r.is_err() ==> r.unwrap_err() == (if old(self).deliverable(to, from, rs.deep_view()) {
                DomainError::InvariantViolation
            } else {
                old(self).refusal(to, from)
            }),
            r.is_ok() ==> old(self).delivered(*final(self), to, from, rs.deep_view(), r.unwrap()),
            !old(self).deliverable(to, from, rs.deep_view()) ==> *final(self) == *old(self),
    {
        match self.check(to, from, &rs) {
            Err(e) => {
                return Err(e);
            },
            Ok(()) => {},
        }
        let t: usize = to.id();
        let ghost delta = rs.deep_view();
        let ghost expected = self.computed(to, from, delta);
        let aggregation: bool = match &self.nodes[t].operator {
            NodeOperator::Aggregation(_) => true,
            _ => false,
        };
        let topk: bool = match &self.nodes[t].operator {
            NodeOperator::TopK(_) => true,
            _ => false,
        };
        let reader: bool = self.nodes[t].operator.is_reader();
        let d = if aggregation {
            Delivery::plain(self.deliver_aggregation(to, from, rs))
        } else if topk {
            Delivery::plain(self.deliver_topk(to, from, rs))
        } else if reader {
            self.deliver_reader(to, from, &rs);
            Delivery {
                results: Vec::new(),
                misses: Vec::new(),
                rejected: Vec::new(),
                egress: Vec::new(),
                shards: Vec::new(),
            }
        } else {
            self.deliver_plain(to, from, rs)
        };
        proof {
            assert(d.results.deep_view() =~= expected.out);
            assert(d.misses.deep_view() =~= expected.misses);
            assert(d.rejected.deep_view() =~= expected.rejected);
            assert(d.sent_to() =~= expected.egress);
            assert(d.shared() =~= expected.shards);
        }
        let ghost computed_domain = *self;
        proof {
            assert forall|l: LocalNodeIndex|
                old(self).has(l) && l != to implies #[trigger] computed_domain.node(l) == old(self).node(l) by {}
            assert(computed_domain.node(to).width == old(self).node(to).width);
            if !reader {
                assert(computed_domain.nodes == old(self).nodes);
            }
            assert forall|l: LocalNodeIndex| l != to implies #[trigger] computed_domain.states.model(
                l,
            ) == old(self).states.model(l) by {}
            assert forall|l: LocalNodeIndex|
                l != to implies #[trigger] computed_domain.accumulators.model(l) == old(self).accumulators.model(l) by {}
        }
        if !topk {
            let width: usize = self.nodes[t].width;
            match self.states.take(to) {
                Some(mut own) => {
                    let ghost mid = *self;
                    if !check_rows_have_width(&d.results, width) || !check_columns_within(
                        own.key_columns(),
                        width,
                    ) {
                        self.states.insert(to, own);
                        proof {
                            computed_domain.lemma_wf_frame(*self, to);
                        }
                        return Err(DomainError::InvariantViolation);
                    }
                    proof {
                        own@.lemma_apply_wf(expected.out);
                        own@.lemma_uniform_apply(expected.out, width as nat);
                    }
                    own.apply(&d.results);
                    self.states.insert(to, own);
                    proof {
                        computed_domain.lemma_wf_frame(*self, to);
                    }
                },
                None => {
                    proof {
                        computed_domain.lemma_wf_frame(*self, to);
                    }
                },
            }
        }
        proof {
            assert(self.nodes == computed_domain.nodes);
            assert forall|l: LocalNodeIndex|
                old(self).has(l) && l != to implies #[trigger] self.node(l) == old(self).node(
                l,
            ) by {
                assert(self.node(l) == computed_domain.node(l));
            }
            assert forall|l: LocalNodeIndex| l != to implies #[trigger] self.states.model(l)
                == old(self).states.model(l) by {
                assert(self.states.model(l) == computed_domain.states.model(l));
            }
            assert forall|l: LocalNodeIndex| l != to implies #[trigger] self.accumulators.model(
                l,
            ) == old(self).accumulators.model(l) by {
                assert(self.accumulators.model(l) == computed_domain.accumulators.model(l));
            }
        }
        Ok(d)
    }

    /// Whether the base `base` can take writes: it is a sound base of as many columns as
    /// its node has, it is ready, and its state is full and keyed on its primary key.
    pub open spec fn writable(self, base: LocalNodeIndex) -> bool {
        &&& self.has(base)
        &&& self.node(base).ready
        &&& self.node(base).operator matches NodeOperator::Base(b)
        &&& self.node(base).operator->Base_0.wf()
        &&& self.node(base).operator->Base_0.width() == self.node(base).width
        &&& self.states.model(base).is_some()
        &&& self.states.model(base).unwrap().key == self.node(base).operator->Base_0.key()
        &&& !self.states.model(base).unwrap().partial
    }

    /// Whether the writes `ops` to the base `base`, which can take them, lead from the domain
    /// `self` to the domain `after`, with the base emitting `records` and rejecting the
    /// writes at the positions `rejected`: the base was run on the writes, and its state is
    /// what the run has left. Nothing else has changed.
    pub open spec fn wrote(
        self,
        after: Domain,
        base: LocalNodeIndex,
        ops: Seq<crate::ops::base::Write>,
        records: Delta,
        rejected: Seq<usize>,
    ) -> bool {
        let b = self.node(base).operator->Base_0;
        let run = b.run(self.states.model(base).unwrap(), ops);
        &&& records == run.out
        &&& rejected.map_values(|p: usize| p as nat) == run.rejected
        &&& after.states.model(base) == Some(run.state)
        &&& forall|l: LocalNodeIndex|
            l != base ==> #[trigger] after.states.model(l) == self.states.model(l)
        &&& after.nodes == self.nodes
        &&& after.accumulators == self.accumulators
        &&& after.replay == self.replay
        &&& after.index == self.index
        &&& after.shard == self.shard
    }

    /// Takes in a batch of writes to the base `base`: the base is run on the writes and
    /// keeps its state up to date. The records that the base emits, which go on to its
    /// children, are handed back with the positions of the writes that it rejected. The
    /// batch is refused, and nothing changes, where the domain has no such node, where the
    /// node is not ready, and where it is no base that can take writes.
    pub fn input(&mut self, base: LocalNodeIndex, ops: &Vec<TableOperation>) -> (r: Result<
        (Vec<Record>, Vec<usize>),
        DomainError,
    >)
        requires
            old(self).wf(),
        ensures
            final(self).wf(),
            r.is_ok() == old(self).writable(base),
            r.is_err() ==> *final(self) == *old(self) && r.unwrap_err() == old(self).refusal(
                base,
                base,
            ),
            r.is_ok() ==> {
                let b = old(self).node(base).operator->Base_0;
                let run = b.run(old(self).states.model(base).unwrap(), ops.deep_view());
                &&& r.unwrap().0.deep_view() == run.out
                &&& r.unwrap().1@.map_values(|p: usize| p as nat) == run.rejected
                &&& final(self).states.model(base) == Some(run.state)
                &&& forall|l: LocalNodeIndex|
                    l != base ==> #[trigger] final(self).states.model(l) == old(self).states.model(l)
                &&& final(self).nodes == old(self).nodes
                &&& final(self).accumulators == old(self).accumulators
                &&& final(self).replay == old(self).replay
                &&& final(self).index == old(self).index
                &&& final(self).shard == old(self).shard
            },
    {
        let t: usize = base.id();
        if t >= self.nodes.len() {
            return Err(DomainError::UnknownNode);
        }
        if !self.nodes[t].ready {
            return Err(DomainError::NotReady);
        }
        let ok: bool = match &self.nodes[t].operator {
            NodeOperator::Base(b) => {
                b.is_sound() && b.columns() == self.nodes[t].width && match self.states.get(base) {
                    Some(s) => crate::data::same_columns(s.key_columns(), b.primary_key())
                        && !s.is_partial(),
                    None => false,
                }
            },
            _ => false,
        };
        if !ok {
            return Err(DomainError::InvariantViolation);
        }
        let ghost start = self.states.model(base).unwrap();
        let mut own = self.states.take(base).unwrap();
        let out = match &self.nodes[t].operator {
            NodeOperator::Base(b) => {
                proof {
                    b.lemma_run_uniform(start, ops.deep_view());
                }
                b.on_input(ops, &mut own)
            },
            _ => (Vec::new(), Vec::new()),
        };
        self.states.insert(base, own);
        proof {
            old(self).lemma_wf_frame(*self, base);
        }
        Ok(out)
    }

    /// Whether giving the node `node` a state keyed on `key`, as [`Self::prepare_state`] does,
    /// leads from the domain `self` to the domain `after` and gives `r`.
    pub open spec fn prepared(self, after: Domain, node: LocalNodeIndex, key: Vec<usize>, partial: bool, r: Result<(), DomainError>) -> bool {
        &&& (r.is_ok() == (self.has(node) && columns_within(
                key@,
                self.node(node).width as nat,
            )))
        &&& (r.is_err() ==> after == self && r.unwrap_err() == (if !self.has(
                node,
            ) {
                DomainError::UnknownNode
            } else {
                DomainError::InvariantViolation
            }))
        &&& (r.is_ok() ==> {
                &&& after.nodes@.len() == self.nodes@.len()
                &&& after.accumulators == self.accumulators
                &&& after.replay == self.replay
                &&& forall|l: LocalNodeIndex|
                    self.has(l) && l != node ==> #[trigger] after.node(l) == self.node(l)
                &&& forall|l: LocalNodeIndex|
                    l != node ==> #[trigger] after.states.model(l) == self.states.model(l)
                &&& match self.node(node).operator {
                    NodeOperator::Reader(before) => {
                        &&& after.states.model(node) == self.states.model(node)
                        &&& after.node(node).operator matches NodeOperator::Reader(reader)
                        &&& after.node(node).operator->Reader_0@.waiters == before@.waiters
                        &&& after.node(node).operator->Reader_0.source() == before.source()
                        &&& after.node(node).operator->Reader_0.key_columns()
                            == before.key_columns()
                        &&& after.node(node).operator->Reader_0@.state == if before@.state.is_some() {
                            before@.state
                        } else {
                            Some(Materialized::empty(before.key_columns(), partial))
                        }
                    },
                    _ => after.states.model(node) == Some(Materialized::empty(key@, partial))
                        && after.node(node) == self.node(node),
                }
            })
    }

    /// Gives the node `node` an empty state keyed on the columns `key`, partial or full, in
    /// place of the state that it had. A reader is primed instead, if it was not. Refused,
    /// and nothing changes, where the domain has no such node or the node does not have the
    /// key columns.
    pub fn prepare_state(&mut self, node: LocalNodeIndex, key: Vec<usize>, partial: bool) -> (r:
        Result<(), DomainError>)
        requires
            old(self).wf(),
        ensures
            final(self).wf(),
            old(self).prepared(*final(self), node, key, partial, r),
    {
        let t: usize = node.id();
        if t >= self.nodes.len() {
            return Err(DomainError::UnknownNode);
        }
        if !check_columns_within(&key, self.nodes[t].width) {
            return Err(DomainError::InvariantViolation);
        }
        if self.nodes[t].operator.is_reader() {
            match &mut self.nodes[t].operator {
                NodeOperator::Reader(r) => {
                    r.prime(partial);
                },
                _ => {},
            }
            proof {
                assert forall|l: LocalNodeIndex|
                    old(self).has(l) && l != node implies #[trigger] self.node(l) == old(self).node(l) by {
                    if l.spec_id() == node.spec_id() {
                        LocalNodeIndex::lemma_id_injective(l, node);
                    }
                }
                old(self).lemma_wf_frame(*self, node);
            }
        } else {
            let state = State::new(key, partial);
            self.states.insert(node, state);
            proof {
                old(self).lemma_wf_frame(*self, node);
            }
        }
        Ok(())
    }

    /// Whether marking the node `node` as ready, as [`Self::mark_ready`] does, leads from the
    /// domain `self` to the domain `after` and gives `known`.
    pub open spec fn readied(self, after: Domain, node: LocalNodeIndex, known: bool) -> bool {
        &&& (known == self.has(node))
        &&& (!known ==> after == self)
        &&& (known ==> {
                &&& after.nodes@.len() == self.nodes@.len()
                &&& after.states == self.states
                &&& after.accumulators == self.accumulators
                &&& after.replay == self.replay
                &&& forall|l: LocalNodeIndex|
                    self.has(l) && l != node ==> #[trigger] after.node(l) == self.node(l)
                &&& after.node(node).ready
                &&& after.node(node).operator == self.node(node).operator
                &&& after.node(node).children == self.node(node).children
                &&& after.node(node).width == self.node(node).width
                &&& after.node(node).global == self.node(node).global
            })
    }

    /// Marks the node `node` as ready to take packets. Returns whether the domain has the
    /// node.
    pub fn mark_ready(&mut self, node: LocalNodeIndex) -> (known: bool)
        requires
            old(self).wf(),
        ensures
            final(self).wf(),
            old(self).readied(*final(self), node, known),
    {
        let t: usize = node.id();
        if t >= self.nodes.len() {
            return false;
        }
        self.nodes[t].ready = true;
        proof {
            assert forall|l: LocalNodeIndex|
                old(self).has(l) && l != node implies #[trigger] self.node(l) == old(self).node(
                l,
            ) by {
                if l.spec_id() == node.spec_id() {
                    LocalNodeIndex::lemma_id_injective(l, node);
                }
            }
            old(self).lemma_wf_frame(*self, node);
        }
        true
    }

    /// Whether evicting `key` from the node `node`, as [`Self::evict`] does, leads from the
    /// domain `self` to the domain `after` and gives `evicted`: the key is a hole of the
    /// state of a reader, or of the materialized output of another node, from then on, and
    /// nothing else changes.
    pub open spec fn evicted(
        self,
        after: Domain,
        node: LocalNodeIndex,
        key: Vec<DataType>,
        evicted: bool,
    ) -> bool {
        &&& after.accumulators == self.accumulators
        &&& after.replay == self.replay
        &&& after.index == self.index
        &&& after.shard == self.shard
        &&& after.nodes@.len() == self.nodes@.len()
        &&& forall|l: LocalNodeIndex|
            self.has(l) && l != node ==> #[trigger] after.node(l) == self.node(l)
        &&& forall|l: LocalNodeIndex|
            l != node ==> #[trigger] after.states.model(l) == self.states.model(l)
        &&& if self.has(node) && self.node(node).operator is Reader {
            let before = self.node(node).operator->Reader_0;
            &&& after.states == self.states
            &&& after.node(node).global == self.node(node).global
            &&& after.node(node).children == self.node(node).children
            &&& after.node(node).width == self.node(node).width
            &&& after.node(node).ready == self.node(node).ready
            &&& after.node(node).operator matches NodeOperator::Reader(reader)
            &&& after.node(node).operator->Reader_0.source() == before.source()
            &&& after.node(node).operator->Reader_0.key_columns() == before.key_columns()
            &&& after.node(node).operator->Reader_0@.waiters == before@.waiters
            &&& after.node(node).operator->Reader_0@.state == match before@.state {
                Some(m) => Some(m.evict(key.deep_view())),
                None => None,
            }
            &&& evicted == match before@.state {
                Some(m) => m.partial && m.rows.dom().contains(key.deep_view()),
                None => false,
            }
        } else {
            &&& after.nodes == self.nodes
            &&& after.states.model(node) == match self.states.model(node) {
                Some(m) => Some(m.evict(key.deep_view())),
                None => None,
            }
            &&& evicted == match self.states.model(node) {
                Some(m) => m.partial && m.rows.dom().contains(key.deep_view()),
                None => false,
            }
        }
    }

    /// Evicts the key `key` from the node `node`: from the state of a reader, or from the
    /// materialized output of another node, if that is partial. Returns whether the state
    /// knew the key and could evict it.
    pub fn evict(&mut self, node: LocalNodeIndex, key: &Vec<DataType>) -> (evicted: bool)
        requires
            old(self).wf(),
        ensures
            final(self).wf(),
            old(self).evicted(*final(self), node, *key, evicted),
    {
        let t: usize = node.id();
        if t < self.nodes.len() && self.nodes[t].operator.is_reader() {
            assert(self.node(node) == self.nodes@[t as int]);
            let mut evicted: bool = false;
            match &mut self.nodes[t].operator {
                NodeOperator::Reader(r) => {
                    evicted = r.evict(key);
                },
                _ => {},
            }
            proof {
                assert forall|l: LocalNodeIndex|
                    old(self).has(l) && l != node implies #[trigger] self.node(l) == old(
                    self,
                ).node(l) by {
                    if l.spec_id() == node.spec_id() {
                        LocalNodeIndex::lemma_id_injective(l, node);
                    }
                }
                old(self).lemma_wf_frame(*self, node);
            }
            return evicted;
        }
        match self.states.take(node) {
            Some(mut s) => {
                proof {
                    s@.lemma_uniform_put(
                        key.deep_view(),
                        Seq::<Row>::empty(),
                        self.node(node).width as nat,
                    );
                }
                let evicted = s.evict(key);
                self.states.insert(node, s);
                proof {
                    old(self).lemma_wf_frame(*self, node);
                }
                evicted
            },
            None => {
                proof {
                    old(self).lemma_wf_same_models(*self);
                }
                false
            },
        }
    }

    /// Whether every one of `rows` has `width` values.
    pub open spec fn rows_have_width_rows(rows: Seq<Row>, width: nat) -> bool {
        forall|i: int| 0 <= i < rows.len() ==> (#[trigger] rows[i]).len() == width
    }

    /// Whether taking in the replay of `key` along `tag` for the materialized output of the
    /// node `dst`, as [`Self::install_replay`] does, leads from the domain `self` to the
    /// domain `after` and gives `r`.
    pub open spec fn installed(self, after: Domain, tag: Tag, dst: LocalNodeIndex, key: Vec<DataType>, rows: Vec<Vec<DataType>>, now: u64, r: Result<Option<RequestPartialReplay>, DomainError>) -> bool {
        &&& (after.nodes == self.nodes)
        &&& (after.accumulators == self.accumulators)
        &&& (r.is_ok() == (self.has(dst) && self.states.model(dst).is_some() && self.states.model(dst).unwrap().files_under(key.deep_view(), rows.deep_view()) && (forall|
                i: int,
            |
                0 <= i < rows.deep_view().len() ==> (#[trigger] rows.deep_view()[i]).len() == self.node(dst).width) && self.replay@.flying(
                Wanted { tag, key: key.deep_view() },
            )))
        &&& (r.is_err() ==> after == self && r.unwrap_err() == (if !self.has(dst) {
            DomainError::UnknownNode
        } else if self.replay@.flying(Wanted { tag, key: key.deep_view() }) || self.states.model(
            dst,
        ).is_none() || !self.states.model(dst).unwrap().files_under(
            key.deep_view(),
            rows.deep_view(),
        ) || !Self::rows_have_width_rows(rows.deep_view(), self.node(dst).width as nat) {
            DomainError::InvariantViolation
        } else {
            DomainError::UnknownReplay
        }))
        &&& (r.is_ok() ==> {
                &&& after.replay@ == self.replay@.arrive(
                    Wanted { tag, key: key.deep_view() },
                    now,
                )
                &&& match r.unwrap() {
                    Some(next) => self.replay@.queued.len() > 0 && next@ == self.replay@.queued[0],
                    None => self.replay@.queued.len() == 0,
                }
                &&& after.states.model(dst) == Some(
                    self.states.model(dst).unwrap().install(
                        key.deep_view(),
                        rows.deep_view(),
                    ),
                )
                &&& forall|l: LocalNodeIndex|
                    l != dst ==> #[trigger] after.states.model(l) == self.states.model(l)
            })
    }

    /// Takes in what the replay of `key` along `tag` has brought for the materialized output
    /// of the node `dst`, at the time `now`: the request is retired, the key is filled and
    /// holds the rows `rows`. The request that has waited longest, if any, is handed back to
    /// be sent. Refused, and nothing changes, where nobody had asked for the replay, where
    /// the node has no materialized output, and where the rows do not belong under the key
    /// or have another width than the node.
    pub fn install_replay(
        &mut self,
        tag: Tag,
        dst: LocalNodeIndex,
        key: &Vec<DataType>,
        rows: Vec<Vec<DataType>>,
        now: u64,
    ) -> (r: Result<Option<RequestPartialReplay>, DomainError>)
        requires
            old(self).wf(),
        ensures
            final(self).wf(),
            old(self).installed(*final(self), tag, dst, *key, rows, now, r),
    {
        let t: usize = dst.id();
        if t >= self.nodes.len() {
            return Err(DomainError::UnknownNode);
        }
        let width: usize = self.nodes[t].width;
        let fits: bool = match self.states.get(dst) {
            Some(s) => {
                assert(rows.deep_view().len() == rows@.len());
                let mut uniform: bool = true;
                let mut i: usize = 0;
                while i < rows.len()
                    invariant
                        i <= rows@.len(),
                        rows.deep_view().len() == rows@.len(),
                        uniform == forall|j: int|
                            0 <= j < i ==> (#[trigger] rows.deep_view()[j]).len() == width,
                    decreases rows@.len() - i,
                {
                    proof {
                        assert(rows.deep_view()[i as int] == rows@[i as int].deep_view());
                        assert(rows@[i as int].deep_view().len() == rows@[i as int]@.len());
                    }
                    if rows[i].len() != width {
                        uniform = false;
                    }
                    i += 1;
                }
                uniform && s.check_files_under(key, &rows)
            },
            None => false,
        };
        if !fits {
            return Err(DomainError::InvariantViolation);
        }
        if !self.replay.is_under_way(tag, key) {
            return Err(DomainError::UnknownReplay);
        }
        let next = match self.replay.on_arrival(tag, key, now) {
            Ok(next) => next,
            Err(_) => None,
        };
        let mut s = self.states.take(dst).unwrap();
        proof {
            s@.lemma_uniform_put(key.deep_view(), rows.deep_view(), width as nat);
        }
        s.install(key, rows);
        self.states.insert(dst, s);
        proof {
            old(self).lemma_wf_frame(*self, dst);
        }
        Ok(next)
    }

    /// The batches that go on from the node `to` when it has emitted `out`: `out` to each of
    /// its children, in their order.
    pub open spec fn forwards(self, to: LocalNodeIndex, out: Delta) -> Seq<Batch> {
        Seq::new(
            self.node(to).children@.len(),
            |i: int| Batch { to: self.node(to).children@[i], from: to, delta: out },
        )
    }

    /// The batches that are to be delivered when the batches `first` have come in and the
    /// deliveries `steps` have been made: `first`, and after them what went on from each
    /// delivery, in the order of the deliveries.
    pub open spec fn queue_of(self, first: Seq<Batch>, steps: Seq<(Batch, Delivery)>) -> Seq<Batch>
        decreases steps.len(),
    {
        if steps.len() == 0 {
            first
        } else {
            self.queue_of(first, steps.drop_last()) + self.forwards(
                steps.last().0.to,
                steps.last().1.results.deep_view(),
            )
        }
    }

    /// Holds of every domain: it marks the domains that a run of deliveries passes through.
    pub open spec fn passes_through(d: Domain) -> bool {
        true
    }

    /// Whether the deliveries `steps`, made one after the other, lead from the domain `self`
    /// to the domain `after`.
    pub open spec fn reached(self, after: Domain, steps: Seq<(Batch, Delivery)>) -> bool
        decreases steps.len(),
    {
        if steps.len() == 0 {
            after == self
        } else {
            exists|before: Domain|
                (#[trigger] Self::passes_through(before)) && self.reached(
                    before,
                    steps.drop_last(),
                ) && before.delivered(
                    after,
                    steps.last().0.to,
                    steps.last().0.from,
                    steps.last().0.delta,
                    steps.last().1,
                )
        }
    }

    /// The first `k` deliveries of `log`, each with the batch that it was made of: the
    /// batches are taken from the queue in order.
    pub open spec fn steps_of(self, first: Seq<Batch>, log: Seq<Delivery>, k: int) -> Seq<
        (Batch, Delivery),
    >
        decreases k,
    {
        if k <= 0 {
            Seq::empty()
        } else {
            let before = self.steps_of(first, log, k - 1);
            before.push((self.queue_of(first, before)[k - 1], log[k - 1]))
        }
    }

    /// The misses of the deliveries `log`, in the order of the deliveries.
    pub open spec fn misses_of(log: Seq<Delivery>) -> Seq<MissView>
        decreases log.len(),
    {
        if log.len() == 0 {
            Seq::empty()
        } else {
            Self::misses_of(log.drop_last()) + log.last().misses.deep_view()
        }
    }

    /// Whether asking for the replays that the misses of the deliveries `log` want, at the
    /// time `now` and with the replay paths `paths`, leads from the domain `self` to the
    /// domain `after` and gives `r`: the requests that are to be sent now, or the error that
    /// a miss has no replay path, with which nothing is noted. Only what the domain knows
    /// of its requests changes.
    pub open spec fn asked(
        self,
        after: Domain,
        paths: Seq<crate::replay::PathView>,
        log: Seq<Delivery>,
        now: u64,
        r: Result<Vec<RequestPartialReplay>, ReplayError>,
    ) -> bool {
        &&& after.nodes == self.nodes
        &&& after.states == self.states
        &&& after.accumulators == self.accumulators
        &&& after.index == self.index
        &&& after.shard == self.shard
        &&& match wanted(paths, Self::misses_of(log)) {
            None => r == Err::<Vec<RequestPartialReplay>, ReplayError>(ReplayError::NoPath)
                && after.replay@ == self.replay@,
            Some(ws) => {
                &&& r.is_ok()
                &&& after.replay@ == self.replay@.misses(ws, now)
                &&& Seq::new(r.unwrap()@.len(), |i: int| r.unwrap()@[i]@)
                    == self.replay@.requested(ws, now)
            },
        }
    }

    /// Asks for the replays that the misses of the deliveries `log` want, at the time `now`:
    /// each miss asks for the replay of its key along the one of the paths `paths` that
    /// fills the state that missed. The requests that are to be sent now are handed back;
    /// see [`ReplayEngine::on_misses`]. Where a miss has no replay path nothing is noted
    /// and the error is handed back.
    pub fn request(&mut self, paths: &Vec<ReplayPath>, log: &Vec<Delivery>, now: u64) -> (r: Result<
        Vec<RequestPartialReplay>,
        ReplayError,
    >)
        requires
            old(self).wf(),
        ensures
            final(self).wf(),
            old(self).asked(*final(self), paths.deep_view(), log@, now, r),
    {
        let mut all: Vec<Miss> = Vec::new();
        let mut i: usize = 0;
        proof {
            assert(log@.take(0) =~= Seq::<Delivery>::empty());
            assert(all.deep_view() =~= Self::misses_of(log@.take(0)));
        }
        while i < log.len()
            invariant
                i <= log@.len(),
                *self == *old(self),
                all.deep_view() == Self::misses_of(log@.take(i as int)),
            decreases log@.len() - i,
        {
            let ghost before = all.deep_view();
            let mut j: usize = 0;
            proof {
                assert(log@.take(i + 1).drop_last() =~= log@.take(i as int));
                assert(log@.take(i + 1).last() == log@[i as int]);
                assert(all.deep_view() =~= before + log@[i as int].misses.deep_view().take(0));
            }
            while j < log[i].misses.len()
                invariant
                    i < log@.len(),
                    j <= log@[i as int].misses@.len(),
                    all.deep_view() == before + log@[i as int].misses.deep_view().take(j as int),
                decreases log@[i as int].misses@.len() - j,
            {
                let m = &log[i].misses[j];
                let copy = Miss { on: m.on, columns: m.columns.clone(), key: clone_row(&m.key) };
                let ghost so_far = all.deep_view();
                all.push(copy);
                proof {
                    assert(copy@ == log@[i as int].misses.deep_view()[j as int]);
                    assert(all.deep_view() =~= so_far.push(copy@));
                    assert(log@[i as int].misses.deep_view().take(j + 1) =~= log@[i as int].misses.deep_view().take(
                        j as int,
                    ).push(copy@));
                    assert(all.deep_view() =~= before + log@[i as int].misses.deep_view().take(
                        j + 1,
                    ));
                }
                j += 1;
            }
            proof {
                assert(log@[i as int].misses.deep_view().take(j as int) =~= log@[i as int].misses.deep_view());
            }
            i += 1;
        }
        proof {
            assert(log@.take(log@.len() as int) =~= log@);
        }
        let r = self.replay.on_misses(paths, &all, now);
        proof {
            old(self).lemma_wf_same_models(*self);
        }
        r
    }

    /// What the materialized output of the node `source` has for the replay of `key`, where
    /// it is keyed on the columns `columns`: the rows under the key, or nothing where the
    /// key is a hole there too.
    pub open spec fn served(self, source: LocalNodeIndex, columns: Seq<usize>, key: Row) -> Result<
        Option<Seq<Row>>,
        DomainError,
    > {
        if !self.has(source) {
            Err(DomainError::UnknownNode)
        } else if !self.node(source).ready {
            Err(DomainError::NotReady)
        } else if self.states.model(source).is_none() || self.states.model(source).unwrap().key
            != columns {
            Err(DomainError::InvariantViolation)
        } else {
            Ok(self.states.model(source).unwrap().lookup(key))
        }
    }

    /// Answers the request to replay `key` from the materialized output of the node
    /// `source`, which the replay path takes to be keyed on the columns `columns`. The rows
    /// under the key are handed back, to be sent down the path as a piece of the replay.
    /// Where the key is a hole of the source as well, nothing is handed back: the source
    /// has to be filled from further up first. Refused where the domain has no such node,
    /// where the node is not ready, and where it has no state that is keyed on the columns.
    pub fn serve(&self, source: LocalNodeIndex, columns: &Vec<usize>, key: &Vec<DataType>) -> (r:
        Result<Option<Vec<Vec<DataType>>>, DomainError>)
        requires
            self.wf(),
        ensures
            match self.served(source, columns@, key.deep_view()) {
                Err(e) => r == Err::<Option<Vec<Vec<DataType>>>, DomainError>(e),
                Ok(None) => r == Ok::<Option<Vec<Vec<DataType>>>, DomainError>(None),
                Ok(Some(rows)) => r.is_ok() && r.unwrap().is_some() && r.unwrap().unwrap().deep_view()
                    == rows,
            },
    {
        let t: usize = source.id();
        if t >= self.nodes.len() {
            return Err(DomainError::UnknownNode);
        }
        if !self.nodes[t].ready {
            return Err(DomainError::NotReady);
        }
        match self.states.get(source) {
            None => Err(DomainError::InvariantViolation),
            Some(s) => {
                if !crate::data::same_columns(s.key_columns(), columns) {
                    return Err(DomainError::InvariantViolation);
                }
                match s.lookup(key) {
                    LookupResult::Hit(rows) => Ok(Some(crate::data::clone_rows(rows))),
                    LookupResult::Miss => Ok(None),
                }
            },
        }
    }

    /// The batches that wait in `pending`, in their order.
    pub open spec fn batches(pending: Seq<Pending>) -> Seq<Batch> {
        Seq::new(
            pending.len(),
            |i: int|
                Batch {
                    to: pending[i].to,
                    from: pending[i].from,
                    delta: pending[i].records.deep_view(),
                },
        )
    }

    /// What holds of the deliveries `log` that a run from the batches `first` has made in
    /// the domain `self`, which it has left as `after`, and of how it ended: each delivery
    /// was made of the next batch of the queue. Without an error the queue was used up.
    /// With an error, the next batch was refused by the domain as it was then, or the
    /// limit `limit` was reached with batches left; the domain is then as the last
    /// delivery left it, unless the batch could be delivered and its output could not be
    /// applied.
    pub open spec fn ran(
        self,
        after: Domain,
        first: Seq<Batch>,
        limit: usize,
        log: Seq<Delivery>,
        error: Option<DomainError>,
    ) -> bool {
        let steps = self.steps_of(first, log, log.len() as int);
        let queue = self.queue_of(first, steps);
        &&& log.len() <= limit
        &&& steps.len() == log.len()
        &&& log.len() <= queue.len()
        &&& error.is_none() ==> queue.len() == log.len() && self.reached(after, steps)
        &&& error.is_some() ==> log.len() < queue.len() && exists|before: Domain|
            (#[trigger] Self::passes_through(before)) && self.reached(before, steps)
                && before.stopped_by(queue[log.len() as int], log.len() == limit, error.unwrap())
                && (log.len() == limit || !before.deliverable(
                queue[log.len() as int].to,
                queue[log.len() as int].from,
                queue[log.len() as int].delta,
            ) ==> after == before)
    }

    /// Whether the error `e` is what ends a run in the domain `self` at the batch `next`:
    /// the limit of the run is reached, which is an invariant violation, or the domain
    /// refuses the batch with `e`.
    pub open spec fn stopped_by(self, next: Batch, at_limit: bool, e: DomainError) -> bool {
        if at_limit {
            e == DomainError::InvariantViolation
        } else if !self.deliverable(next.to, next.from, next.delta) {
            e == self.refusal(next.to, next.from)
        } else {
            e == DomainError::InvariantViolation && !self.applicable(
                next.to,
                self.computed(next.to, next.from, next.delta).out,
            )
        }
    }

    /// Takes in the batch `rs` that the node `from` sends to the node `to`, and everything
    /// that follows from it within the domain: each delivery's records go on to the
    /// children of its node, and the batches are delivered in the order in which they came
    /// up, until none is left. The deliveries are handed back in the order in which they
    /// were made; they hold the misses and what is to be sent to other domains. No more
    /// than `limit` deliveries are made. Where a batch is refused, or the limit is reached
    /// with batches left, the error is handed back with the deliveries made until then.
    pub fn process(
        &mut self,
        to: LocalNodeIndex,
        from: LocalNodeIndex,
        rs: Vec<Record>,
        limit: usize,
    ) -> (r: (Vec<Delivery>, Option<DomainError>))
        requires
            old(self).wf(),
        ensures
            final(self).wf(),
            old(self).ran(
                *final(self),
                seq![Batch { to, from, delta: rs.deep_view() }],
                limit,
                r.0@,
                r.1,
            ),
    {
        let mut pending: Vec<Pending> = Vec::new();
        pending.push(Pending { to, from, records: rs });
        assert(Self::batches(pending@) =~= seq![Batch { to, from, delta: rs.deep_view() }]);
        self.run(pending, limit)
    }

    /// Whether taking in the batches `first` and asking for the replays that the misses
    /// want leads from the domain `self` to the domain `after`: the deliveries `log` were
    /// made as [`Self::ran`] says, with the error `error` or none, and then the replays
    /// were asked for as [`Self::asked`] says, which gave `requests`.
    pub open spec fn took(
        self,
        after: Domain,
        paths: Seq<crate::replay::PathView>,
        first: Seq<Batch>,
        now: u64,
        limit: usize,
        log: Seq<Delivery>,
        error: Option<DomainError>,
        requests: Result<Vec<RequestPartialReplay>, ReplayError>,
    ) -> bool {
        exists|delivered: Domain|
            {
                &&& #[trigger] Self::passes_through(delivered)
                &&& delivered.wf()
                &&& self.ran(delivered, first, limit, log, error)
                &&& delivered.asked(after, paths, log, now, requests)
            }
    }

    /// Takes in the batch `rs` that the node `from` sends to the node `to`, as
    /// [`Self::process`] does, and asks for the replays that the misses of the deliveries
    /// want, as [`Self::request`] does. The deliveries are handed back with the error that
    /// ended them, if any, and with the requests that are to be sent now.
    pub fn message(
        &mut self,
        paths: &Vec<ReplayPath>,
        to: LocalNodeIndex,
        from: LocalNodeIndex,
        rs: Vec<Record>,
        now: u64,
        limit: usize,
    ) -> (r: (Vec<Delivery>, Option<DomainError>, Result<Vec<RequestPartialReplay>, ReplayError>))
        requires
            old(self).wf(),
        ensures
            final(self).wf(),
            old(self).took(
                *final(self),
                paths.deep_view(),
                seq![Batch { to, from, delta: rs.deep_view() }],
                now,
                limit,
                r.0@,
                r.1,
                r.2,
            ),
    {
        let (log, error) = self.process(to, from, rs, limit);
        let ghost between = *self;
        let requests = self.request(paths, &log, now);
        proof {
            assert(Self::passes_through(between));
        }
        (log, error, requests)
    }

    /// Whether taking in the writes `ops` to the base `base`, as [`Self::write`] does, leads
    /// from the domain `self` to the domain `after` and gives `r`: where the base cannot
    /// take writes nothing changes; else the base is run on the writes, as [`Self::wrote`]
    /// says, and what it emits is taken in by its children, as [`Self::took`] says.
    pub open spec fn written(
        self,
        after: Domain,
        paths: Seq<crate::replay::PathView>,
        base: LocalNodeIndex,
        ops: Seq<Write>,
        now: u64,
        limit: usize,
        r: Result<WriteOutcome, DomainError>,
    ) -> bool {
        if !self.writable(base) {
            after == self && r == Err::<WriteOutcome, DomainError>(self.refusal(base, base))
        } else {
            r.is_ok() && exists|between: Domain|
                {
                    &&& #[trigger] Self::passes_through(between)
                    &&& between.wf()
                    &&& self.wrote(
                        between,
                        base,
                        ops,
                        r.unwrap().records.deep_view(),
                        r.unwrap().rejected@,
                    )
                    &&& between.took(
                        after,
                        paths,
                        between.forwards(base, r.unwrap().records.deep_view()),
                        now,
                        limit,
                        r.unwrap().deliveries@,
                        r.unwrap().error,
                        r.unwrap().requests,
                    )
                }
        }
    }

    /// Takes in the writes `ops` to the base `base`, and everything that follows from them
    /// within the domain: what the base emits goes to each of its children, and on from
    /// there as in [`Self::process`]; then the replays are asked for that the misses of the
    /// deliveries want, as in [`Self::request`]. The records that the base emitted and the
    /// writes that it refused are handed back, with the deliveries, the error that ended
    /// them, if any, and the requests. Nothing is done where `base` is no base of the
    /// domain that takes writes.
    pub fn write(
        &mut self,
        paths: &Vec<ReplayPath>,
        base: LocalNodeIndex,
        ops: &Vec<TableOperation>,
        now: u64,
        limit: usize,
    ) -> (r: Result<WriteOutcome, DomainError>)
        requires
            old(self).wf(),
        ensures
            final(self).wf(),
            old(self).written(*final(self), paths.deep_view(), base, ops.deep_view(), now, limit, r),
    {
        let (records, rejected) = match self.input(base, ops) {
            Ok(done) => done,
            Err(e) => {
                return Err(e);
            },
        };
        let ghost between = *self;
        let t: usize = base.id();
        let n: usize = self.nodes[t].children.len();
        let mut pending: Vec<Pending> = Vec::new();
        let mut c: usize = 0;
        while c < n
            invariant
                c <= n,
                self.wf(),
                *self == between,
                t == base.spec_id(),
                self.has(base),
                n == self.node(base).children@.len(),
                pending@.len() == c,
                forall|j: int|
                    0 <= j < c ==> (#[trigger] pending@[j]).to == self.node(base).children@[j]
                        && pending@[j].from == base && pending@[j].records.deep_view()
                        == records.deep_view(),
            decreases n - c,
        {
            let child = self.nodes[t].children[c];
            pending.push(
                Pending { to: child, from: base, records: crate::data::clone_records(&records) },
            );
            c += 1;
        }
        assert(Self::batches(pending@) =~= between.forwards(base, records.deep_view()));
        let (deliveries, error) = self.run(pending, limit);
        let ghost delivered = *self;
        let requests = self.request(paths, &deliveries, now);
        proof {
            assert(Self::passes_through(between));
            assert(Self::passes_through(delivered));
        }
        Ok(WriteOutcome { records, rejected, deliveries, error, requests })
    }

    /// Delivers the batches `initial`, and everything that follows from them within the
    /// domain, as in [`Self::process`].
    #[verifier::rlimit(60)]
    pub fn run(&mut self, initial: Vec<Pending>, limit: usize) -> (r: (
        Vec<Delivery>,
        Option<DomainError>,
    ))
        requires
            old(self).wf(),
        ensures
            final(self).wf(),
            old(self).ran(*final(self), Self::batches(initial@), limit, r.0@, r.1),
    {
        let ghost first = Self::batches(initial@);
        let ghost start = *self;
        let ghost mut steps = Seq::<(Batch, Delivery)>::empty();
        let ghost mut queue = first;
        let mut pending = initial;
        let mut log: Vec<Delivery> = Vec::new();
        let mut i: usize = 0;
        while i < pending.len()
            invariant
                self.wf(),
                start == *old(self),
                first == Self::batches(initial@),
                i == log@.len(),
                i <= limit,
                i <= pending@.len(),
                queue.len() == pending@.len(),
                steps == start.steps_of(first, log@, i as int),
                steps.len() == i,
                queue == start.queue_of(first, steps),
                forall|j: int|
                    i <= j < pending@.len() ==> (#[trigger] pending@[j]).to == queue[j].to
                        && pending@[j].from == queue[j].from && pending@[j].records.deep_view()
                        == queue[j].delta,
                start.reached(*self, steps),
                self.nodes@.len() == start.nodes@.len(),
                forall|l: LocalNodeIndex|
                    start.has(l) ==> (#[trigger] self.node(l)).children == start.node(l).children,
            decreases limit - i,
        {
            if i >= limit {
                proof {
                    assert(Self::passes_through(*self));
                    assert(start.reached(*self, steps));
                }
                return (log, Some(DomainError::InvariantViolation));
            }
            let ghost before = *self;
            let ghost item = queue[i as int];
            let mut records: Vec<Record> = Vec::new();
            let at = pending[i].to;
            let source = pending[i].from;
            core::mem::swap(&mut pending[i].records, &mut records);
            proof {
                assert(at == item.to && source == item.from && records.deep_view() == item.delta);
            }
            match self.dispatch(at, source, records) {
                Err(e) => {
                    proof {
                        assert(Self::passes_through(before));
                        assert(start.reached(before, steps));
                        assert(before.stopped_by(item, false, e));
                    }
                    return (log, Some(e));
                },
                Ok(d) => {
                    let ghost out = d.results.deep_view();
                    let t: usize = at.id();
                    let n: usize = self.nodes[t].children.len();
                    let ghost queued = queue;
                    let ghost after = *self;
                    let mut c: usize = 0;
                    while c < n
                        invariant
                            c <= n,
                            self.wf(),
                            *self == after,
                            t == at.spec_id(),
                            self.has(at),
                            n == self.node(at).children@.len(),
                            self.node(at).children == start.node(at).children,
                            out == d.results.deep_view(),
                            i < queued.len(),
                            pending@.len() == queued.len() + c,
                            forall|j: int|
                                i < j < queued.len() ==> (#[trigger] pending@[j]).to == queued[j].to
                                    && pending@[j].from == queued[j].from
                                    && pending@[j].records.deep_view() == queued[j].delta,
                            forall|j: int|
                                0 <= j < c ==> (#[trigger] pending@[queued.len() + j]).to
                                    == start.node(at).children@[j] && pending@[queued.len()
                                    + j].from == at && pending@[queued.len()
                                    + j].records.deep_view() == out,
                        decreases n - c,
                    {
                        let child = self.nodes[t].children[c];
                        pending.push(
                            Pending {
                                to: child,
                                from: at,
                                records: crate::data::clone_records(&d.results),
                            },
                        );
                        c += 1;
                    }
                    let ghost prev_steps = steps;
                    let ghost prev_log = log@;
                    proof {
                        let step = (item, d);
                        let next = steps.push(step);
                        assert(next.drop_last() =~= steps);
                        assert(next.last() == step);
                        start.lemma_reached_step(before, *self, steps, step);
                        let grown = queued + start.forwards(at, out);
                        assert(grown == start.queue_of(first, next));
                        assert(grown.len() == pending@.len());
                        assert forall|j: int| i + 1 <= j < pending@.len() implies (
                        #[trigger] pending@[j]).to == grown[j].to && pending@[j].from
                            == grown[j].from && pending@[j].records.deep_view()
                            == grown[j].delta by {
                            if j >= queued.len() {
                                assert(pending@[queued.len() + (j - queued.len())] == pending@[j]);
                            }
                        }
                        steps = next;
                        queue = grown;
                        assert forall|l: LocalNodeIndex| start.has(l) implies (
                        #[trigger] self.node(l)).children == start.node(l).children by {
                            if l != at {
                                assert(self.node(l) == before.node(l));
                            }
                        }
                    }
                    log.push(d);
                    proof {
                        assert(log@[i as int] == d);
                        start.lemma_steps_prefix(first, prev_log, log@, i as int);
                        assert(start.steps_of(first, log@, i as int) == prev_steps);
                        assert(start.queue_of(first, prev_steps)[i as int] == item);
                        assert(steps =~= start.steps_of(first, log@, i + 1));
                    }
                },
            }
            i += 1;
        }
        (log, None)
    }

    /// One more delivery leads one domain further.
    pub proof fn lemma_reached_step(
        self,
        before: Domain,
        after: Domain,
        steps: Seq<(Batch, Delivery)>,
        step: (Batch, Delivery),
    )
        requires
            self.reached(before, steps),
            before.delivered(after, step.0.to, step.0.from, step.0.delta, step.1),
        ensures
            self.reached(after, steps.push(step)),
    {
        let next = steps.push(step);
        assert(next.drop_last() =~= steps);
        assert(next.last() == step);
        assert(Self::passes_through(before));
    }

    /// The first deliveries of a log are the same whatever follows them.
    pub proof fn lemma_steps_prefix(
        self,
        first: Seq<Batch>,
        a: Seq<Delivery>,
        b: Seq<Delivery>,
        k: int,
    )
        requires
            0 <= k <= a.len(),
            k <= b.len(),
            forall|j: int| 0 <= j < k ==> a[j] == b[j],
        ensures
            self.steps_of(first, a, k) == self.steps_of(first, b, k),
        decreases k,
    {
        if k > 0 {
            self.lemma_steps_prefix(first, a, b, k - 1);
        }
    }

    /// Whether taking in the replay of `key` along `tag` for the reader `dst`, as
    /// [`Self::replay_into_reader`] does, leads from the domain `self` to the domain `after`
    /// and gives `r`.
    pub open spec fn replayed(self, after: Domain, tag: Tag, dst: LocalNodeIndex, key: Vec<DataType>, rows: Vec<Vec<DataType>>, now: u64, r: Result<(Option<RequestPartialReplay>, Vec<u64>), DomainError>) -> bool {
        &&& (after.states == self.states)
        &&& (after.accumulators == self.accumulators)
        &&& (after.nodes@.len() == self.nodes@.len())
        &&& (r.is_ok() == (self.has(dst) && (
            self.node(dst).operator matches NodeOperator::Reader(reader)
                && reader@.state.is_some() && reader@.state.unwrap().files_under(
                key.deep_view(),
                rows.deep_view(),
            )) && self.replay@.flying(Wanted { tag, key: key.deep_view() })))
        &&& (r.is_err() ==> after == self && r.unwrap_err() == (if !self.has(dst) {
            DomainError::UnknownNode
        } else if self.replay@.flying(Wanted { tag, key: key.deep_view() }) {
            DomainError::InvariantViolation
        } else if self.node(dst).operator matches NodeOperator::Reader(reader)
            && reader@.state.is_some() && reader@.state.unwrap().files_under(
            key.deep_view(),
            rows.deep_view(),
        ) {
            DomainError::UnknownReplay
        } else {
            DomainError::InvariantViolation
        }))
        &&& (r.is_ok() ==> {
                let before = self.node(dst).operator->Reader_0;
                &&& after.replay@ == self.replay@.arrive(
                    Wanted { tag, key: key.deep_view() },
                    now,
                )
                &&& match r.unwrap().0 {
                    Some(next) => self.replay@.queued.len() > 0 && next@ == self.replay@.queued[0],
                    None => self.replay@.queued.len() == 0,
                }
                &&& r.unwrap().1@ == before@.waiting_for(key.deep_view())
                &&& forall|l: LocalNodeIndex|
                    self.has(l) && l != dst ==> #[trigger] after.node(l) == self.node(l)
                &&& after.node(dst).operator matches NodeOperator::Reader(reader)
                &&& after.node(dst).operator->Reader_0@.state == Some(
                    before@.state.unwrap().install(key.deep_view(), rows.deep_view()),
                )
                &&& after.node(dst).operator->Reader_0@.waiters == before@.others(
                    key.deep_view(),
                )
                &&& after.node(dst).operator->Reader_0.source() == before.source()
                &&& after.node(dst).operator->Reader_0.key_columns() == before.key_columns()
            })
    }

    /// Takes in what the replay of `key` along `tag` has brought for the reader `dst`, at
    /// the time `now`: the request is retired, the key is filled in the reader's state and
    /// holds the rows `rows`, and the callers that wait for the key are taken off the
    /// reader's list. The request that has waited longest, if any, is handed back to be
    /// sent, with the callers, each of which is to be woken once. Refused, and nothing
    /// changes, where the node is no reader that is ready, where the rows do not belong
    /// under the key, and where nobody had asked for the replay.
    pub fn replay_into_reader(
        &mut self,
        tag: Tag,
        dst: LocalNodeIndex,
        key: &Vec<DataType>,
        rows: Vec<Vec<DataType>>,
        now: u64,
    ) -> (r: Result<(Option<RequestPartialReplay>, Vec<u64>), DomainError>)
        requires
            old(self).wf(),
        ensures
            final(self).wf(),
            old(self).replayed(*final(self), tag, dst, *key, rows, now, r),
    {
        let t: usize = dst.id();
        if t >= self.nodes.len() {
            return Err(DomainError::UnknownNode);
        }
        assert(self.node(dst) == self.nodes@[t as int]);
        let fits: bool = match &self.nodes[t].operator {
            NodeOperator::Reader(r) => r.check_replay(key, &rows),
            _ => false,
        };
        if !fits {
            return Err(DomainError::InvariantViolation);
        }
        if !self.replay.is_under_way(tag, key) {
            return Err(DomainError::UnknownReplay);
        }
        let next = match self.replay.on_arrival(tag, key, now) {
            Ok(next) => next,
            Err(_) => None,
        };
        let mut woken: Vec<u64> = Vec::new();
        match &mut self.nodes[t].operator {
            NodeOperator::Reader(r) => {
                woken = r.on_replay(key, rows);
            },
            _ => {},
        }
        proof {
            assert forall|l: LocalNodeIndex|
                old(self).has(l) && l != dst implies #[trigger] self.node(l) == old(self).node(
                l,
            ) by {
                if l.spec_id() == dst.spec_id() {
                    LocalNodeIndex::lemma_id_injective(l, dst);
                }
            }
            old(self).lemma_wf_frame(*self, dst);
        }
        Ok((next, woken))
    }

    /// Whether reading the rows under `key` from the reader `node`, as [`Self::read`] does, leads
    /// from the domain `self` to the domain `after` and gives `r`.
    pub open spec fn was_read(
        self,
        after: Domain,
        node: LocalNodeIndex,
        key: Vec<DataType>,
        block: bool,
        caller: u64,
        r: Option<crate::reader::ReadOutcome>,
    ) -> bool {
        &&& (after.states == self.states)
        &&& (after.accumulators == self.accumulators)
        &&& (after.replay == self.replay)
        &&& (after.nodes@.len() == self.nodes@.len())
        &&& (r.is_some() == (self.has(node) && self.node(node).operator is Reader))
        &&& (r.is_none() ==> after == self)
        &&& (r.is_some() ==> {
                let before = self.node(node).operator->Reader_0;
                &&& forall|l: LocalNodeIndex|
                    self.has(l) && l != node ==> #[trigger] after.node(l) == self.node(l)
                &&& after.node(node).operator matches NodeOperator::Reader(reader)
                &&& after.node(node).operator->Reader_0@.state == before@.state
                &&& after.node(node).operator->Reader_0.key_columns() == before.key_columns()
                &&& after.node(node).operator->Reader_0.source() == before.source()
                &&& after.node(node).global == self.node(node).global
                &&& after.node(node).children == self.node(node).children
                &&& after.node(node).width == self.node(node).width
                &&& after.node(node).ready == self.node(node).ready
                &&& match before@.state {
                    None => r.unwrap() matches crate::reader::ReadOutcome::Failed(e) && e
                        == crate::reader::ReadError::NotReady,
                    Some(m) => match m.lookup(key.deep_view()) {
                        Some(rows) => r.unwrap() matches crate::reader::ReadOutcome::Rows(found)
                            && found.deep_view() == rows,
                        None => if block {
                            r.unwrap() is Parked && after.node(
                                node,
                            ).operator->Reader_0@.waiters == before@.waiters.push(
                                (key.deep_view(), caller),
                            )
                        } else {
                            r.unwrap() matches crate::reader::ReadOutcome::Failed(e) && e
                                == crate::reader::ReadError::Missing
                        },
                    },
                }
            })
    }

    /// Reads the rows under `key` from the reader `node`, for the caller `caller`; see
    /// [`crate::reader::Reader::read`]. `None` where `node` is no reader of the domain.
    pub fn read(&mut self, node: LocalNodeIndex, key: &Vec<DataType>, block: bool, caller: u64) -> (r:
        Option<crate::reader::ReadOutcome>)
        requires
            old(self).wf(),
        ensures
            final(self).wf(),
            old(self).was_read(*final(self), node, *key, block, caller, r),
    {
        let t: usize = node.id();
        if t >= self.nodes.len() || !self.nodes[t].operator.is_reader() {
            return None;
        }
        let mut out: Option<crate::reader::ReadOutcome> = None;
        match &mut self.nodes[t].operator {
            NodeOperator::Reader(r) => {
                out = Some(r.read(key, block, caller));
            },
            _ => {},
        }
        proof {
            assert forall|l: LocalNodeIndex|
                old(self).has(l) && l != node implies #[trigger] self.node(l) == old(self).node(
                l,
            ) by {
                if l.spec_id() == node.spec_id() {
                    LocalNodeIndex::lemma_id_injective(l, node);
                }
            }
            old(self).lemma_wf_frame(*self, node);
        }
        out
    }
}

} // verus!
