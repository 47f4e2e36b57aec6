//! The graph of operators: its nodes, the edges from each node to those that take its
//! records, and where the columns of each node come from.

use crate::addressing::{DomainIndex, IndexPair, LocalNodeIndex, NodeIndex, Remap, Sharding};
use crate::data::DataType;
use crate::migrate::{
    distinct_nodes, group_done, group_refused, initialize, names, same_but_commit, with_locals,
    CommitError, Swaps,
};
use crate::ops::base::Base;
use crate::ops::filter::Filter;
use crate::ops::grouped::Aggregator;
use crate::ops::join::Join;
use crate::ops::param_filter::ParamFilter;
use crate::ops::project::Project;
use crate::ops::routing::{Egress, Ingress};
use crate::ops::sharder::Sharder;
use crate::ops::topk::TopK;
use crate::ops::trigger::Trigger;
use crate::ops::union::Union;
use crate::reader::Reader;
use vstd::prelude::*;

verus! {

/// The graph type of `petgraph`.
#[verifier::external_type_specification]
#[verifier::external_body]
#[verifier::reject_recursive_types(N)]
#[verifier::reject_recursive_types(E)]
#[verifier::reject_recursive_types(Ty)]
#[verifier::reject_recursive_types(Ix)]
pub struct ExGraph<N, E, Ty, Ix>(petgraph::graph::Graph<N, E, Ty, Ix>);

/// The marker of `petgraph` for graphs with directed edges.
#[verifier::external_type_specification]
#[verifier::external_body]
pub struct ExDirected(petgraph::Directed);

/// The number of nodes of a `petgraph` graph.
pub uninterp spec fn topology_nodes(g: petgraph::graph::Graph<(), ()>) -> nat;

/// The edges of a `petgraph` graph, each from its first node to its second, in the order in
/// which they were added.
pub uninterp spec fn topology_edges(g: petgraph::graph::Graph<(), ()>) -> Seq<(usize, usize)>;

/// The nodes at the other end of the edges of `a`, the most recently added edge first: the
/// targets of the edges from `a` if `outgoing` is set, else the sources of the edges to `a`.
pub open spec fn neighbors_of(edges: Seq<(usize, usize)>, a: usize, outgoing: bool) -> Seq<usize>
    decreases edges.len(),
{
    if edges.len() == 0 {
        Seq::empty()
    } else if outgoing && edges.last().0 == a {
        seq![edges.last().1] + neighbors_of(edges.drop_last(), a, outgoing)
    } else if !outgoing && edges.last().1 == a {
        seq![edges.last().0] + neighbors_of(edges.drop_last(), a, outgoing)
    } else {
        neighbors_of(edges.drop_last(), a, outgoing)
    }
}

/// `petgraph::graph::Graph::new`: a directed graph without nodes or edges.
#[verifier::external_body]
fn topology_new() -> (g: petgraph::graph::Graph<(), ()>)
    ensures
        topology_nodes(g) == 0,
        topology_edges(g) == Seq::<(usize, usize)>::empty(),
{
    petgraph::graph::Graph::new()
}

/// `Graph::add_node`: adds a node and returns its index, which is the number of nodes that
/// the graph had. The graph must not be at the most nodes that its index type can count.
#[verifier::external_body]
fn topology_add_node(g: &mut petgraph::graph::Graph<(), ()>) -> (i: usize)
    requires
        topology_nodes(*old(g)) < u32::MAX,
    ensures
        i == topology_nodes(*old(g)),
        topology_nodes(*final(g)) == topology_nodes(*old(g)) + 1,
        topology_edges(*final(g)) == topology_edges(*old(g)),
{
    g.add_node(()).index()
}

/// `Graph::add_edge`: adds an edge from `a` to `b`, which must be nodes of the graph. The
/// graph must not be at the most edges that its index type can count.
#[verifier::external_body]
fn topology_add_edge(g: &mut petgraph::graph::Graph<(), ()>, a: usize, b: usize)
    requires
        a < topology_nodes(*old(g)),
        b < topology_nodes(*old(g)),
        topology_edges(*old(g)).len() < u32::MAX,
    ensures
        topology_nodes(*final(g)) == topology_nodes(*old(g)),
        topology_edges(*final(g)) == topology_edges(*old(g)).push((a, b)),
{
    g.add_edge(petgraph::graph::NodeIndex::new(a), petgraph::graph::NodeIndex::new(b), ());
}

/// `Graph::find_edge`, asked whether it found one: whether there is an edge from `a` to
/// `b`, which must be nodes of the graph.
#[verifier::external_body]
fn topology_has_edge(g: &petgraph::graph::Graph<(), ()>, a: usize, b: usize) -> (found: bool)
    requires
        a < topology_nodes(*g),
        b < topology_nodes(*g),
    ensures
        found == topology_edges(*g).contains((a, b)),
{
    g.find_edge(petgraph::graph::NodeIndex::new(a), petgraph::graph::NodeIndex::new(b)).is_some()
}

/// `Graph::neighbors_directed`: the nodes at the other end of the edges from `a`, or to
/// `a`, in reverse order of the addition of the edges. `a` must be a node of the graph.
#[verifier::external_body]
fn topology_neighbors(g: &petgraph::graph::Graph<(), ()>, a: usize, outgoing: bool) -> (ns: Vec<
    usize,
>)
    requires
        a < topology_nodes(*g),
    ensures
        ns@ == neighbors_of(topology_edges(*g), a, outgoing),
{
    let direction = if outgoing {
        petgraph::Direction::Outgoing
    } else {
        petgraph::Direction::Incoming
    };
    g.neighbors_directed(petgraph::graph::NodeIndex::new(a), direction).map(|n| n.index()).collect()
}

/// `Graph::raw_edges`, with the two nodes of each edge: the edges in the order in which they
/// were added.
#[verifier::external_body]
fn topology_raw_edges(g: &petgraph::graph::Graph<(), ()>) -> (es: Vec<(usize, usize)>)
    ensures
        es@ == topology_edges(*g),
{
    g.raw_edges().iter().map(|e| (e.source().index(), e.target().index())).collect()
}

/// The operator of a node.
#[derive(Debug)]
pub enum NodeOperator {
    /// The root above all bases.
    Source,
    /// A base.
    Base(Base),
    /// The identity.
    Identity(Trigger),
    /// A filter whose pattern is a parameter.
    ParamFilter(ParamFilter),
    /// A projection.
    Project(Project),
    /// A filter.
    Filter(Filter),
    /// A join.
    Join(Join),
    /// A grouped aggregation.
    Aggregation(Aggregator),
    /// A top-k.
    TopK(TopK),
    /// A union.
    Union(Union),
    /// A sharder.
    Sharder(Sharder),
    /// An ingress.
    Ingress(Ingress),
    /// An egress.
    Egress(Egress),
    /// A reader.
    Reader(Reader),
}

impl NodeOperator {
    /// The parents of the operator.
    pub open spec fn parents(self) -> Seq<NodeIndex> {
        match self {
            NodeOperator::Source => Seq::empty(),
            NodeOperator::Base(_) => Seq::empty(),
            NodeOperator::Identity(o) => seq![o.source().spec_global()],
            NodeOperator::ParamFilter(o) => seq![o.source().spec_global()],
            NodeOperator::Project(o) => seq![o.source().spec_global()],
            NodeOperator::Filter(o) => seq![o.source().spec_global()],
            NodeOperator::Join(o) => seq![
                o.left_parent().spec_global(),
                o.right_parent().spec_global(),
            ],
            NodeOperator::Aggregation(o) => seq![o.source().spec_global()],
            NodeOperator::TopK(o) => seq![o.source().spec_global()],
            NodeOperator::Union(o) => o.parents(),
            NodeOperator::Sharder(o) => seq![o.source().spec_global()],
            NodeOperator::Ingress(o) => seq![o.source().spec_global()],
            NodeOperator::Egress(o) => seq![o.source().spec_global()],
            NodeOperator::Reader(o) => seq![o.source().spec_global()],
        }
    }

    /// Where column `col` of the operator's output comes from: for each parent that
    /// contributes to it, the column of the parent that it copies, or `None` where it is
    /// computed.
    pub open spec fn origin(self, col: usize) -> Seq<(NodeIndex, Option<usize>)> {
        match self {
            NodeOperator::Source => Seq::empty(),
            NodeOperator::Base(_) => Seq::empty(),
            NodeOperator::Identity(o) => seq![(o.source().spec_global(), Some(col))],
            NodeOperator::ParamFilter(o) => seq![
                (
                    o.source().spec_global(),
                    if col < o.key_column() {
                        Some(col)
                    } else {
                        Option::<usize>::None
                    },
                ),
            ],
            NodeOperator::Project(o) => seq![
                (
                    o.source().spec_global(),
                    if col < o.columns().len() {
                        Some(o.columns()[col as int])
                    } else {
                        Option::<usize>::None
                    },
                ),
            ],
            NodeOperator::Filter(o) => seq![(o.source().spec_global(), Some(col))],
            NodeOperator::Join(o) => if col < o.emits().len() {
                seq![
                    (
                        if o.emits()[col as int].left {
                            o.left_parent().spec_global()
                        } else {
                            o.right_parent().spec_global()
                        },
                        Some(o.emits()[col as int].column),
                    ),
                ]
            } else {
                Seq::empty()
            },
            NodeOperator::Aggregation(o) => seq![
                (
                    o.source().spec_global(),
                    if col < o.group().len() {
                        Some(o.group()[col as int])
                    } else {
                        Option::<usize>::None
                    },
                ),
            ],
            NodeOperator::TopK(o) => seq![(o.source().spec_global(), Some(col))],
            NodeOperator::Union(o) => o.origin(col),
            NodeOperator::Sharder(o) => seq![(o.source().spec_global(), Some(col))],
            NodeOperator::Ingress(o) => seq![(o.source().spec_global(), Some(col))],
            NodeOperator::Egress(o) => seq![(o.source().spec_global(), Some(col))],
            NodeOperator::Reader(o) => seq![(o.source().spec_global(), Some(col))],
        }
    }

    /// The parents of the operator.
    pub fn ancestors(&self) -> (a: Vec<NodeIndex>)
        ensures
            a@ == self.parents(),
    {
        match self {
            NodeOperator::Source => Vec::new(),
            NodeOperator::Base(o) => {
                let a = o.ancestors();
                assert(a@ =~= self.parents());
                a
            },
            NodeOperator::Identity(o) => o.ancestors(),
            NodeOperator::ParamFilter(o) => o.ancestors(),
            NodeOperator::Project(o) => o.ancestors(),
            NodeOperator::Filter(o) => o.ancestors(),
            NodeOperator::Join(o) => o.ancestors(),
            NodeOperator::Aggregation(o) => o.ancestors(),
            NodeOperator::TopK(o) => o.ancestors(),
            NodeOperator::Union(o) => o.ancestors(),
            NodeOperator::Sharder(o) => o.ancestors(),
            NodeOperator::Ingress(o) => o.ancestors(),
            NodeOperator::Egress(o) => o.ancestors(),
            NodeOperator::Reader(o) => o.ancestors(),
        }
    }

    /// Where column `column` of the operator's output comes from.
    pub fn parent_columns(&self, column: usize) -> (r: Vec<(NodeIndex, Option<usize>)>)
        ensures
            r@ == self.origin(column),
    {
        match self {
            NodeOperator::Source => Vec::new(),
            NodeOperator::Base(_) => Vec::new(),
            NodeOperator::Identity(o) => o.parent_columns(column),
            NodeOperator::ParamFilter(o) => o.parent_columns(column),
            NodeOperator::Project(o) => o.parent_columns(column),
            NodeOperator::Filter(o) => o.parent_columns(column),
            NodeOperator::Join(o) => o.parent_columns(column),
            NodeOperator::Aggregation(o) => o.parent_columns(column),
            NodeOperator::TopK(o) => o.parent_columns(column),
            NodeOperator::Union(o) => o.parent_columns(column),
            NodeOperator::Sharder(o) => o.parent_columns(column),
            NodeOperator::Ingress(o) => o.parent_columns(column),
            NodeOperator::Egress(o) => o.parent_columns(column),
            NodeOperator::Reader(o) => o.parent_columns(column),
        }
    }

    /// Whether the operator is a base.
    pub fn is_base(&self) -> (b: bool)
        ensures
            b == (self is Base),
    {
        match self {
            NodeOperator::Base(_) => true,
            _ => false,
        }
    }

    /// Whether the operator is a reader.
    pub fn is_reader(&self) -> (b: bool)
        ensures
            b == (self is Reader),
    {
        match self {
            NodeOperator::Reader(_) => true,
            _ => false,
        }
    }

    /// Whether the operator is an egress.
    pub fn is_egress(&self) -> (b: bool)
        ensures
            b == (self is Egress),
    {
        match self {
            NodeOperator::Egress(_) => true,
            _ => false,
        }
    }

    /// Whether the operator is an ingress.
    pub fn is_ingress(&self) -> (b: bool)
        ensures
            b == (self is Ingress),
    {
        match self {
            NodeOperator::Ingress(_) => true,
            _ => false,
        }
    }

    /// Whether the operator is a sharder.
    pub fn is_sharder(&self) -> (b: bool)
        ensures
            b == (self is Sharder),
    {
        match self {
            NodeOperator::Sharder(_) => true,
            _ => false,
        }
    }

    /// A short description of the operator: its sign.
    pub open spec fn described(self) -> Seq<char> {
        match self {
            NodeOperator::Source => "(source)"@,
            NodeOperator::Base(_) => "B"@,
            NodeOperator::Identity(_) => "≡"@,
            NodeOperator::ParamFilter(_) => "σφ"@,
            NodeOperator::Project(_) => "π"@,
            NodeOperator::Filter(_) => "σ"@,
            NodeOperator::Join(o) => match o.join_type() {
                crate::ops::join::JoinType::Inner => "⋈"@,
                crate::ops::join::JoinType::Left => "⋉"@,
            },
            NodeOperator::Aggregation(o) => match o.aggregation() {
                crate::ops::grouped::Aggregation::Count => "|*|"@,
                crate::ops::grouped::Aggregation::Sum => "𝛴"@,
                crate::ops::grouped::Aggregation::Avg => "avg"@,
            },
            NodeOperator::TopK(_) => "TopK"@,
            NodeOperator::Union(_) => "⋃"@,
            NodeOperator::Sharder(_) => "shard"@,
            NodeOperator::Ingress(_) => "(ingress)"@,
            NodeOperator::Egress(_) => "(egress)"@,
            NodeOperator::Reader(_) => "(reader)"@,
        }
    }

    /// A short description of the operator: its sign.
    pub fn description(&self) -> (s: String)
        ensures
            s@ == self.described(),
    {
        match self {
            NodeOperator::Source => String::from_str("(source)"),
            NodeOperator::Base(_) => String::from_str("B"),
            NodeOperator::Identity(o) => o.description(),
            NodeOperator::ParamFilter(o) => o.description(false),
            NodeOperator::Project(o) => o.description(),
            NodeOperator::Filter(o) => o.description(),
            NodeOperator::Join(o) => o.description(),
            NodeOperator::Aggregation(o) => o.description(),
            NodeOperator::TopK(o) => o.description(),
            NodeOperator::Union(o) => o.description(),
            NodeOperator::Sharder(o) => o.description(),
            NodeOperator::Ingress(_) => String::from_str("(ingress)"),
            NodeOperator::Egress(_) => String::from_str("(egress)"),
            NodeOperator::Reader(_) => String::from_str("(reader)"),
        }
    }

    /// The pairs by which the operator names its parents, in the order of `parents`.
    pub open spec fn sources(self) -> Seq<IndexPair> {
        match self {
            NodeOperator::Source => Seq::empty(),
            NodeOperator::Base(_) => Seq::empty(),
            NodeOperator::Identity(o) => seq![o.source()],
            NodeOperator::ParamFilter(o) => seq![o.source()],
            NodeOperator::Project(o) => seq![o.source()],
            NodeOperator::Filter(o) => seq![o.source()],
            NodeOperator::Join(o) => seq![o.left_parent(), o.right_parent()],
            NodeOperator::Aggregation(o) => seq![o.source()],
            NodeOperator::TopK(o) => seq![o.source()],
            NodeOperator::Union(o) => Seq::new(o.sources().len(), |i: int| o.sources()[i].0),
            NodeOperator::Sharder(o) => seq![o.source()],
            NodeOperator::Ingress(o) => seq![o.source()],
            NodeOperator::Egress(o) => seq![o.source()],
            NodeOperator::Reader(o) => seq![o.source()],
        }
    }

    /// The pair that the mapping `m` holds for the node of the pair `p`, or `p` itself
    /// where it holds none.
    pub open spec fn moved(p: IndexPair, m: Map<NodeIndex, IndexPair>) -> IndexPair {
        if m.dom().contains(p.spec_global()) {
            m[p.spec_global()]
        } else {
            p
        }
    }

    /// Whether the operator does to its input what `before` does: the two differ at most
    /// in the pairs by which they name their parents.
    pub open spec fn works_as(self, before: NodeOperator) -> bool {
        match (before, self) {
            (NodeOperator::Source, NodeOperator::Source) => true,
            (NodeOperator::Base(a), NodeOperator::Base(b)) => a == b,
            (NodeOperator::Identity(_), NodeOperator::Identity(_)) => true,
            (NodeOperator::ParamFilter(a), NodeOperator::ParamFilter(b)) => a.column()
                == b.column() && a.key_column() == b.key_column() && a.matcher() == b.matcher(),
            (NodeOperator::Project(a), NodeOperator::Project(b)) => a.columns() == b.columns()
                && a.constants() == b.constants(),
            (NodeOperator::Filter(a), NodeOperator::Filter(b)) => a.predicate() == b.predicate(),
            (NodeOperator::Join(a), NodeOperator::Join(b)) => a.join_type() == b.join_type()
                && a.left_key() == b.left_key() && a.right_key() == b.right_key() && a.emits()
                == b.emits(),
            (NodeOperator::Aggregation(a), NodeOperator::Aggregation(b)) => a.aggregation()
                == b.aggregation() && a.column() == b.column() && a.group() == b.group(),
            (NodeOperator::TopK(a), NodeOperator::TopK(b)) => a.ordering() == b.ordering()
                && a.group() == b.group() && a.limit() == b.limit(),
            (NodeOperator::Union(a), NodeOperator::Union(b)) => a.sources().len()
                == b.sources().len() && forall|i: int|
                0 <= i < a.sources().len() ==> (#[trigger] a.sources()[i]).1 == b.sources()[i].1,
            (NodeOperator::Sharder(a), NodeOperator::Sharder(b)) => a.sharded_by()
                == b.sharded_by() && a.fan_out() == b.fan_out() && a.wf() == b.wf(),
            (NodeOperator::Ingress(_), NodeOperator::Ingress(_)) => true,
            (NodeOperator::Egress(a), NodeOperator::Egress(b)) => a.destinations()
                == b.destinations() && a.paths() == b.paths(),
            (NodeOperator::Reader(a), NodeOperator::Reader(b)) => a.key_columns()
                == b.key_columns() && a@ == b@ && a.wf() == b.wf(),
            _ => false,
        }
    }

    /// Localizes the references to the parents: each pair for which `remap` holds another
    /// is replaced by that one. What the operator does to its input stays as it is.
    pub fn on_commit(&mut self, us: NodeIndex, remap: &Remap)
        requires
            remap.wf(),
            (*old(self)) matches NodeOperator::Reader(r) ==> r.wf(),
        ensures
            final(self).works_as(*old(self)),
            final(self).sources().len() == old(self).sources().len(),
            forall|i: int|
                0 <= i < old(self).sources().len() ==> #[trigger] final(self).sources()[i]
                    == Self::moved(old(self).sources()[i], remap@),
    {
        match self {
            NodeOperator::Source => {},
            NodeOperator::Base(_) => {},
            NodeOperator::Identity(o) => o.on_commit(us, remap),
            NodeOperator::ParamFilter(o) => o.on_commit(us, remap),
            NodeOperator::Project(o) => o.on_commit(us, remap),
            NodeOperator::Filter(o) => o.on_commit(us, remap),
            NodeOperator::Join(o) => o.on_commit(us, remap),
            NodeOperator::Aggregation(o) => o.on_commit(us, remap),
            NodeOperator::TopK(o) => o.on_commit(us, remap),
            NodeOperator::Union(o) => o.on_commit(us, remap),
            NodeOperator::Sharder(o) => o.on_commit(us, remap),
            NodeOperator::Ingress(o) => o.on_commit(us, remap),
            NodeOperator::Egress(o) => o.on_commit(us, remap),
            NodeOperator::Reader(o) => o.on_commit(us, remap),
        }
    }

    /// Whether the operator is one of the relational operators, and not a seam, a root or
    /// a reader.
    pub fn is_internal(&self) -> (b: bool)
        ensures
            b == !(self is Source || self is Ingress || self is Egress || self is Sharder
                || self is Reader),
    {
        match self {
            NodeOperator::Source => false,
            NodeOperator::Ingress(_) => false,
            NodeOperator::Egress(_) => false,
            NodeOperator::Sharder(_) => false,
            NodeOperator::Reader(_) => false,
            _ => true,
        }
    }
}

/// One node of the graph.
#[derive(Debug)]
pub struct Node {
    /// The name of the node.
    pub name: String,
    /// The names of the columns of its output.
    pub fields: Vec<String>,
    /// Its operator.
    pub operator: NodeOperator,
    /// The domain that the node is assigned to, once it is.
    pub domain: Option<DomainIndex>,
    /// How the node is sharded.
    pub sharded_by: Sharding,
    /// The identifiers of the node, of which the local one is known once the node is
    /// committed.
    pub address: IndexPair,
    /// Whether writes to the node are transactional.
    pub transactional: bool,
    /// The parents of the node, as its operator named them when the node was added.
    pub parents: Vec<NodeIndex>,
    /// Where each column of the node comes from, as its operator said when the node was
    /// added: for each parent that contributes to the column, the column of the parent
    /// that it copies, or `None` where it is computed.
    pub origins: Vec<Vec<(NodeIndex, Option<usize>)>>,
}

impl Node {
    /// The number of columns of the node's output.
    pub open spec fn width(self) -> nat {
        self.fields@.len()
    }

    /// Where column `c` of the node comes from; nowhere, for a column that was added to
    /// the node later.
    pub open spec fn origin_of(self, c: usize) -> Seq<(NodeIndex, Option<usize>)> {
        if c < self.origins@.len() {
            self.origins@[c as int]@
        } else {
            Seq::empty()
        }
    }
}

/// Why a node cannot be added to the graph.
#[derive(Clone, Copy, Debug, PartialEq, Eq, Structural)]
pub enum GraphError {
    /// A parent of the node is not a node of the graph, or is the root.
    UnknownParent,
    /// A column of the node comes from a column that its parent does not have.
    UnknownColumn,
    /// The graph cannot count more nodes or edges.
    Full,
}

/// The graph of operators. Node 0 is the root; the bases hang below it.
pub struct FlowGraph {
    nodes: Vec<Node>,
    topology: petgraph::graph::Graph<(), ()>,
}

impl FlowGraph {
    /// The nodes, by their global identifier.
    pub closed spec fn view(self) -> Seq<Node> {
        self.nodes@
    }

    /// The edges, in the order in which they were added.
    pub closed spec fn edges(self) -> Seq<(usize, usize)> {
        topology_edges(self.topology)
    }

    /// Whether the node `n`, the `position`-th of `nodes`, is sound: its parents are earlier
    /// nodes other than the root, and each of its columns comes from columns that its
    /// parents have.
    pub open spec fn node_ok(nodes: Seq<Node>, position: int) -> bool {
        let n = nodes[position];
        &&& n.origins@.len() <= n.width()
        &&& forall|j: int|
            0 <= j < n.parents@.len() ==> 0 < (#[trigger] n.parents@[j]).0
                < position
        &&& forall|c: usize, j: int|
            c < n.width() && 0 <= j < n.origin_of(c).len() ==> {
                let from = #[trigger] n.origin_of(c)[j];
                &&& 0 < from.0.0 < position
                &&& from.1.is_some() ==> from.1.unwrap() < nodes[from.0.0 as int].width()
            }
    }

    /// The graph is sound: it has its root, every other node is sound, and every edge leads
    /// from a node to a later one.
    pub closed spec fn wf(self) -> bool {
        &&& self.nodes@.len() >= 1
        &&& self.nodes@[0].operator is Source
        &&& topology_nodes(self.topology) == self.nodes@.len()
        &&& forall|i: int| 0 < i < self.nodes@.len() ==> Self::node_ok(self.nodes@, i)
        &&& forall|e: int|
            0 <= e < self.edges().len() ==> (#[trigger] self.edges()[e]).0 < self.edges()[e].1
                < self.nodes@.len()
    }

    /// What soundness says of a graph.
    pub proof fn lemma_wf(self)
        requires
            self.wf(),
        ensures
            self@.len() >= 1,
            self@[0].operator is Source,
            forall|i: int| 0 < i < self@.len() ==> Self::node_ok(self@, i),
            forall|e: int|
                0 <= e < self.edges().len() ==> (#[trigger] self.edges()[e]).0
                    < self.edges()[e].1 < self@.len(),
    {
    }

    /// A graph with nothing but its root.
    pub fn new() -> (g: FlowGraph)
        ensures
            g.wf(),
            g@.len() == 1,
            g.edges().len() == 0,
    {
        let mut topology = topology_new();
        let root: usize = topology_add_node(&mut topology);
        let mut nodes: Vec<Node> = Vec::new();
        let mut fields: Vec<String> = Vec::new();
        nodes.push(
            Node {
                name: String::from_str("source"),
                fields,
                operator: NodeOperator::Source,
                domain: None,
                sharded_by: Sharding::Unsharded,
                address: IndexPair::new(NodeIndex::new(0)),
                transactional: true,
                parents: Vec::new(),
                origins: Vec::new(),
            },
        );
        FlowGraph { nodes, topology }
    }

    /// The root: the first node, which in a sound graph is the node above all bases.
    pub fn source(&self) -> (s: NodeIndex)
        ensures
            s == NodeIndex(0),
            self.wf() ==> s.0 < self@.len() && self@[s.0 as int].operator is Source,
    {
        NodeIndex::new(0)
    }

    /// The number of nodes, the root included.
    pub fn node_count(&self) -> (n: usize)
        ensures
            n == self@.len(),
    {
        self.nodes.len()
    }

    /// Whether the graph `after` is this graph but for where the node `n` lives: its domain
    /// and its address may differ, and nothing else.
    pub open spec fn same_but_place(self, after: FlowGraph, n: NodeIndex) -> bool {
        &&& after@.len() == self@.len()
        &&& after.edges() == self.edges()
        &&& forall|i: int| 0 <= i < self@.len() && i != n.0 ==> #[trigger] after@[i] == self@[i]
        &&& after@[n.0 as int].name == self@[n.0 as int].name
        &&& after@[n.0 as int].fields == self@[n.0 as int].fields
        &&& after@[n.0 as int].operator == self@[n.0 as int].operator
        &&& after@[n.0 as int].sharded_by == self@[n.0 as int].sharded_by
        &&& after@[n.0 as int].transactional == self@[n.0 as int].transactional
        &&& after@[n.0 as int].parents == self@[n.0 as int].parents
        &&& after@[n.0 as int].origins == self@[n.0 as int].origins
    }

    /// Assigns the node `n` to the domain `d`. Returns whether that was done: the root, and
    /// what is no node of the graph, lives in no domain.
    pub fn assign_domain(&mut self, n: NodeIndex, d: DomainIndex) -> (done: bool)
        requires
            old(self).wf(),
        ensures
            final(self).wf(),
            done == (0 < n.0 < old(self)@.len()),
            !done ==> final(self)@ == old(self)@ && final(self).edges() == old(self).edges(),
            done ==> old(self).same_but_place(*final(self), n) && final(self)@[n.0 as int].domain
                == Some(d) && final(self)@[n.0 as int].address == old(self)@[n.0 as int].address,
    {
        let t: usize = n.index();
        if t == 0 || t >= self.nodes.len() {
            return false;
        }
        let ghost before = self.nodes@;
        self.nodes[t].domain = Some(d);
        proof {
            Self::lemma_wider_base(before, self.nodes@, t as int);
            assert(self.nodes@[0] == before[0]);
            assert(self.edges() == old(self).edges());
        }
        true
    }

    /// Nodes that are sound stay sound when they keep their parents, the origins of their
    /// columns and their columns.
    proof fn lemma_same_structure(before: Seq<Node>, after: Seq<Node>)
        requires
            after.len() == before.len(),
            forall|i: int|
                0 <= i < before.len() ==> (#[trigger] after[i]).parents == before[i].parents
                    && after[i].origins == before[i].origins && after[i].fields
                    == before[i].fields,
            forall|i: int| 0 < i < before.len() ==> Self::node_ok(before, i),
        ensures
            forall|i: int| 0 < i < after.len() ==> Self::node_ok(after, i),
    {
        assert forall|i: int| 0 < i < after.len() implies Self::node_ok(after, i) by {
            assert(Self::node_ok(before, i));
            let n = after[i];
            assert(n.parents == before[i].parents);
            assert forall|c: usize, j: int|
                c < n.width() && 0 <= j < n.origin_of(c).len() implies {
                let from = #[trigger] n.origin_of(c)[j];
                &&& 0 < from.0.0 < i
                &&& from.1.is_some() ==> from.1.unwrap() < after[from.0.0 as int].width()
            } by {
                assert(n.origin_of(c) == before[i].origin_of(c));
                let from = before[i].origin_of(c)[j];
                assert(0 < from.0.0 < i);
                assert(after[from.0.0 as int].fields == before[from.0.0 as int].fields);
            }
        }
    }

    /// Makes the new nodes `nodes` of one domain ready, with `remap` the mapping of the
    /// domain: see [`crate::migrate::initialize`], which is run on the operators of the
    /// nodes. Each node gets its address, with the next local identifier of the domain,
    /// and each relational operator among the nodes is committed. The pairs of the nodes
    /// are handed back. Where the nodes cannot be made ready, the graph stays as it is.
    pub fn commit_group(&mut self, remap: &mut Remap, swaps: &Swaps, nodes: &Vec<NodeIndex>) -> (r:
        Result<Vec<IndexPair>, CommitError>)
        requires
            old(self).wf(),
            old(remap).wf(),
            swaps.wf(),
            distinct_nodes(nodes@, old(self)@.len()),
        ensures
            final(self).wf(),
            final(remap).wf(),
            final(self)@.len() == old(self)@.len(),
            final(self).edges() == old(self).edges(),
            forall|t: int|
                0 <= t < old(self)@.len() && !names(nodes@, t) ==> #[trigger] final(self)@[t]
                    == old(self)@[t],
            match r {
                Ok(pairs) => {
                    &&& group_done(
                        old(self)@,
                        final(self)@,
                        swaps@,
                        old(remap)@,
                        old(remap).spec_len(),
                        nodes@,
                    )
                    &&& final(remap)@ == with_locals(old(remap)@, nodes@, old(remap).spec_len())
                    &&& pairs@.len() == nodes@.len()
                    &&& forall|i: int|
                        0 <= i < nodes@.len() ==> (#[trigger] pairs@[i])
                            == final(self)@[nodes@[i].0 as int].address
                },
                Err(e) => {
                    &&& final(self)@ == old(self)@
                    &&& group_refused(
                        old(self)@,
                        swaps@,
                        old(remap)@,
                        old(remap).spec_len(),
                        nodes@,
                        e,
                    )
                },
            },
    {
        let ghost before = self.nodes@;
        let ghost edges = self.edges();
        let mut operators: Vec<NodeOperator> = Vec::new();
        let mut i: usize = 0;
        while i < nodes.len()
            invariant
                i <= nodes@.len(),
                distinct_nodes(nodes@, before.len()),
                self.nodes@.len() == before.len(),
                self.edges() == edges,
                topology_nodes(self.topology) == before.len(),
                operators@.len() == i,
                forall|k: int|
                    0 <= k < i ==> (#[trigger] operators@[k]) == before[nodes@[k].0 as int].operator,
                forall|k: int|
                    0 <= k < i ==> same_but_commit(
                        before[(#[trigger] nodes@[k]).0 as int],
                        self.nodes@[nodes@[k].0 as int],
                    ) && self.nodes@[nodes@[k].0 as int].address
                        == before[nodes@[k].0 as int].address,
                forall|k: int| i <= k < nodes@.len() ==> self.nodes@[(#[trigger] nodes@[k]).0 as int]
                    == before[nodes@[k].0 as int],
                forall|t: int|
                    0 <= t < before.len() && !names(nodes@, t) ==> #[trigger] self.nodes@[t]
                        == before[t],
            decreases nodes@.len() - i,
        {
            let t: usize = nodes[i].index();
            let ghost held = self.nodes@;
            let mut operator = NodeOperator::Source;
            core::mem::swap(&mut self.nodes[t].operator, &mut operator);
            operators.push(operator);
            proof {
                assert forall|k: int| 0 <= k < i implies same_but_commit(
                    before[(#[trigger] nodes@[k]).0 as int],
                    self.nodes@[nodes@[k].0 as int],
                ) && self.nodes@[nodes@[k].0 as int].address
                    == before[nodes@[k].0 as int].address by {
                    assert(nodes@[k] != nodes@[i as int]);
                    assert(self.nodes@[nodes@[k].0 as int] == held[nodes@[k].0 as int]);
                }
                assert forall|k: int| i + 1 <= k < nodes@.len() implies self.nodes@[(
                #[trigger] nodes@[k]).0 as int] == before[nodes@[k].0 as int] by {
                    assert(nodes@[i as int] != nodes@[k]);
                    assert(self.nodes@[nodes@[k].0 as int] == held[nodes@[k].0 as int]);
                }
                assert forall|t2: int|
                    0 <= t2 < before.len() && !names(nodes@, t2) implies #[trigger] self.nodes@[t2]
                    == before[t2] by {
                    assert(nodes@[i as int].0 == t);
                    assert(t2 != t);
                    assert(self.nodes@[t2] == held[t2]);
                }
            }
            i += 1;
        }
        let ghost taken = operators@;
        let r = initialize(remap, swaps, nodes, &mut operators);
        let ghost made = operators@;
        let mut k: usize = 0;
        while k < nodes.len()
            invariant
                k <= nodes@.len(),
                distinct_nodes(nodes@, before.len()),
                self.nodes@.len() == before.len(),
                self.edges() == edges,
                topology_nodes(self.topology) == before.len(),
                operators@.len() == nodes@.len(),
                made.len() == nodes@.len(),
                forall|j: int| k <= j < nodes@.len() ==> (#[trigger] operators@[j]) == made[j],
                r.is_ok() ==> r.unwrap()@.len() == nodes@.len(),
                forall|j: int|
                    0 <= j < nodes@.len() ==> same_but_commit(
                        before[(#[trigger] nodes@[j]).0 as int],
                        self.nodes@[nodes@[j].0 as int],
                    ),
                forall|j: int|
                    0 <= j < k ==> self.nodes@[(#[trigger] nodes@[j]).0 as int].operator == made[j]
                        && self.nodes@[nodes@[j].0 as int].address == (if r.is_ok() {
                        r.unwrap()@[j]
                    } else {
                        before[nodes@[j].0 as int].address
                    }),
                forall|j: int|
                    k <= j < nodes@.len() ==> self.nodes@[(#[trigger] nodes@[j]).0 as int].address
                        == before[nodes@[j].0 as int].address,
                forall|t: int|
                    0 <= t < before.len() && !names(nodes@, t) ==> #[trigger] self.nodes@[t]
                        == before[t],
            decreases nodes@.len() - k,
        {
            let t: usize = nodes[k].index();
            let ghost held = self.nodes@;
            let mut operator = NodeOperator::Source;
            core::mem::swap(&mut operators[k], &mut operator);
            self.nodes[t].operator = operator;
            match &r {
                Ok(pairs) => {
                    self.nodes[t].address = pairs[k];
                },
                Err(_) => {},
            }
            proof {
                assert forall|j: int| 0 <= j < nodes@.len() implies same_but_commit(
                    before[(#[trigger] nodes@[j]).0 as int],
                    self.nodes@[nodes@[j].0 as int],
                ) by {
                    if j != k {
                        assert(nodes@[j] != nodes@[k as int]);
                        assert(self.nodes@[nodes@[j].0 as int] == held[nodes@[j].0 as int]);
                    }
                }
                assert forall|j: int| 0 <= j < k + 1 implies self.nodes@[(
                #[trigger] nodes@[j]).0 as int].operator == made[j] && self.nodes@[nodes@[j].0 as int].address
                    == (if r.is_ok() {
                    r.unwrap()@[j]
                } else {
                    before[nodes@[j].0 as int].address
                }) by {
                    if j != k {
                        assert(nodes@[j] != nodes@[k as int]);
                        assert(self.nodes@[nodes@[j].0 as int] == held[nodes@[j].0 as int]);
                    }
                }
                assert forall|j: int| k + 1 <= j < nodes@.len() implies self.nodes@[(
                #[trigger] nodes@[j]).0 as int].address == before[nodes@[j].0 as int].address by {
                    assert(nodes@[k as int] != nodes@[j]);
                    assert(self.nodes@[nodes@[j].0 as int] == held[nodes@[j].0 as int]);
                }
                assert forall|t2: int|
                    0 <= t2 < before.len() && !names(nodes@, t2) implies #[trigger] self.nodes@[t2]
                    == before[t2] by {
                    assert(nodes@[k as int].0 == t);
                    assert(t2 != t);
                    assert(self.nodes@[t2] == held[t2]);
                }
            }
            k += 1;
        }
        proof {
            assert forall|t: int| 0 <= t < before.len() implies (#[trigger] self.nodes@[t]).parents
                == before[t].parents && self.nodes@[t].origins == before[t].origins
                && self.nodes@[t].fields == before[t].fields by {
                if names(nodes@, t) {
                    let j = choose|j: int| 0 <= j < nodes@.len() && (#[trigger] nodes@[j]).0 == t;
                    assert(same_but_commit(before[nodes@[j].0 as int], self.nodes@[nodes@[j].0 as int]));
                }
            }
            Self::lemma_same_structure(before, self.nodes@);
            assert(self.nodes@[0] == before[0]) by {
                if names(nodes@, 0) {
                    let j = choose|j: int| 0 <= j < nodes@.len() && (#[trigger] nodes@[j]).0 == 0;
                    assert(0 < nodes@[j].0);
                }
            }
            if r.is_err() {
                assert(made == taken);
                assert(self.nodes@ =~= before) by {
                    assert forall|t: int| 0 <= t < before.len() implies self.nodes@[t]
                        == before[t] by {
                        if names(nodes@, t) {
                            let j = choose|j: int|
                                0 <= j < nodes@.len() && (#[trigger] nodes@[j]).0 == t;
                            assert(same_but_commit(
                                before[nodes@[j].0 as int],
                                self.nodes@[nodes@[j].0 as int],
                            ));
                            assert(self.nodes@[nodes@[j].0 as int].operator == made[j]);
                            assert(taken[j] == before[nodes@[j].0 as int].operator);
                            assert(self.nodes@[nodes@[j].0 as int].address
                                == before[nodes@[j].0 as int].address);
                        }
                    }
                }
            }
        }
        r
    }

    /// Whether the node `n` is a base whose columns can be changed: a sound base that has
    /// the columns of its node.
    pub open spec fn is_sound_base(self, n: NodeIndex) -> bool {
        0 < n.0 < self@.len() && (self@[n.0 as int].operator matches NodeOperator::Base(b)
            && b.wf() && b.width() == self@[n.0 as int].width())
    }

    /// Whether the graph `after` is this graph but for the node `n`, which has the same name
    /// and place as before and is a base with the same key.
    pub open spec fn same_but_base(self, after: FlowGraph, n: NodeIndex) -> bool {
        &&& after@.len() == self@.len()
        &&& after.edges() == self.edges()
        &&& forall|i: int| 0 <= i < self@.len() && i != n.0 ==> #[trigger] after@[i] == self@[i]
        &&& after@[n.0 as int].name == self@[n.0 as int].name
        &&& after@[n.0 as int].domain == self@[n.0 as int].domain
        &&& after@[n.0 as int].sharded_by == self@[n.0 as int].sharded_by
        &&& after@[n.0 as int].address == self@[n.0 as int].address
        &&& after@[n.0 as int].transactional == self@[n.0 as int].transactional
        &&& after@[n.0 as int].parents == self@[n.0 as int].parents
        &&& after@[n.0 as int].origins == self@[n.0 as int].origins
        &&& after@[n.0 as int].operator is Base
        &&& after@[n.0 as int].operator->Base_0.wf()
        &&& after@[n.0 as int].operator->Base_0.key() == self@[n.0 as int].operator->Base_0.key()
        &&& after@[n.0 as int].operator->Base_0.is_unique()
            == self@[n.0 as int].operator->Base_0.is_unique()
        &&& after@[n.0 as int].operator->Base_0.initial_width()
            == self@[n.0 as int].operator->Base_0.initial_width()
    }

    /// Adds the column `field` to the base `n`, with the default `default` for the rows
    /// that were written without it, and returns the number of the column. Nothing is done
    /// where `n` is no sound base or cannot count another column.
    pub fn add_base_column(&mut self, n: NodeIndex, field: String, default: DataType) -> (r: Option<
        usize,
    >)
        requires
            old(self).wf(),
        ensures
            final(self).wf(),
            r.is_some() == (old(self).is_sound_base(n) && old(self)@[n.0 as int].width()
                < usize::MAX),
            r.is_none() ==> final(self)@ == old(self)@ && final(self).edges() == old(self).edges(),
            r.is_some() ==> {
                &&& r.unwrap() == old(self)@[n.0 as int].width()
                &&& old(self).same_but_base(*final(self), n)
                &&& final(self)@[n.0 as int].fields@ == old(self)@[n.0 as int].fields@.push(field)
                &&& final(self)@[n.0 as int].operator->Base_0.column_defaults() == old(
                    self,
                )@[n.0 as int].operator->Base_0.column_defaults().push(default@)
                &&& final(self)@[n.0 as int].operator->Base_0.dropped_columns() == old(
                    self,
                )@[n.0 as int].operator->Base_0.dropped_columns()
            },
    {
        let t: usize = n.index();
        if t == 0 || t >= self.nodes.len() {
            return None;
        }
        let ok: bool = match &self.nodes[t].operator {
            NodeOperator::Base(b) => b.is_sound() && b.columns() == self.nodes[t].fields.len()
                && b.columns() < usize::MAX,
            _ => false,
        };
        if !ok {
            return None;
        }
        let ghost before = self.nodes@;
        let mut column: usize = 0;
        match &mut self.nodes[t].operator {
            NodeOperator::Base(b) => {
                column = b.add_column(default);
            },
            _ => {},
        }
        self.nodes[t].fields.push(field);
        proof {
            Self::lemma_wider_base(before, self.nodes@, t as int);
            assert(self.nodes@[0] == before[0]);
            assert(self.edges() == old(self).edges());
        }
        Some(column)
    }

    /// Drops the column `column` of the base `n`: every row that is written from now on
    /// holds the default in it. Returns whether that was done; nothing is done where `n` is
    /// no sound base or does not have the column.
    pub fn drop_base_column(&mut self, n: NodeIndex, column: usize) -> (dropped: bool)
        requires
            old(self).wf(),
        ensures
            final(self).wf(),
            dropped == (old(self).is_sound_base(n) && column < old(self)@[n.0 as int].width()),
            !dropped ==> final(self)@ == old(self)@ && final(self).edges() == old(self).edges(),
            dropped ==> {
                &&& old(self).same_but_base(*final(self), n)
                &&& final(self)@[n.0 as int].fields == old(self)@[n.0 as int].fields
                &&& final(self)@[n.0 as int].operator->Base_0.column_defaults() == old(
                    self,
                )@[n.0 as int].operator->Base_0.column_defaults()
                &&& final(self)@[n.0 as int].operator->Base_0.dropped_columns() == old(
                    self,
                )@[n.0 as int].operator->Base_0.dropped_columns().push(column)
            },
    {
        let t: usize = n.index();
        if t == 0 || t >= self.nodes.len() {
            return false;
        }
        let ok: bool = match &self.nodes[t].operator {
            NodeOperator::Base(b) => b.is_sound() && b.columns() == self.nodes[t].fields.len()
                && column < b.columns(),
            _ => false,
        };
        if !ok {
            return false;
        }
        let ghost before = self.nodes@;
        match &mut self.nodes[t].operator {
            NodeOperator::Base(b) => {
                b.drop_column(column);
            },
            _ => {},
        }
        proof {
            Self::lemma_wider_base(before, self.nodes@, t as int);
            assert(self.nodes@[0] == before[0]);
            assert(self.edges() == old(self).edges());
        }
        true
    }

    /// Nodes that are sound stay sound when one of them changes, as long as it keeps its
    /// parents and the origins of its columns, and loses no column.
    proof fn lemma_wider_base(before: Seq<Node>, after: Seq<Node>, t: int)
        requires
            0 < t < before.len(),
            after.len() == before.len(),
            forall|i: int| 0 <= i < before.len() && i != t ==> #[trigger] after[i] == before[i],
            after[t].parents == before[t].parents,
            after[t].origins == before[t].origins,
            before[t].width() <= after[t].width(),
            forall|i: int| 0 < i < before.len() ==> Self::node_ok(before, i),
        ensures
            forall|i: int| 0 < i < after.len() ==> Self::node_ok(after, i),
    {
        assert forall|i: int| 0 < i < after.len() implies Self::node_ok(after, i) by {
            {
                assert(Self::node_ok(before, i));
                let n = after[i];
                assert(n.parents == before[i].parents);
                assert(n.origins == before[i].origins);
                assert forall|c: usize, j: int|
                    c < n.width() && 0 <= j < n.origin_of(c).len() implies {
                    let from = #[trigger] n.origin_of(c)[j];
                    &&& 0 < from.0.0 < i
                    &&& from.1.is_some() ==> from.1.unwrap() < after[from.0.0 as int].width()
                } by {
                    assert(n.origin_of(c) == before[i].origin_of(c));
                    assert(c < before[i].origins@.len());
                    assert(c < before[i].width());
                    let from = before[i].origin_of(c)[j];
                    assert(0 < from.0.0 < i);
                    if from.0.0 != t {
                        assert(after[from.0.0 as int] == before[from.0.0 as int]);
                    }
                }
            }
        }
    }

    /// The edges, in the order in which they were added.
    pub fn edge_list(&self) -> (es: Vec<(usize, usize)>)
        ensures
            es@ == self.edges(),
    {
        topology_raw_edges(&self.topology)
    }

    /// The node `n`.
    pub fn node(&self, n: NodeIndex) -> (node: Option<&Node>)
        ensures
            node.is_some() == (n.0 < self@.len()),
            node.is_some() ==> *node.unwrap() == self@[n.0 as int],
    {
        if n.index() < self.nodes.len() {
            Some(&self.nodes[n.index()])
        } else {
            None
        }
    }

    /// Whether every node that the operator `operator` names, as a parent or as the origin
    /// of one of its first `width` columns, is one of the first `n` nodes and not the root.
    pub open spec fn parents_known(n: nat, operator: NodeOperator, width: usize) -> bool {
        &&& forall|j: int|
            0 <= j < operator.parents().len() ==> 0 < (#[trigger] operator.parents()[j]).0 < n
        &&& forall|c: usize, j: int|
            c < width && 0 <= j < operator.origin(c).len() ==> 0 < (#[trigger] operator.origin(
                c,
            )[j]).0.0 < n
    }

    /// Whether every column that the first `width` columns of the operator `operator` come
    /// from is a column of the node that it is taken from.
    pub open spec fn columns_known(nodes: Seq<Node>, operator: NodeOperator, width: usize) -> bool {
        forall|c: usize, j: int|
            c < width && 0 <= j < operator.origin(c).len() ==> {
                let from = #[trigger] operator.origin(c)[j];
                from.1.is_some() && 0 <= from.0.0 < nodes.len() ==> from.1.unwrap()
                    < nodes[from.0.0 as int].width()
            }
    }

    /// Checks that a node with the operator `operator` and `width` columns names only nodes
    /// of the graph.
    fn check_parents(&self, operator: &NodeOperator, width: usize) -> (r: bool)
        requires
            self.wf(),
        ensures
            r == Self::parents_known(self@.len(), *operator, width),
    {
        let parents = operator.ancestors();
        let mut j: usize = 0;
        while j < parents.len()
            invariant
                j <= parents@.len(),
                parents@ == operator.parents(),
                forall|i: int| 0 <= i < j ==> 0 < (#[trigger] operator.parents()[i]).0 < self@.len(),
            decreases parents@.len() - j,
        {
            let p: usize = parents[j].index();
            if p == 0 || p >= self.nodes.len() {
                assert(!(0 < operator.parents()[j as int].0 < self@.len()));
                return false;
            }
            j += 1;
        }
        let mut c: usize = 0;
        while c < width
            invariant
                c <= width,
                forall|i: int|
                    0 <= i < operator.parents().len() ==> 0 < (#[trigger] operator.parents()[i]).0
                        < self@.len(),
                forall|d: usize, i: int|
                    d < c && 0 <= i < operator.origin(d).len() ==> 0 < (#[trigger] operator.origin(
                        d,
                    )[i]).0.0 < self@.len(),
            decreases width - c,
        {
            let origin = operator.parent_columns(c);
            let mut i: usize = 0;
            while i < origin.len()
                invariant
                    i <= origin@.len(),
                    c < width,
                    origin@ == operator.origin(c),
                    forall|k: int|
                        0 <= k < i ==> 0 < (#[trigger] operator.origin(c)[k]).0.0 < self@.len(),
                decreases origin@.len() - i,
            {
                let p: usize = origin[i].0.index();
                if p == 0 || p >= self.nodes.len() {
                    assert(!(0 < operator.origin(c)[i as int].0.0 < self@.len()));
                    return false;
                }
                i += 1;
            }
            c += 1;
        }
        true
    }

    /// Checks that a node with the operator `operator` and `width` columns takes its
    /// columns from columns that are there.
    fn check_columns(&self, operator: &NodeOperator, width: usize) -> (r: bool)
        requires
            self.wf(),
            Self::parents_known(self@.len(), *operator, width),
        ensures
            r == Self::columns_known(self@, *operator, width),
    {
        let mut c: usize = 0;
        while c < width
            invariant
                c <= width,
                Self::parents_known(self@.len(), *operator, width),
                forall|d: usize, i: int|
                    d < c && 0 <= i < operator.origin(d).len() ==> {
                        let from = #[trigger] operator.origin(d)[i];
                        from.1.is_some() && 0 <= from.0.0 < self@.len() ==> from.1.unwrap()
                            < self@[from.0.0 as int].width()
                    },
            decreases width - c,
        {
            let origin = operator.parent_columns(c);
            let mut i: usize = 0;
            while i < origin.len()
                invariant
                    i <= origin@.len(),
                    c < width,
                    origin@ == operator.origin(c),
                    Self::parents_known(self@.len(), *operator, width),
                    forall|k: int|
                        0 <= k < i ==> {
                            let from = #[trigger] operator.origin(c)[k];
                            from.1.is_some() && 0 <= from.0.0 < self@.len() ==> from.1.unwrap()
                                < self@[from.0.0 as int].width()
                        },
                decreases origin@.len() - i,
            {
                let (parent, column) = origin[i];
                let p: usize = parent.index();
                assert(0 < operator.origin(c)[i as int].0.0 < self@.len());
                match column {
                    Some(pc) => {
                        if pc >= self.nodes[p].fields.len() {
                            proof {
                                let from = operator.origin(c)[i as int];
                                assert(from.1.is_some() && !(from.1.unwrap()
                                    < self@[from.0.0 as int].width()));
                            }
                            return false;
                        }
                    },
                    None => {},
                }
                i += 1;
            }
            c += 1;
        }
        true
    }

    /// Whether a graph with the nodes `nodes` and `edges` edges has room for one more node
    /// with the operator `operator`.
    pub open spec fn has_room(nodes: Seq<Node>, edges: nat, operator: NodeOperator) -> bool {
        nodes.len() < u32::MAX && edges + operator.parents().len() + 1 < u32::MAX
    }

    /// What adding a node with the operator `operator` and `width` columns to a graph with
    /// the nodes `nodes` and `edges` edges is refused with, if it is refused.
    pub open spec fn refusal(nodes: Seq<Node>, edges: nat, operator: NodeOperator, width: usize)
        -> Option<GraphError> {
        if !Self::has_room(nodes, edges, operator) {
            Some(GraphError::Full)
        } else if !Self::parents_known(nodes.len(), operator, width) {
            Some(GraphError::UnknownParent)
        } else if !Self::columns_known(nodes, operator, width) {
            Some(GraphError::UnknownColumn)
        } else {
            None
        }
    }

    /// Adds a node with the operator `operator`, whose output has the columns `fields`, and
    /// an edge to it from each of its parents, or from the root if it has none. The node is
    /// refused, and the graph stays as it is, where a parent of the operator is not a node
    /// of the graph, where a column comes from a column that a parent does not have, or
    /// where the graph is full.
    pub fn add_ingredient(&mut self, name: String, fields: Vec<String>, operator: NodeOperator) -> (r:
        Result<NodeIndex, GraphError>)
        requires
            old(self).wf(),
        ensures
            final(self).wf(),
            r.is_err() ==> final(self)@ == old(self)@ && final(self).edges() == old(self).edges(),
            r.is_ok() ==> {
                &&& r.unwrap().0 == old(self)@.len()
                &&& final(self)@.len() == old(self)@.len() + 1
                &&& final(self)@.take(old(self)@.len() as int) == old(self)@
                &&& final(self)@.last().name == name
                &&& final(self)@.last().fields == fields
                &&& final(self)@.last().operator == operator
                &&& final(self)@.last().parents@ == operator.parents()
                &&& final(self)@.last().origins@.len() == fields@.len()
                &&& forall|c: usize|
                    c < fields@.len() ==> #[trigger] final(self)@.last().origin_of(c)
                        == operator.origin(c)
                &&& final(self)@.last().domain.is_none()
                &&& final(self)@.last().address.spec_global() == r.unwrap()
                &&& final(self)@.last().address.spec_local().is_none()
                &&& final(self).edges() == old(self).edges() + Self::edges_to(
                    operator.parents(),
                    old(self)@.len() as usize,
                )
            },
            match Self::refusal(old(self)@, old(self).edges().len(), operator, fields.len()) {
                Some(e) => r == Err::<NodeIndex, GraphError>(e),
                None => r.is_ok(),
            },
    {
        let parents = operator.ancestors();
        let edges_now: usize = topology_edge_count(&self.topology);
        if self.nodes.len() >= u32::MAX as usize || edges_now >= u32::MAX as usize
            || parents.len() >= u32::MAX as usize - edges_now - 1 {
            return Err(GraphError::Full);
        }
        if !self.check_parents(&operator, fields.len()) {
            return Err(GraphError::UnknownParent);
        }
        if !self.check_columns(&operator, fields.len()) {
            return Err(GraphError::UnknownColumn);
        }
        let ghost before = self.nodes@;
        let ghost edges_before = self.edges();
        let mut origins: Vec<Vec<(NodeIndex, Option<usize>)>> = Vec::new();
        let mut column: usize = 0;
        while column < fields.len()
            invariant
                column <= fields@.len(),
                origins@.len() == column,
                forall|c: int| 0 <= c < column ==> (#[trigger] origins@[c])@ == operator.origin(
                    c as usize,
                ),
            decreases fields@.len() - column,
        {
            origins.push(operator.parent_columns(column));
            column += 1;
        }
        let stored = operator.ancestors();
        let ni: usize = topology_add_node(&mut self.topology);
        let address = IndexPair::new(NodeIndex::new(ni));
        let ghost declared = operator;
        let ghost width = fields@.len();
        self.nodes.push(
            Node {
                name,
                fields,
                operator,
                domain: None,
                sharded_by: Sharding::Unsharded,
                address,
                transactional: false,
                parents: stored,
                origins,
            },
        );
        proof {
            let added = self.nodes@.last();
            assert forall|c: usize| c < width implies #[trigger] added.origin_of(c)
                == declared.origin(c) by {
                assert(added.origins@[c as int]@ == declared.origin(c));
            }
            assert(self.nodes@.take(before.len() as int) =~= before);
            assert forall|i: int| 0 < i < self.nodes@.len() implies Self::node_ok(
                self.nodes@,
                i,
            ) by {
                if i < before.len() {
                    assert(Self::node_ok(before, i));
                    assert(self.nodes@[i] == before[i]);
                    let n = before[i];
                    assert forall|c: usize, j: int|
                        c < n.width() && 0 <= j < n.origin_of(c).len() implies {
                        let from = #[trigger] n.origin_of(c)[j];
                        &&& 0 < from.0.0 < i
                        &&& from.1.is_some() ==> from.1.unwrap()
                            < self.nodes@[from.0.0 as int].width()
                    } by {
                        let from = n.origin_of(c)[j];
                        assert(self.nodes@[from.0.0 as int] == before[from.0.0 as int]);
                    }
                } else {
                    let n = self.nodes@[i];
                    assert forall|c: usize, j: int|
                        c < n.width() && 0 <= j < n.origin_of(c).len() implies {
                        let from = #[trigger] n.origin_of(c)[j];
                        &&& 0 < from.0.0 < i
                        &&& from.1.is_some() ==> from.1.unwrap()
                            < self.nodes@[from.0.0 as int].width()
                    } by {
                        let from = n.origin_of(c)[j];
                        assert(self.nodes@[from.0.0 as int] == before[from.0.0 as int]);
                    }
                }
            }
        }
        connect(&mut self.topology, &parents, ni);
        proof {
            let added = Self::edges_to(parents@, ni);
            assert forall|e: int| 0 <= e < self.edges().len() implies (#[trigger] self.edges()[e]).0
                < self.edges()[e].1 < self.nodes@.len() by {
                if e < edges_before.len() {
                    assert(self.edges()[e] == edges_before[e]);
                } else {
                    assert(self.edges()[e] == added[e - edges_before.len()]);
                }
            }
        }
        Ok(NodeIndex::new(ni))
    }

    /// The edges to the node `to` from each of `parents`, or from the root where there are
    /// none.
    pub open spec fn edges_to(parents: Seq<NodeIndex>, to: usize) -> Seq<(usize, usize)> {
        if parents.len() == 0 {
            seq![(0usize, to)]
        } else {
            Seq::new(parents.len(), |j: int| (parents[j].0, to))
        }
    }

    /// The nodes that take the records of the node `n`, the one added last first.
    pub fn children(&self, n: NodeIndex) -> (c: Vec<NodeIndex>)
        requires
            self.wf(),
            n.0 < self@.len(),
        ensures
            c@.len() == neighbors_of(self.edges(), n.0, true).len(),
            forall|i: int|
                0 <= i < c@.len() ==> (#[trigger] c@[i]).0 == neighbors_of(self.edges(), n.0, true)[i],
    {
        let found = topology_neighbors(&self.topology, n.index(), true);
        let mut c: Vec<NodeIndex> = Vec::new();
        let mut i: usize = 0;
        while i < found.len()
            invariant
                i <= found@.len(),
                c@.len() == i,
                forall|j: int| 0 <= j < i ==> (#[trigger] c@[j]).0 == found@[j],
            decreases found@.len() - i,
        {
            c.push(NodeIndex::new(found[i]));
            i += 1;
        }
        c
    }

    /// The nodes whose records the node `n` takes, according to the edges, the one added
    /// last first.
    pub fn parents(&self, n: NodeIndex) -> (c: Vec<NodeIndex>)
        requires
            self.wf(),
            n.0 < self@.len(),
        ensures
            c@.len() == neighbors_of(self.edges(), n.0, false).len(),
            forall|i: int|
                0 <= i < c@.len() ==> (#[trigger] c@[i]).0 == neighbors_of(
                    self.edges(),
                    n.0,
                    false,
                )[i],
    {
        let found = topology_neighbors(&self.topology, n.index(), false);
        let mut c: Vec<NodeIndex> = Vec::new();
        let mut i: usize = 0;
        while i < found.len()
            invariant
                i <= found@.len(),
                c@.len() == i,
                forall|j: int| 0 <= j < i ==> (#[trigger] c@[j]).0 == found@[j],
            decreases found@.len() - i,
        {
            c.push(NodeIndex::new(found[i]));
            i += 1;
        }
        c
    }

    /// Whether there is an edge from `a` to `b`.
    pub fn has_edge(&self, a: NodeIndex, b: NodeIndex) -> (found: bool)
        requires
            self.wf(),
        ensures
            found == self.edges().contains((a.0, b.0)),
    {
        if a.index() < self.nodes.len() && b.index() < self.nodes.len() {
            topology_has_edge(&self.topology, a.index(), b.index())
        } else {
            proof {
                if self.edges().contains((a.0, b.0)) {
                    let e = choose|e: int|
                        0 <= e < self.edges().len() && self.edges()[e] == (a.0, b.0);
                    assert(self.edges()[e].0 < self.edges()[e].1 < self.nodes@.len());
                }
            }
            false
        }
    }

    /// The input nodes: the nodes below the root, the one added last first.
    pub fn inputs(&self) -> (c: Vec<NodeIndex>)
        requires
            self.wf(),
        ensures
            c@.len() == neighbors_of(self.edges(), 0, true).len(),
            forall|i: int|
                0 <= i < c@.len() ==> (#[trigger] c@[i]).0 == neighbors_of(self.edges(), 0, true)[i],
    {
        self.children(NodeIndex::new(0))
    }

    /// The nodes, among the first `n`, that readers are for, in the order of the readers.
    pub open spec fn read_nodes(nodes: Seq<Node>, n: int) -> Seq<NodeIndex>
        decreases n,
    {
        if n <= 0 {
            Seq::empty()
        } else {
            match nodes[n - 1].operator {
                NodeOperator::Reader(r) => Self::read_nodes(nodes, n - 1).push(
                    r.source().spec_global(),
                ),
                _ => Self::read_nodes(nodes, n - 1),
            }
        }
    }

    /// The output nodes: the nodes that a reader is for, in the order of the readers.
    pub fn outputs(&self) -> (c: Vec<NodeIndex>)
        ensures
            c@ == Self::read_nodes(self@, self@.len() as int),
    {
        let mut c: Vec<NodeIndex> = Vec::new();
        let mut i: usize = 0;
        while i < self.nodes.len()
            invariant
                i <= self.nodes@.len(),
                c@ == Self::read_nodes(self@, i as int),
            decreases self.nodes@.len() - i,
        {
            match &self.nodes[i].operator {
                NodeOperator::Reader(r) => {
                    let a = r.ancestors();
                    c.push(a[0]);
                },
                _ => {},
            }
            i += 1;
        }
        c
    }

    /// The reader for the node `node`: the first reader whose parent is `node`.
    pub fn find_getter_for(&self, node: NodeIndex) -> (r: Option<NodeIndex>)
        ensures
            r.is_some() ==> r.unwrap().0 < self@.len() && (
            self@[r.unwrap().0 as int].operator matches NodeOperator::Reader(reader)
                && reader.source().spec_global() == node),
            r.is_some() ==> forall|i: int|
                0 <= i < r.unwrap().0 ==> !(
                (#[trigger] self@[i]).operator matches NodeOperator::Reader(reader)
                    && reader.source().spec_global() == node),
            r.is_none() ==> forall|i: int|
                0 <= i < self@.len() ==> !(
                (#[trigger] self@[i]).operator matches NodeOperator::Reader(reader)
                    && reader.source().spec_global() == node),
    {
        let mut i: usize = 0;
        while i < self.nodes.len()
            invariant
                i <= self.nodes@.len(),
                forall|j: int|
                    0 <= j < i ==> !((#[trigger] self@[j]).operator matches NodeOperator::Reader(
                        reader,
                    ) && reader.source().spec_global() == node),
            decreases self.nodes@.len() - i,
        {
            match &self.nodes[i].operator {
                NodeOperator::Reader(r) => {
                    let a = r.ancestors();
                    if a[0] == node {
                        return Some(NodeIndex::new(i));
                    }
                },
                _ => {},
            }
            i += 1;
        }
        None
    }

    /// Whether `b` is a base of the graph.
    pub open spec fn is_base(self, b: NodeIndex) -> bool {
        b.0 < self@.len() && self@[b.0 as int].operator is Base
    }

    /// The bases above the node `n`, each without a column, in the order of the parents:
    /// what a computed column of a node below depends on. A base is above itself.
    pub open spec fn bases_of(nodes: Seq<Node>, n: int) -> Seq<(NodeIndex, Option<usize>)>
        decreases n, nodes[n].parents@.len() + 1,
    {
        if nodes[n].operator is Base {
            seq![(NodeIndex(n as usize), Option::<usize>::None)]
        } else {
            Self::bases_upto(nodes, n, nodes[n].parents@.len() as int)
        }
    }

    /// The bases above the first `j` parents of the node `n`.
    pub open spec fn bases_upto(nodes: Seq<Node>, n: int, j: int) -> Seq<
        (NodeIndex, Option<usize>),
    >
        decreases n, j,
    {
        if j <= 0 || j > nodes[n].parents@.len() {
            Seq::empty()
        } else {
            let p = nodes[n].parents@[j - 1].0 as int;
            Self::bases_upto(nodes, n, j - 1) + if 0 < p < n {
                Self::bases_of(nodes, p)
            } else {
                Seq::empty()
            }
        }
    }

    /// Where column `col` of the node `n` comes from, followed up to the bases: a column of
    /// a base is its own origin; a column that is copied has the origins of the column
    /// that it is copied from; a column that is computed from a parent has the bases above
    /// that parent, each without a column.
    pub open spec fn origins_of(nodes: Seq<Node>, n: int, col: usize) -> Seq<
        (NodeIndex, Option<usize>),
    >
        decreases n, nodes[n].origin_of(col).len() + 1,
    {
        if nodes[n].operator is Base {
            seq![(NodeIndex(n as usize), Some(col))]
        } else {
            Self::origins_upto(nodes, n, col, nodes[n].origin_of(col).len() as int)
        }
    }

    /// The origins of column `col` of the node `n` through the first `j` of the columns
    /// that it comes from.
    pub open spec fn origins_upto(nodes: Seq<Node>, n: int, col: usize, j: int) -> Seq<
        (NodeIndex, Option<usize>),
    >
        decreases n, j,
    {
        if j <= 0 || j > nodes[n].origin_of(col).len() {
            Seq::empty()
        } else {
            let from = nodes[n].origin_of(col)[j - 1];
            let p = from.0.0 as int;
            Self::origins_upto(nodes, n, col, j - 1) + if 0 < p < n {
                match from.1 {
                    Some(c) => Self::origins_of(nodes, p, c),
                    None => Self::bases_of(nodes, p),
                }
            } else {
                Seq::empty()
            }
        }
    }

    /// Whether `found` names bases of the graph only, and of each only columns that the
    /// base has.
    pub open spec fn ends_at_bases(self, found: Seq<(NodeIndex, Option<usize>)>) -> bool {
        forall|i: int|
            0 <= i < found.len() ==> {
                &&& self.is_base((#[trigger] found[i]).0)
                &&& found[i].1.is_some() ==> found[i].1.unwrap() < self@[found[i].0.0 as int].width()
            }
    }

    /// The bases above the node `n`, each without a column: what a computed column of a
    /// node below depends on.
    pub fn bases_above(&self, n: NodeIndex) -> (r: Vec<(NodeIndex, Option<usize>)>)
        requires
            self.wf(),
            0 < n.0 < self@.len(),
        ensures
            r@ == Self::bases_of(self@, n.0 as int),
            self.ends_at_bases(r@),
            forall|i: int| 0 <= i < r@.len() ==> (#[trigger] r@[i]).1.is_none(),
        decreases n.0,
    {
        let node = &self.nodes[n.index()];
        let mut out: Vec<(NodeIndex, Option<usize>)> = Vec::new();
        if node.operator.is_base() {
            out.push((n, None));
            assert(out@ =~= Self::bases_of(self@, n.0 as int));
            return out;
        }
        let parents = &node.parents;
        let mut j: usize = 0;
        proof {
            assert(Self::node_ok(self.nodes@, n.0 as int));
        }
        while j < parents.len()
            invariant
                j <= parents@.len(),
                self.wf(),
                0 < n.0 < self@.len(),
                parents@ == self@[n.0 as int].parents@,
                Self::node_ok(self.nodes@, n.0 as int),
                out@ == Self::bases_upto(self@, n.0 as int, j as int),
                self.ends_at_bases(out@),
                forall|i: int| 0 <= i < out@.len() ==> (#[trigger] out@[i]).1.is_none(),
            decreases parents@.len() - j,
        {
            assert(0 < self@[n.0 as int].parents@[j as int].0 < n.0);
            let mut above = self.bases_above(parents[j]);
            let ghost held = out@;
            let ghost more = above@;
            out.append(&mut above);
            assert(out@ =~= held + more);
            assert forall|i: int| 0 <= i < out@.len() implies {
                &&& self.is_base((#[trigger] out@[i]).0)
                &&& out@[i].1.is_none()
            } by {
                if i < held.len() {
                    assert(out@[i] == held[i]);
                } else {
                    assert(out@[i] == more[i - held.len()]);
                }
            }
            j += 1;
        }
        out
    }

    /// Where column `col` of the node `n` comes from, followed up to the bases: the columns
    /// of bases that it is copied from, and, where it is computed on the way, the bases
    /// that it is computed from, without a column. The search ends, whatever the graph, and
    /// ends at bases; and every column that it names is a column that its base has.
    pub fn provenance(&self, n: NodeIndex, col: usize) -> (r: Vec<(NodeIndex, Option<usize>)>)
        requires
            self.wf(),
            0 < n.0 < self@.len(),
            col < self@[n.0 as int].width(),
        ensures
            r@ == Self::origins_of(self@, n.0 as int, col),
            self.ends_at_bases(r@),
        decreases n.0,
    {
        let node = &self.nodes[n.index()];
        let mut out: Vec<(NodeIndex, Option<usize>)> = Vec::new();
        if node.operator.is_base() {
            out.push((n, Some(col)));
            assert(out@ =~= Self::origins_of(self@, n.0 as int, col));
            return out;
        }
        if col >= node.origins.len() {
            assert(out@ =~= Self::origins_of(self@, n.0 as int, col));
            return out;
        }
        let origin = &node.origins[col];
        let mut j: usize = 0;
        proof {
            assert(Self::node_ok(self.nodes@, n.0 as int));
        }
        while j < origin.len()
            invariant
                j <= origin@.len(),
                self.wf(),
                0 < n.0 < self@.len(),
                col < self@[n.0 as int].width(),
                origin@ == self@[n.0 as int].origin_of(col),
                Self::node_ok(self.nodes@, n.0 as int),
                out@ == Self::origins_upto(self@, n.0 as int, col, j as int),
                self.ends_at_bases(out@),
            decreases origin@.len() - j,
        {
            let (parent, column) = origin[j];
            proof {
                let from = self@[n.0 as int].origin_of(col)[j as int];
                assert(0 < from.0.0 < n.0);
                assert(from.1.is_some() ==> from.1.unwrap() < self@[from.0.0 as int].width());
            }
            let mut above = match column {
                Some(pc) => self.provenance(parent, pc),
                None => self.bases_above(parent),
            };
            let ghost held = out@;
            let ghost more = above@;
            out.append(&mut above);
            assert(out@ =~= held + more);
            assert forall|i: int| 0 <= i < out@.len() implies {
                &&& self.is_base((#[trigger] out@[i]).0)
                &&& out@[i].1.is_some() ==> out@[i].1.unwrap() < self@[out@[i].0.0 as int].width()
            } by {
                if i < held.len() {
                    assert(out@[i] == held[i]);
                } else {
                    assert(out@[i] == more[i - held.len()]);
                }
            }
            j += 1;
        }
        out
    }
}

/// Adds the edges to the node `to` from each of `parents`, or from the root where there are
/// none.
fn connect(topology: &mut petgraph::graph::Graph<(), ()>, parents: &Vec<NodeIndex>, to: usize)
    requires
        to < topology_nodes(*old(topology)),
        topology_edges(*old(topology)).len() + parents@.len() + 1 < u32::MAX,
        forall|i: int| 0 <= i < parents@.len() ==> (#[trigger] parents@[i]).0 < to,
    ensures
        topology_nodes(*final(topology)) == topology_nodes(*old(topology)),
        topology_edges(*final(topology)) == topology_edges(*old(topology)) + FlowGraph::edges_to(
            parents@,
            to,
        ),
{
    let ghost edges_before = topology_edges(*topology);
    let ghost all = FlowGraph::edges_to(parents@, to);
    if parents.len() == 0 {
        topology_add_edge(topology, 0, to);
        proof {
            assert(all =~= seq![(0usize, to)]);
            assert(topology_edges(*topology) =~= edges_before + all);
        }
    } else {
        let mut j: usize = 0;
        proof {
            assert(edges_before + all.take(0) =~= edges_before);
        }
        while j < parents.len()
            invariant
                j <= parents@.len(),
                parents@.len() > 0,
                all == FlowGraph::edges_to(parents@, to),
                to < topology_nodes(*topology),
                topology_nodes(*topology) == topology_nodes(*old(topology)),
                edges_before.len() + parents@.len() + 1 < u32::MAX,
                forall|i: int| 0 <= i < parents@.len() ==> (#[trigger] parents@[i]).0 < to,
                topology_edges(*topology) == edges_before + all.take(j as int),
            decreases parents@.len() - j,
        {
            topology_add_edge(topology, parents[j].index(), to);
            proof {
                assert(all[j as int] == (parents@[j as int].0, to));
                assert(all.take(j + 1) =~= all.take(j as int).push(all[j as int]));
                assert(topology_edges(*topology) =~= edges_before + all.take(j + 1));
            }
            j += 1;
        }
        proof {
            assert(all.take(parents@.len() as int) =~= all);
        }
    }
}

/// `Graph::edge_count`: the number of edges.
#[verifier::external_body]
fn topology_edge_count(g: &petgraph::graph::Graph<(), ()>) -> (n: usize)
    ensures
        n == topology_edges(*g).len(),
{
    g.edge_count()
}

} // verus!
