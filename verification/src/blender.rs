//! The graph of a deployment with its settings, and the migrations that add to it.

use crate::addressing::{DomainIndex, IndexPair, NodeIndex, Remap, Sharding};
use crate::assoc::{
    assoc_map, distinct_keys, has_key, lemma_assoc_absent, lemma_assoc_at, lemma_assoc_push,
    lemma_assoc_update,
};
use crate::channel::ChannelCoordinator;
use crate::data::{DataType, Value};
use crate::flow::{FlowGraph, GraphError, Node, NodeOperator};
use crate::migrate::{
    distinct_nodes, group_by_domain, group_done, group_refused, grouped, groups_apart,
    groups_view, groups_within, lemma_done_kept, lemma_done_same, lemma_grouped,
    lemma_refused_same, names, placed_once, swaps_merged, with_locals, CommitError, Swap, Swaps,
};
use crate::payload::{Packet, PacketView};
use crate::reader::Reader;
use vstd::prelude::*;

verus! {

/// The settings of the domains.
#[derive(Clone, Copy, Debug, PartialEq, Eq, Structural)]
pub struct DomainConfig {
    /// The most partial replays that a domain may have under way at a time. It must be
    /// greater than the number of parents of the widest union, or replays can block each
    /// other for ever.
    pub concurrent_replays: usize,
    /// The most replies to partial replays that are put together in one batch.
    pub replay_batch_size: usize,
    /// The longest time, in nanoseconds, that a reply to a partial replay is held back.
    pub replay_batch_timeout: u64,
}

/// The graph of a deployment and its settings. The graph is changed through migrations
/// only.
pub struct Blender {
    ingredients: FlowGraph,
    ndomains: usize,
    sharding_enabled: bool,
    partial_enabled: bool,
    domain_config: DomainConfig,
    workers: Vec<String>,
    remaps: Vec<(DomainIndex, Remap)>,
}

impl Blender {
    /// The graph.
    pub closed spec fn graph(self) -> FlowGraph {
        self.ingredients
    }

    /// The number of domains.
    pub closed spec fn domains(self) -> nat {
        self.ndomains as nat
    }

    /// Whether nodes are sharded.
    pub closed spec fn sharding(self) -> bool {
        self.sharding_enabled
    }

    /// Whether states may be partial.
    pub closed spec fn partial(self) -> bool {
        self.partial_enabled
    }

    /// The settings of the domains.
    pub closed spec fn config(self) -> DomainConfig {
        self.domain_config
    }

    /// The addresses of the workers, in the order in which they came.
    pub closed spec fn worker_addresses(self) -> Seq<Seq<char>> {
        Seq::new(self.workers@.len(), |i: int| self.workers@[i]@)
    }

    /// The mappings of the domains, each with its domain: for the nodes of a domain that
    /// are committed, their addresses.
    pub closed spec fn mappings(self) -> Seq<(DomainIndex, Remap)> {
        self.remaps@
    }

    /// The mapping of the domain `d`: for each of its nodes that is committed, the address
    /// of the node. Empty for a domain without such nodes.
    pub closed spec fn mapping(self, d: DomainIndex) -> Map<NodeIndex, IndexPair> {
        if has_key(self.remaps@, d) {
            assoc_map(self.remaps@)[d]@
        } else {
            Map::empty()
        }
    }

    /// The number of entries of the mapping of the domain `d`: the number of nodes of the
    /// domain that are committed.
    pub closed spec fn members(self, d: DomainIndex) -> nat {
        if has_key(self.remaps@, d) {
            assoc_map(self.remaps@)[d].spec_len()
        } else {
            0
        }
    }

    /// No domain has two mappings, and every mapping is sound.
    pub closed spec fn mappings_wf(self) -> bool {
        &&& distinct_keys(self.remaps@)
        &&& forall|i: int| 0 <= i < self.remaps@.len() ==> (#[trigger] self.remaps@[i]).1.wf()
    }

    /// The graph and the mappings of the domains are sound.
    pub open spec fn wf(self) -> bool {
        self.graph().wf() && self.mappings_wf()
    }

    /// What a change of the graph leaves as it is: everything but the graph.
    pub open spec fn same_but_graph(self, after: Blender) -> bool {
        &&& after.domains() == self.domains()
        &&& after.sharding() == self.sharding()
        &&& after.partial() == self.partial()
        &&& after.config() == self.config()
        &&& after.worker_addresses() == self.worker_addresses()
        &&& after.mappings() == self.mappings()
    }

    /// What a setter leaves as it is: everything but the settings of the domains.
    pub open spec fn same_but_config(self, after: Blender) -> bool {
        &&& after.graph() == self.graph()
        &&& after.domains() == self.domains()
        &&& after.sharding() == self.sharding()
        &&& after.partial() == self.partial()
        &&& after.worker_addresses() == self.worker_addresses()
        &&& after.mappings() == self.mappings()
    }

    /// Construct a new, empty `Blender`: a graph with nothing but its root, no domains, no
    /// workers, sharding and partial states enabled, at most 512 replays at a time, and
    /// batches of at most 32 replies that are held back for at most one millisecond.
    pub fn new() -> (b: Blender)
        ensures
            b.wf(),
            b.graph()@.len() == 1,
            b.domains() == 0,
            b.sharding(),
            b.partial(),
            b.worker_addresses().len() == 0,
            b.mappings().len() == 0,
            b.config() == (DomainConfig {
                concurrent_replays: 512,
                replay_batch_size: 32,
                replay_batch_timeout: 1000000,
            }),
    {
        Blender {
            ingredients: FlowGraph::new(),
            ndomains: 0,
            sharding_enabled: true,
            partial_enabled: true,
            domain_config: DomainConfig {
                concurrent_replays: 512,
                replay_batch_size: 32,
                replay_batch_timeout: 1000000,
            },
            workers: Vec::new(),
            remaps: Vec::new(),
        }
    }

    /// The number of domains.
    pub fn ndomains(&self) -> (n: usize)
        ensures
            n == self.domains(),
    {
        self.ndomains
    }

    /// The settings of the domains.
    pub fn domain_config(&self) -> (c: DomainConfig)
        ensures
            c == self.config(),
    {
        self.domain_config
    }

    /// Set the maximum number of concurrent partial replay requests a domain can have
    /// outstanding at any given time.
    pub fn set_max_concurrent_replay(&mut self, n: usize)
        ensures
            old(self).same_but_config(*final(self)),
            final(self).config() == (DomainConfig { concurrent_replays: n, ..old(self).config() }),
    {
        self.domain_config.concurrent_replays = n;
    }

    /// Set the maximum number of partial replay responses that can be aggregated into a
    /// single replay batch.
    pub fn set_partial_replay_batch_size(&mut self, n: usize)
        ensures
            old(self).same_but_config(*final(self)),
            final(self).config() == (DomainConfig { replay_batch_size: n, ..old(self).config() }),
    {
        self.domain_config.replay_batch_size = n;
    }

    /// Set the longest time, in nanoseconds, a partial replay response can be delayed.
    pub fn set_partial_replay_batch_timeout(&mut self, t: u64)
        ensures
            old(self).same_but_config(*final(self)),
            final(self).config() == (DomainConfig { replay_batch_timeout: t, ..old(self).config() }),
    {
        self.domain_config.replay_batch_timeout = t;
    }

    /// Disable partial materialization for all subsequent migrations.
    pub fn disable_partial(&mut self)
        ensures
            !final(self).partial(),
            final(self).graph() == old(self).graph(),
            final(self).domains() == old(self).domains(),
            final(self).sharding() == old(self).sharding(),
            final(self).config() == old(self).config(),
            final(self).mappings() == old(self).mappings(),
            final(self).worker_addresses() == old(self).worker_addresses(),
    {
        self.partial_enabled = false;
    }

    /// Disable sharding for all subsequent migrations.
    pub fn disable_sharding(&mut self)
        ensures
            !final(self).sharding(),
            final(self).graph() == old(self).graph(),
            final(self).domains() == old(self).domains(),
            final(self).partial() == old(self).partial(),
            final(self).config() == old(self).config(),
            final(self).mappings() == old(self).mappings(),
            final(self).worker_addresses() == old(self).worker_addresses(),
    {
        self.sharding_enabled = false;
    }

    /// Whether the nodes of subsequent migrations are sharded.
    pub fn sharding_enabled(&self) -> (b: bool)
        ensures
            b == self.sharding(),
    {
        self.sharding_enabled
    }

    /// Whether the states of subsequent migrations may be partial.
    pub fn partial_enabled(&self) -> (b: bool)
        ensures
            b == self.partial(),
    {
        self.partial_enabled
    }

    /// Adds a worker that is reached at `addr`.
    pub fn add_worker(&mut self, addr: String)
        ensures
            final(self).worker_addresses() == old(self).worker_addresses().push(addr@),
            final(self).graph() == old(self).graph(),
            final(self).domains() == old(self).domains(),
            final(self).sharding() == old(self).sharding(),
            final(self).partial() == old(self).partial(),
            final(self).config() == old(self).config(),
            final(self).mappings() == old(self).mappings(),
    {
        self.workers.push(addr);
        assert(self.worker_addresses() =~= old(self).worker_addresses().push(addr@));
    }

    /// The number of workers.
    pub fn worker_count(&self) -> (n: usize)
        ensures
            n == self.worker_addresses().len(),
    {
        self.workers.len()
    }

    /// The graph.
    pub fn ingredients(&self) -> (g: &FlowGraph)
        ensures
            *g == self.graph(),
    {
        &self.ingredients
    }

    /// Get all known input nodes: the nodes below the root, the one added last first.
    pub fn inputs(&self) -> (c: Vec<NodeIndex>)
        requires
            self.wf(),
        ensures
            c@.len() == crate::flow::neighbors_of(self.graph().edges(), 0, true).len(),
            forall|i: int|
                0 <= i < c@.len() ==> (#[trigger] c@[i]).0 == crate::flow::neighbors_of(
                    self.graph().edges(),
                    0,
                    true,
                )[i],
    {
        self.ingredients.inputs()
    }

    /// Get all known output nodes: the nodes that a reader is for, in the order of the
    /// readers.
    pub fn outputs(&self) -> (c: Vec<NodeIndex>)
        ensures
            c@ == FlowGraph::read_nodes(self.graph()@, self.graph()@.len() as int),
    {
        self.ingredients.outputs()
    }

    /// The lines of the first `k` of the nodes `nodes` in the text of a graph: for each
    /// node its number, its name and the sign of its operator.
    pub open spec fn node_lines(nodes: Seq<crate::flow::Node>, k: int) -> Seq<char>
        decreases k,
    {
        if k <= 0 {
            Seq::empty()
        } else {
            Self::node_lines(nodes, k - 1) + "    "@ + crate::text::decimal((k - 1) as nat)
                + " [label=\""@ + nodes[k - 1].name@ + ": "@ + nodes[k - 1].operator.described()
                + "\"]\n"@
        }
    }

    /// The lines of the first `k` of the edges `edges` in the text of a graph: for each
    /// edge the numbers of its two nodes.
    pub open spec fn edge_lines(edges: Seq<(usize, usize)>, k: int) -> Seq<char>
        decreases k,
    {
        if k <= 0 {
            Seq::empty()
        } else {
            Self::edge_lines(edges, k - 1) + "    "@ + crate::text::decimal(edges[k - 1].0 as nat)
                + " -> "@ + crate::text::decimal(edges[k - 1].1 as nat) + "\n"@
        }
    }

    /// The graph with the nodes `nodes` and the edges `edges` as a text in the language of
    /// Graphviz: the nodes in their order, then the edges in the order in which they were
    /// added.
    pub open spec fn graph_text(nodes: Seq<crate::flow::Node>, edges: Seq<(usize, usize)>) -> Seq<
        char,
    > {
        "digraph {\n"@ + "    node [shape=record, fontsize=10]\n"@ + Self::node_lines(
            nodes,
            nodes.len() as int,
        ) + Self::edge_lines(edges, edges.len() as int) + "}"@
    }

    /// The graph as a text in the language of Graphviz.
    pub fn to_text(&self) -> (s: String)
        ensures
            s@ == Self::graph_text(self.graph()@, self.graph().edges()),
    {
        let mut s = String::from_str("digraph {\n");
        s.append("    node [shape=record, fontsize=10]\n");
        let ghost head = s@;
        let n: usize = self.ingredients.node_count();
        let mut i: usize = 0;
        while i < n
            invariant
                i <= n,
                n == self.graph()@.len(),
                s@ == head + Self::node_lines(self.graph()@, i as int),
            decreases n - i,
        {
            let ghost before = s@;
            s.append("    ");
            let number = crate::text::decimal_string(i as u64);
            s.append(number.as_str());
            s.append(" [label=\"");
            match self.ingredients.node(NodeIndex::new(i)) {
                Some(node) => {
                    s.append(node.name.as_str());
                    s.append(": ");
                    let sign = node.operator.description();
                    s.append(sign.as_str());
                },
                None => {},
            }
            s.append("\"]\n");
            assert(s@ =~= head + Self::node_lines(self.graph()@, i + 1));
            i += 1;
        }
        let ghost nodes_done = s@;
        let edges = self.ingredients.edge_list();
        let mut e: usize = 0;
        while e < edges.len()
            invariant
                e <= edges@.len(),
                edges@ == self.graph().edges(),
                s@ == nodes_done + Self::edge_lines(edges@, e as int),
            decreases edges@.len() - e,
        {
            s.append("    ");
            let a = crate::text::decimal_string(edges[e].0 as u64);
            s.append(a.as_str());
            s.append(" -> ");
            let b = crate::text::decimal_string(edges[e].1 as u64);
            s.append(b.as_str());
            s.append("\n");
            assert(s@ =~= nodes_done + Self::edge_lines(edges@, e + 1));
            e += 1;
        }
        s.append("}");
        assert(s@ =~= Self::graph_text(self.graph()@, self.graph().edges()));
        s
    }

    /// The key that writes to the base `base` are routed and checked by: the primary key of
    /// the base, or, where it has none, the column that the base is sharded by, if it is.
    pub open spec fn mutator_key(key: Seq<usize>, sharded_by: Sharding) -> Seq<usize> {
        if key.len() > 0 {
            key
        } else {
            match sharded_by {
                Sharding::ByColumn { column, .. } => seq![column],
                Sharding::Unsharded => Seq::empty(),
            }
        }
    }

    /// Whether the coordinator `known` knows where every one of the `shards` shards of the
    /// domain `d` is reached.
    pub open spec fn reaches(
        known: Map<(DomainIndex, usize), crate::channel::Transport>,
        d: DomainIndex,
        shards: nat,
    ) -> bool {
        forall|i: usize| i < shards ==> #[trigger] known.dom().contains((d, i))
    }

    /// Obtain what a mutator for the base node `base` is built from, to perform writes and
    /// deletes: the addresses of the shards of the base's domain, as `coordinator` knows
    /// them, the address of the base, the key of its writes and whether that is the
    /// primary key, whether its writes are transactional, its dropped columns, and the
    /// number of columns that a written row must have, which is the number of columns of
    /// the base less those that were dropped. `None` where `base` is no base of the graph,
    /// where it has no domain yet, and where a shard of its domain is not known.
    pub fn get_mutator_builder(&self, coordinator: &ChannelCoordinator, base: NodeIndex) -> (r:
        Option<MutatorBuilder>)
        requires
            coordinator.wf(),
        ensures
            r.is_some() == (self.graph().is_base(base) && self.graph()@[base.0 as int].domain.is_some()
                && Self::reaches(
                coordinator@,
                self.graph()@[base.0 as int].domain.unwrap(),
                self.graph()@[base.0 as int].sharded_by.spec_shards(),
            )),
            r.is_some() ==> {
                let node = self.graph()@[base.0 as int];
                let operator = node.operator->Base_0;
                let m = r.unwrap();
                &&& m.txs@.len() == node.sharded_by.spec_shards()
                &&& forall|i: usize|
                    i < m.txs@.len() ==> (#[trigger] m.txs@[i as int])@ == coordinator@[(
                        node.domain.unwrap(),
                        i,
                    )].addr
                &&& m.addr == node.address
                &&& m.key@ == Self::mutator_key(operator.key(), node.sharded_by)
                &&& m.key_is_primary == (operator.key().len() > 0)
                &&& m.transactional == node.transactional
                &&& m.dropped@ == operator.dropped_columns()
                &&& m.expected_columns == if operator.dropped_columns().len() <= node.width() {
                    node.width() - operator.dropped_columns().len()
                } else {
                    0
                }
                &&& m.is_local
            },
    {
        let node = match self.ingredients.node(base) {
            Some(node) => node,
            None => {
                return None;
            },
        };
        match &node.operator {
            NodeOperator::Base(b) => {
                let d = match node.domain {
                    Some(d) => d,
                    None => {
                        return None;
                    },
                };
                let shards: usize = node.sharded_by.shards();
                let mut txs: Vec<String> = Vec::new();
                let mut i: usize = 0;
                while i < shards
                    invariant
                        i <= shards,
                        coordinator.wf(),
                        self.graph().is_base(base),
                        self.graph()@[base.0 as int].domain == Some(d),
                        shards == self.graph()@[base.0 as int].sharded_by.spec_shards(),
                        txs@.len() == i,
                        forall|j: usize| j < i ==> #[trigger] coordinator@.dom().contains((d, j)),
                        forall|j: usize|
                            j < i ==> (#[trigger] txs@[j as int])@ == coordinator@[(d, j)].addr,
                    decreases shards - i,
                {
                    match coordinator.get_addr((d, i)) {
                        Some(addr) => {
                            txs.push(addr);
                        },
                        None => {
                            assert(!coordinator@.dom().contains((d, i)));
                            return None;
                        },
                    }
                    i += 1;
                }
                let primary = b.primary_key();
                let is_primary: bool = primary.len() > 0;
                let mut key: Vec<usize> = primary.clone();
                if !is_primary {
                    match node.sharded_by {
                        Sharding::ByColumn { column, .. } => {
                            key.push(column);
                        },
                        Sharding::Unsharded => {},
                    }
                }
                assert(key@ =~= Self::mutator_key(b.key(), node.sharded_by));
                let dropped: Vec<usize> = b.dropped().clone();
                let fields: usize = node.fields.len();
                let expected_columns: usize = if dropped.len() <= fields {
                    fields - dropped.len()
                } else {
                    0
                };
                Some(
                    MutatorBuilder {
                        txs,
                        addr: node.address,
                        key,
                        key_is_primary: is_primary,
                        transactional: node.transactional,
                        dropped,
                        expected_columns,
                        is_local: true,
                    },
                )
            },
            _ => None,
        }
    }

    /// The position of the mapping of the domain `d`, which is made, empty, where the
    /// domain has none.
    fn remap_index(&mut self, d: DomainIndex) -> (at: usize)
        requires
            old(self).wf(),
        ensures
            final(self).wf(),
            at < final(self).remaps@.len(),
            final(self).remaps@[at as int].0 == d,
            final(self).remaps@[at as int].1.wf(),
            final(self).remaps@[at as int].1@ == old(self).mapping(d),
            final(self).remaps@[at as int].1.spec_len() == old(self).members(d),
            final(self).graph() == old(self).graph(),
            final(self).domains() == old(self).domains(),
            final(self).sharding() == old(self).sharding(),
            final(self).partial() == old(self).partial(),
            final(self).config() == old(self).config(),
            final(self).worker_addresses() == old(self).worker_addresses(),
            forall|e: DomainIndex|
                (#[trigger] final(self).mapping(e)) == old(self).mapping(e) && final(self).members(
                    e,
                ) == old(self).members(e),
    {
        let mut i: usize = 0;
        while i < self.remaps.len()
            invariant
                i <= self.remaps@.len(),
                *self == *old(self),
                self.wf(),
                forall|j: int| 0 <= j < i ==> (#[trigger] self.remaps@[j]).0 != d,
            decreases self.remaps@.len() - i,
        {
            if self.remaps[i].0 == d {
                proof {
                    lemma_assoc_at(self.remaps@, i as int);
                }
                return i;
            }
            i += 1;
        }
        let ghost before = self.remaps@;
        let empty = Remap::new();
        proof {
            lemma_assoc_absent(before, d);
            lemma_assoc_push(before, d, empty);
        }
        self.remaps.push((d, empty));
        proof {
            assert(self.remaps@ == before.push((d, empty)));
            lemma_assoc_at(self.remaps@, before.len() as int);
            assert forall|e: DomainIndex|
                (#[trigger] self.mapping(e)) == old(self).mapping(e) && self.members(e) == old(
                    self,
                ).members(e) by {
                if e != d {
                    assert(has_key(self.remaps@, e) == has_key(before, e)) by {
                        if has_key(self.remaps@, e) {
                            let j = choose|j: int|
                                0 <= j < self.remaps@.len() && (#[trigger] self.remaps@[j]).0 == e;
                            assert(before[j].0 == e);
                        }
                        if has_key(before, e) {
                            let j = choose|j: int| 0 <= j < before.len() && (#[trigger] before[j]).0 == e;
                            assert(self.remaps@[j].0 == e);
                        }
                    }
                }
            }
            assert forall|j: int| 0 <= j < self.remaps@.len() implies (
            #[trigger] self.remaps@[j]).1.wf() by {
                if j < before.len() {
                    assert(self.remaps@[j] == before[j]);
                }
            }
        }
        self.remaps.len() - 1
    }

    /// Puts the mapping `remap` in the place `at` of the mappings.
    fn set_remap(&mut self, at: usize, remap: Remap)
        requires
            old(self).wf(),
            at < old(self).remaps@.len(),
            remap.wf(),
        ensures
            final(self).wf(),
            final(self).mapping(old(self).remaps@[at as int].0) == remap@,
            final(self).members(old(self).remaps@[at as int].0) == remap.spec_len(),
            forall|e: DomainIndex|
                e != old(self).remaps@[at as int].0 ==> (#[trigger] final(self).mapping(e)) == old(
                    self,
                ).mapping(e) && final(self).members(e) == old(self).members(e),
            final(self).graph() == old(self).graph(),
            final(self).domains() == old(self).domains(),
            final(self).sharding() == old(self).sharding(),
            final(self).partial() == old(self).partial(),
            final(self).config() == old(self).config(),
            final(self).worker_addresses() == old(self).worker_addresses(),
    {
        let ghost before = self.remaps@;
        let ghost d = before[at as int].0;
        self.remaps[at].1 = remap;
        proof {
            assert(self.remaps@ =~= before.update(at as int, (d, remap)));
            lemma_assoc_update(before, at as int, remap);
            lemma_assoc_at(self.remaps@, at as int);
            assert forall|e: DomainIndex| e != d implies (#[trigger] self.mapping(e)) == old(
                self,
            ).mapping(e) && self.members(e) == old(self).members(e) by {
                assert(has_key(self.remaps@, e) == has_key(before, e)) by {
                    if has_key(self.remaps@, e) {
                        let j = choose|j: int|
                            0 <= j < self.remaps@.len() && (#[trigger] self.remaps@[j]).0 == e;
                        assert(before[j].0 == e);
                    }
                    if has_key(before, e) {
                        let j = choose|j: int| 0 <= j < before.len() && (#[trigger] before[j]).0 == e;
                        assert(self.remaps@[j].0 == e);
                    }
                }
            }
            assert forall|j: int| 0 <= j < self.remaps@.len() implies (
            #[trigger] self.remaps@[j]).1.wf() by {
                if j != at {
                    assert(self.remaps@[j] == before[j]);
                }
            }
        }
    }

    /// Start setting up a new migration.
    pub fn start_migration(&self) -> (m: Migration)
        ensures
            m.added_nodes().len() == 0,
            m.changes().len() == 0,
            m.fits(*self),
    {
        Migration { added: Vec::new(), columns: Vec::new() }
    }
}

impl Default for Blender {
    fn default() -> (b: Blender)
        ensures
            b.wf(),
            b.graph()@.len() == 1,
            b.domains() == 0,
            b.sharding(),
            b.partial(),
            b.worker_addresses().len() == 0,
            b.mappings().len() == 0,
            b.config() == (DomainConfig {
                concurrent_replays: 512,
                replay_batch_size: 32,
                replay_batch_timeout: 1000000,
            }),
    {
        Blender::new()
    }
}

/// What a mutator of a base is built from.
#[derive(Debug)]
pub struct MutatorBuilder {
    /// The addresses of the shards of the domain of the base, in the order of the shards.
    pub txs: Vec<String>,
    /// The address of the base.
    pub addr: IndexPair,
    /// The columns that writes are routed and checked by.
    pub key: Vec<usize>,
    /// Whether `key` is the primary key of the base.
    pub key_is_primary: bool,
    /// Whether the writes are transactional.
    pub transactional: bool,
    /// The columns of the base that were dropped.
    pub dropped: Vec<usize>,
    /// The number of columns that a written row must have.
    pub expected_columns: usize,
    /// Whether the mutator lives in the process of the graph.
    pub is_local: bool,
}

/// What a commit leaves to be done in the domains.
#[derive(Debug)]
pub struct Committed {
    /// The exchanges of parents, those of the sharding and of the routing merged.
    pub swaps: Swaps,
    /// The new nodes of each domain that has any, in their order.
    pub by_domain: Vec<(DomainIndex, Vec<NodeIndex>)>,
    /// The packets that tell the bases of the changes of their columns, each with the
    /// domain of its base, in the order of the changes.
    pub packets: Vec<(DomainIndex, Packet)>,
}

/// A change of the columns of a base.
#[derive(Debug)]
pub enum ColumnChange {
    /// A new column, with its name and the default for the rows that lack it.
    Add(String, DataType),
    /// The column with this number is dropped.
    Drop(usize),
}

/// What a [`ColumnChange`] stands for.
pub enum ColumnChangeView {
    /// A new column, with its name and the default for the rows that lack it.
    Add(Seq<char>, Value),
    /// The column with this number is dropped.
    Drop(usize),
}

impl View for ColumnChange {
    type V = ColumnChangeView;

    open spec fn view(&self) -> ColumnChangeView {
        match self {
            ColumnChange::Add(field, default) => ColumnChangeView::Add(field@, default@),
            ColumnChange::Drop(column) => ColumnChangeView::Drop(*column),
        }
    }
}

/// A number of changes to the graph, which take effect together.
#[derive(Debug)]
pub struct Migration {
    added: Vec<NodeIndex>,
    columns: Vec<(NodeIndex, ColumnChange)>,
}

impl Migration {
    /// The nodes that the migration has added, in order.
    pub closed spec fn added_nodes(self) -> Seq<NodeIndex> {
        self.added@
    }

    /// Whether the migration fits the graph of `mainline`: the nodes that it has added are
    /// nodes of the graph, in the order of their numbers.
    pub closed spec fn fits(self, mainline: Blender) -> bool {
        &&& forall|i: int| 0 <= i < self.added@.len() ==> (#[trigger] self.added@[i]).0
            < mainline.graph()@.len()
        &&& forall|i: int, j: int|
            0 <= i < j < self.added@.len() ==> (#[trigger] self.added@[i]).0 < (
            #[trigger] self.added@[j]).0
    }

    /// A migration that fits a graph fits the graph when it has grown.
    pub proof fn lemma_fits_grown(self, before: Blender, after: Blender)
        requires
            self.fits(before),
            before.graph()@.len() <= after.graph()@.len(),
        ensures
            self.fits(after),
    {
    }

    /// The nodes that the migration has added, in order.
    pub fn added(&self) -> (a: &Vec<NodeIndex>)
        ensures
            a@ == self.added_nodes(),
    {
        &self.added
    }

    /// The changes of columns that the migration has made to bases, in order, each with its
    /// base.
    pub closed spec fn changes(self) -> Seq<(NodeIndex, ColumnChangeView)> {
        Seq::new(self.columns@.len(), |i: int| (self.columns@[i].0, self.columns@[i].1@))
    }

    /// The changes of columns that the migration has made to bases, in order, each with its
    /// base: what the domains of the bases are to be told.
    pub fn column_changes(&self) -> (c: &Vec<(NodeIndex, ColumnChange)>)
        ensures
            c@.len() == self.changes().len(),
            forall|i: int| 0 <= i < c@.len() ==> (#[trigger] c@[i]).0 == self.changes()[i].0
                && c@[i].1@ == self.changes()[i].1,
    {
        &self.columns
    }

    /// Whether the migration has added the node `node`.
    pub fn has_added(&self, node: NodeIndex) -> (b: bool)
        ensures
            b == self.added_nodes().contains(node),
    {
        let mut i: usize = 0;
        while i < self.added.len()
            invariant
                i <= self.added@.len(),
                forall|j: int| 0 <= j < i ==> self.added@[j] != node,
            decreases self.added@.len() - i,
        {
            if self.added[i] == node {
                return true;
            }
            i += 1;
        }
        false
    }

    /// The first of the nodes `added` that has no domain in the graph `nodes`.
    pub open spec fn first_unplaced(nodes: Seq<Node>, added: Seq<NodeIndex>) -> Option<NodeIndex>
        decreases added.len(),
    {
        if added.len() == 0 {
            None
        } else {
            match Self::first_unplaced(nodes, added.drop_last()) {
                Some(n) => Some(n),
                None => if 0 < added.last().0 < nodes.len()
                    && nodes[added.last().0 as int].domain.is_some() {
                    None
                } else {
                    Some(added.last())
                },
            }
        }
    }

    /// Whether the node `n` of the graph `nodes` has a domain and a local identifier.
    pub open spec fn addressed(nodes: Seq<Node>, n: NodeIndex) -> bool {
        n.0 < nodes.len() && nodes[n.0 as int].domain.is_some()
            && nodes[n.0 as int].address.spec_local().is_some()
    }

    /// The first base of the changes `changes` that has no domain or no local identifier.
    pub open spec fn first_unaddressed(
        nodes: Seq<Node>,
        changes: Seq<(NodeIndex, ColumnChangeView)>,
    ) -> Option<NodeIndex>
        decreases changes.len(),
    {
        if changes.len() == 0 {
            None
        } else {
            match Self::first_unaddressed(nodes, changes.drop_last()) {
                Some(n) => Some(n),
                None => if Self::addressed(nodes, changes.last().0) {
                    None
                } else {
                    Some(changes.last().0)
                },
            }
        }
    }

    /// The nodes `added`, each with its domain in the graph `nodes`.
    pub open spec fn with_domains(nodes: Seq<Node>, added: Seq<NodeIndex>) -> Seq<
        (NodeIndex, DomainIndex),
    > {
        Seq::new(added.len(), |i: int| (added[i], nodes[added[i].0 as int].domain.unwrap()))
    }

    /// The number of domains when the domains of `placed` are counted in: no less than
    /// `domains`, and more than the number of each of the domains.
    pub open spec fn raised(domains: nat, placed: Seq<(NodeIndex, DomainIndex)>) -> nat
        decreases placed.len(),
    {
        if placed.len() == 0 {
            domains
        } else {
            let before = Self::raised(domains, placed.drop_last());
            let wanted = if placed.last().1.0 < usize::MAX {
                (placed.last().1.0 + 1) as nat
            } else {
                usize::MAX as nat
            };
            if before < wanted {
                wanted
            } else {
                before
            }
        }
    }

    /// The packet that tells the base of a change of its columns.
    pub open spec fn packet_of(node: Node, change: ColumnChangeView) -> PacketView {
        match change {
            ColumnChangeView::Add(field, default) => PacketView::AddBaseColumn {
                node: node.address.spec_local().unwrap(),
                field,
                default,
            },
            ColumnChangeView::Drop(column) => PacketView::DropBaseColumn {
                node: node.address.spec_local().unwrap(),
                column,
            },
        }
    }

    /// Whether the node with the number `t` is in one of the first `k` of `groups`.
    pub open spec fn in_groups(groups: Seq<(DomainIndex, Seq<NodeIndex>)>, k: int, t: int) -> bool {
        exists|a: int| 0 <= a < k && a < groups.len() && names((#[trigger] groups[a]).1, t)
    }

    /// Whether one of the first `k` of `groups` is for the domain `d`.
    pub open spec fn has_group(groups: Seq<(DomainIndex, Seq<NodeIndex>)>, k: int, d: DomainIndex)
        -> bool {
        exists|a: int| 0 <= a < k && a < groups.len() && (#[trigger] groups[a]).0 == d
    }

    /// Whether `after` is `before` with the first `k` of the groups `groups` of new nodes
    /// made ready, and nothing else of the graph and of the mappings changed: for each of
    /// these groups, its nodes have got the next local identifiers of its domain, in
    /// order, which are entered in the mapping of the domain, and the relational operators
    /// among them are committed; see [`group_done`].
    pub open spec fn committed_upto(
        before: Blender,
        after: Blender,
        swaps: Map<(NodeIndex, NodeIndex), NodeIndex>,
        groups: Seq<(DomainIndex, Seq<NodeIndex>)>,
        k: int,
    ) -> bool {
        &&& after.graph()@.len() == before.graph()@.len()
        &&& after.graph().edges() == before.graph().edges()
        &&& forall|a: int|
            0 <= a < k && a < groups.len() ==> {
                &&& group_done(
                    before.graph()@,
                    after.graph()@,
                    swaps,
                    before.mapping((#[trigger] groups[a]).0),
                    before.members(groups[a].0),
                    groups[a].1,
                )
                &&& after.mapping(groups[a].0) == with_locals(
                    before.mapping(groups[a].0),
                    groups[a].1,
                    before.members(groups[a].0),
                )
            }
        &&& forall|t: int|
            0 <= t < before.graph()@.len() && !Self::in_groups(groups, k, t)
                ==> #[trigger] after.graph()@[t] == before.graph()@[t]
        &&& forall|d: DomainIndex|
            !Self::has_group(groups, k, d) ==> (#[trigger] after.mapping(d)) == before.mapping(d)
                && after.members(d) == before.members(d)
    }

    /// What is committed in one state of the graph and the mappings is committed in any
    /// other with the same graph and mappings.
    proof fn lemma_upto_kept(
        before: Blender,
        after: Blender,
        other: Blender,
        swaps: Map<(NodeIndex, NodeIndex), NodeIndex>,
        groups: Seq<(DomainIndex, Seq<NodeIndex>)>,
        k: int,
    )
        requires
            Self::committed_upto(before, after, swaps, groups, k),
            other.graph()@ == after.graph()@,
            other.graph().edges() == after.graph().edges(),
            forall|d: DomainIndex| (#[trigger] other.mapping(d)) == after.mapping(d)
                && other.members(d) == after.members(d),
        ensures
            Self::committed_upto(before, other, swaps, groups, k),
    {
        assert forall|d: DomainIndex|
            !Self::has_group(groups, k, d) implies (#[trigger] other.mapping(d)) == before.mapping(
            d,
        ) && other.members(d) == before.members(d) by {
            assert(other.mapping(d) == after.mapping(d));
            assert(after.mapping(d) == before.mapping(d));
        }
        assert forall|a: int| 0 <= a < k && a < groups.len() implies {
            &&& group_done(
                before.graph()@,
                other.graph()@,
                swaps,
                before.mapping((#[trigger] groups[a]).0),
                before.members(groups[a].0),
                groups[a].1,
            )
            &&& other.mapping(groups[a].0) == with_locals(
                before.mapping(groups[a].0),
                groups[a].1,
                before.members(groups[a].0),
            )
        } by {
            assert(after.mapping(groups[a].0) == other.mapping(groups[a].0));
        }
    }

    /// Commits the migration, once its new nodes have their domains. The exchanges of
    /// parents that the sharding has made, `sharded`, and those that the routing has made,
    /// `routed`, are merged; the new nodes are grouped by domain; the packets are made that
    /// tell the bases of the changes of their columns; the new nodes of each domain are
    /// made ready, group by group: they get their local identifiers, the next of their
    /// domain, and their relational operators are committed; and the domains of the new
    /// nodes are counted in.
    ///
    /// Nothing is done where a new node has no domain, or a base whose columns were changed
    /// has no domain or local identifier: the first such node is named. Where the nodes of
    /// a domain cannot be made ready, the groups before that one are committed, that one
    /// and those after it are not, and the error says why.
    pub fn commit(self, mainline: &mut Blender, sharded: Swaps, routed: &Vec<Swap>) -> (r: Result<
        Committed,
        CommitError,
    >)
        requires
            old(mainline).wf(),
            sharded.wf(),
            self.fits(*old(mainline)),
        ensures
            final(mainline).wf(),
            final(mainline).graph()@.len() == old(mainline).graph()@.len(),
            final(mainline).graph().edges() == old(mainline).graph().edges(),
            final(mainline).sharding() == old(mainline).sharding(),
            final(mainline).partial() == old(mainline).partial(),
            final(mainline).config() == old(mainline).config(),
            final(mainline).worker_addresses() == old(mainline).worker_addresses(),
            ({
                let nodes = old(mainline).graph()@;
                match (
                    Self::first_unplaced(nodes, self.added_nodes()),
                    Self::first_unaddressed(nodes, self.changes()),
                ) {
                    (Some(n), _) => r == Err::<Committed, CommitError>(
                        CommitError::Unplaced { node: n },
                    ) && *final(mainline) == *old(mainline),
                    (None, Some(n)) => r == Err::<Committed, CommitError>(
                        CommitError::Unplaced { node: n },
                    ) && *final(mainline) == *old(mainline),
                    (None, None) => {
                        let placed = Self::with_domains(nodes, self.added_nodes());
                        let groups = grouped(placed);
                        let merged = swaps_merged(sharded@, routed@, old(mainline).graph().edges());
                        exists|k: int|
                            {
                                &&& 0 <= k <= groups.len()
                                &&& #[trigger] Self::committed_upto(
                                    *old(mainline),
                                    *final(mainline),
                                    merged,
                                    groups,
                                    k,
                                )
                                &&& if k == groups.len() {
                                    &&& r.is_ok()
                                    &&& r.unwrap().swaps.wf()
                                    &&& r.unwrap().swaps@ == merged
                                    &&& groups_view(r.unwrap().by_domain@) == groups
                                    &&& r.unwrap().packets@.len() == self.changes().len()
                                    &&& forall|i: int|
                                        0 <= i < self.changes().len() ==> {
                                            let change = self.changes()[i];
                                            &&& (#[trigger] r.unwrap().packets@[i]).0
                                                == nodes[change.0.0 as int].domain.unwrap()
                                            &&& r.unwrap().packets@[i].1@ == Self::packet_of(
                                                nodes[change.0.0 as int],
                                                change.1,
                                            )
                                        }
                                    &&& final(mainline).domains() == Self::raised(
                                        old(mainline).domains(),
                                        placed,
                                    )
                                } else {
                                    &&& r.is_err()
                                    &&& group_refused(
                                        nodes,
                                        merged,
                                        old(mainline).mapping(groups[k].0),
                                        old(mainline).members(groups[k].0),
                                        groups[k].1,
                                        r->Err_0,
                                    )
                                    &&& final(mainline).domains() == old(mainline).domains()
                                }
                            }
                    },
                }
            }),
    {
        let ghost nodes = mainline.graph()@;
        // the new nodes, each with its domain
        let mut placed: Vec<(NodeIndex, DomainIndex)> = Vec::new();
        let mut domains: usize = mainline.ndomains;
        let mut i: usize = 0;
        proof {
            assert(self.added@.take(0) =~= Seq::<NodeIndex>::empty());
            assert(placed@ =~= Self::with_domains(nodes, self.added@.take(0)));
        }
        while i < self.added.len()
            invariant
                i <= self.added@.len(),
                *mainline == *old(mainline),
                mainline.wf(),
                nodes == mainline.graph()@,
                Self::first_unplaced(nodes, self.added@.take(i as int)).is_none(),
                placed@ == Self::with_domains(nodes, self.added@.take(i as int)),
                domains == Self::raised(old(mainline).domains(), placed@),
                forall|j: int| 0 <= j < i ==> 0 < (#[trigger] self.added@[j]).0 < nodes.len(),
            decreases self.added@.len() - i,
        {
            let n = self.added[i];
            proof {
                assert(self.added@.take(i + 1).drop_last() =~= self.added@.take(i as int));
                assert(self.added@.take(i + 1).last() == n);
            }
            let found: Option<DomainIndex> = if n.index() == 0 {
                None
            } else {
                match mainline.ingredients.node(n) {
                    Some(node) => node.domain,
                    None => None,
                }
            };
            let d: DomainIndex = match found {
                Some(d) => d,
                None => {
                    proof {
                        Self::lemma_first_unplaced_stays(nodes, self.added@, i + 1);
                    }
                    return Err(CommitError::Unplaced { node: n });
                },
            };
            let ghost before = placed@;
            placed.push((n, d));
            proof {
                assert(placed@ =~= Self::with_domains(nodes, self.added@.take(i + 1)));
                assert(placed@.drop_last() =~= before);
            }
            let wanted: usize = if d.index() < usize::MAX {
                d.index() + 1
            } else {
                usize::MAX
            };
            if domains < wanted {
                domains = wanted;
            }
            i += 1;
        }
        proof {
            assert(self.added@.take(self.added@.len() as int) =~= self.added@);
        }
        // the packets for the bases
        let mut packets: Vec<(DomainIndex, Packet)> = Vec::new();
        let ghost changes = self.changes();
        let mut c: usize = 0;
        proof {
            assert(changes.take(0) =~= Seq::<(NodeIndex, ColumnChangeView)>::empty());
        }
        while c < self.columns.len()
            invariant
                c <= self.columns@.len(),
                *mainline == *old(mainline),
                mainline.wf(),
                nodes == mainline.graph()@,
                Self::first_unplaced(nodes, self.added_nodes()).is_none(),
                placed@ == Self::with_domains(nodes, self.added_nodes()),
                domains == Self::raised(old(mainline).domains(), placed@),
                forall|j: int|
                    0 <= j < self.added@.len() ==> 0 < (#[trigger] self.added@[j]).0 < nodes.len(),
                changes == self.changes(),
                changes.len() == self.columns@.len(),
                Self::first_unaddressed(nodes, changes.take(c as int)).is_none(),
                packets@.len() == c,
                forall|j: int|
                    0 <= j < c ==> {
                        &&& Self::addressed(nodes, changes[j].0)
                        &&& (#[trigger] packets@[j]).0 == nodes[changes[j].0.0 as int].domain.unwrap()
                        &&& packets@[j].1@ == Self::packet_of(
                            nodes[changes[j].0.0 as int],
                            changes[j].1,
                        )
                    },
            decreases self.columns@.len() - c,
        {
            let n = self.columns[c].0;
            proof {
                assert(changes.take(c + 1).drop_last() =~= changes.take(c as int));
                assert(changes.take(c + 1).last() == changes[c as int]);
                assert(changes[c as int] == (self.columns@[c as int].0, self.columns@[c as int].1@));
            }
            let found: Option<(DomainIndex, crate::addressing::LocalNodeIndex)> =
                match mainline.ingredients.node(n) {
                Some(node) => match node.domain {
                    Some(d) => if node.address.has_local() {
                        Some((d, node.address.as_local()))
                    } else {
                        None
                    },
                    None => None,
                },
                None => None,
            };
            let (d, local) = match found {
                Some(place) => place,
                None => {
                    proof {
                        Self::lemma_first_unaddressed_stays(nodes, changes, c + 1);
                    }
                    return Err(CommitError::Unplaced { node: n });
                },
            };
            let packet = match &self.columns[c].1 {
                ColumnChange::Add(field, default) => Packet::AddBaseColumn {
                    node: local,
                    field: field.clone(),
                    default: default.deep_clone(),
                },
                ColumnChange::Drop(column) => Packet::DropBaseColumn { node: local, column: *column },
            };
            packets.push((d, packet));
            c += 1;
        }
        proof {
            assert(changes.take(self.columns@.len() as int) =~= changes);
        }
        let ghost sharded_view = sharded@;
        let mut swaps = sharded;
        swaps.merge(routed, &mainline.ingredients);
        let by_domain = group_by_domain(&placed);
        let ghost groups = groups_view(by_domain@);
        let ghost merged = swaps@;
        let ghost start = *mainline;
        proof {
            assert(placed_once(placed@)) by {
                assert forall|x: int, y: int| 0 <= x < y < placed@.len() implies (
                #[trigger] placed@[x]).0 != (#[trigger] placed@[y]).0 by {
                    assert(self.added@[x].0 < self.added@[y].0);
                }
            }
            lemma_grouped(placed@);
            assert(!Self::in_groups(groups, 0, 0));
        }
        let mut g: usize = 0;
        while g < by_domain.len()
            invariant
                g <= by_domain@.len(),
                groups == groups_view(by_domain@),
                groups.len() == by_domain@.len(),
                groups == grouped(placed@),
                groups_apart(groups),
                groups_within(groups, placed@),
                placed@ == Self::with_domains(nodes, self.added_nodes()),
                forall|j: int|
                    0 <= j < self.added@.len() ==> 0 < (#[trigger] self.added@[j]).0 < nodes.len(),
                nodes == start.graph()@,
                start == *old(mainline),
                Self::first_unplaced(nodes, self.added_nodes()).is_none(),
                Self::first_unaddressed(nodes, self.changes()).is_none(),
                sharded_view == sharded@,
                merged == swaps_merged(sharded_view, routed@, start.graph().edges()),
                swaps.wf(),
                merged == swaps@,
                mainline.wf(),
                mainline.domains() == start.domains(),
                mainline.sharding() == start.sharding(),
                mainline.partial() == start.partial(),
                mainline.config() == start.config(),
                mainline.worker_addresses() == start.worker_addresses(),
                Self::committed_upto(start, *mainline, merged, groups, g as int),
            decreases by_domain@.len() - g,
        {
            let d = by_domain[g].0;
            let ghost held = *mainline;
            let ghost members = groups[g as int].1;
            assert(members == by_domain@[g as int].1@);
            proof {
                // the nodes of the group are nodes of the graph, each once
                assert(distinct_nodes(members, nodes.len())) by {
                    assert forall|x: int| 0 <= x < members.len() implies 0 < (
                    #[trigger] members[x]).0 < nodes.len() by {
                        let k = choose|k: int|
                            0 <= k < placed@.len() && (#[trigger] placed@[k]) == (
                                groups[g as int].1[x],
                                groups[g as int].0,
                            );
                        assert(placed@[k].0 == self.added@[k]);
                    }
                    assert forall|x: int, y: int| 0 <= x < y < members.len() implies (
                    #[trigger] members[x]) != (#[trigger] members[y]) by {
                        assert(groups[g as int].1[x] != groups[g as int].1[y]);
                    }
                }
                // none of them was touched, nor the mapping of their domain
                assert(!Self::has_group(groups, g as int, d)) by {
                    if Self::has_group(groups, g as int, d) {
                        let a = choose|a: int|
                            0 <= a < g && a < groups.len() && (#[trigger] groups[a]).0 == d;
                        assert(groups[a].0 != groups[g as int].0);
                    }
                }
                assert forall|x: int| 0 <= x < members.len() implies held.graph()@[(
                #[trigger] members[x]).0 as int] == nodes[members[x].0 as int] by {
                    let t = members[x].0 as int;
                    if Self::in_groups(groups, g as int, t) {
                        let a = choose|a: int|
                            0 <= a < g && a < groups.len() && names((#[trigger] groups[a]).1, t);
                        let y = choose|y: int|
                            0 <= y < groups[a].1.len() && (#[trigger] groups[a].1[y]).0 == t;
                        assert(groups[a].1[y] == groups[g as int].1[x]);
                    }
                }
            }
            let at = mainline.remap_index(d);
            let mut trial = mainline.remaps[at].1.copy();
            let ghost m = start.mapping(d);
            let ghost count = start.members(d);
            assert(trial@ == m && trial.spec_len() == count);
            let ghost ready = *mainline;
            match mainline.ingredients.commit_group(&mut trial, &swaps, &by_domain[g].1) {
                Ok(_) => {
                    mainline.set_remap(at, trial);
                    proof {
                        let after = *mainline;
                        lemma_done_same(ready.graph()@, nodes, after.graph()@, merged, m, count, members);
                        assert forall|a: int| 0 <= a < g + 1 && a < groups.len() implies {
                            &&& group_done(
                                nodes,
                                after.graph()@,
                                merged,
                                start.mapping((#[trigger] groups[a]).0),
                                start.members(groups[a].0),
                                groups[a].1,
                            )
                            &&& after.mapping(groups[a].0) == with_locals(
                                start.mapping(groups[a].0),
                                groups[a].1,
                                start.members(groups[a].0),
                            )
                        } by {
                            assert(d == groups[g as int].0);
                            if a == g {
                                assert(groups[a].1 == members);
                                assert(start.mapping(groups[a].0) == m);
                                assert(start.members(groups[a].0) == count);
                                assert(after.mapping(d) == with_locals(m, members, count));
                            }
                            if a < g {
                                assert(groups[a].0 != groups[g as int].0);
                                assert(ready.mapping(groups[a].0) == held.mapping(groups[a].0));
                                assert(after.mapping(groups[a].0) == ready.mapping(groups[a].0));
                                assert(group_done(
                                    nodes,
                                    held.graph()@,
                                    merged,
                                    start.mapping(groups[a].0),
                                    start.members(groups[a].0),
                                    groups[a].1,
                                ));
                                assert forall|x: int| 0 <= x < groups[a].1.len() implies after.graph()@[(
                                #[trigger] groups[a].1[x]).0 as int] == held.graph()@[groups[a].1[x].0 as int] by {
                                    let t = groups[a].1[x].0 as int;
                                    if names(members, t) {
                                        let y = choose|y: int|
                                            0 <= y < members.len() && (#[trigger] members[y]).0
                                                == t;
                                        assert(groups[g as int].1[y] == groups[a].1[x]);
                                    }
                                }
                                lemma_done_kept(
                                    nodes,
                                    held.graph()@,
                                    after.graph()@,
                                    merged,
                                    start.mapping(groups[a].0),
                                    start.members(groups[a].0),
                                    groups[a].1,
                                );
                            }
                        }
                        assert forall|t: int|
                            0 <= t < nodes.len() && !Self::in_groups(
                                groups,
                                g + 1,
                                t,
                            ) implies #[trigger] after.graph()@[t] == nodes[t] by {
                            if Self::in_groups(groups, g as int, t) {
                                let a = choose|a: int|
                                    0 <= a < g && a < groups.len() && names(
                                        (#[trigger] groups[a]).1,
                                        t,
                                    );
                                assert(names(groups[a].1, t));
                            }
                            if names(members, t) {
                                assert(names(groups[g as int].1, t));
                            }
                        }
                        assert forall|e: DomainIndex|
                            !Self::has_group(groups, g + 1, e) implies (
                        #[trigger] after.mapping(e)) == start.mapping(e) && after.members(e)
                            == start.members(e) by {
                            if Self::has_group(groups, g as int, e) {
                                let a = choose|a: int|
                                    0 <= a < g && a < groups.len() && (#[trigger] groups[a]).0 == e;
                                assert(groups[a].0 == e);
                                assert(Self::has_group(groups, g + 1, e));
                            }
                            if groups[g as int].0 == e {
                                assert(Self::has_group(groups, g + 1, e));
                            }
                            assert(d == groups[g as int].0);
                            assert(!Self::has_group(groups, g as int, e));
                            assert(Self::committed_upto(start, held, merged, groups, g as int));
                            assert(held.mapping(e) == start.mapping(e));
                            assert(held.members(e) == start.members(e));
                            assert(ready.mapping(e) == held.mapping(e));
                            assert(ready.members(e) == held.members(e));
                            assert(e != ready.remaps@[at as int].0);
                            assert(after.mapping(e) == ready.mapping(e));
                            assert(after.members(e) == ready.members(e));
                        }
                    }
                },
                Err(e) => {
                    proof {
                        lemma_refused_same(ready.graph()@, nodes, merged, m, count, members, e);
                        assert(mainline.graph()@ == held.graph()@);
                        assert(mainline.graph().edges() == held.graph().edges());
                        assert(mainline.remaps == ready.remaps);
                        assert forall|x: DomainIndex| (#[trigger] mainline.mapping(x)) == held.mapping(
                            x,
                        ) && mainline.members(x) == held.members(x) by {
                            assert(ready.mapping(x) == held.mapping(x));
                            assert(ready.members(x) == held.members(x));
                        }
                        Self::lemma_upto_kept(start, held, *mainline, merged, groups, g as int);
                        assert(d == groups[g as int].0);
                        assert(group_refused(
                            nodes,
                            merged,
                            start.mapping(groups[g as int].0),
                            start.members(groups[g as int].0),
                            groups[g as int].1,
                            e,
                        ));
                    }
                    return Err(e);
                },
            }
            g += 1;
        }
        let ghost done = *mainline;
        mainline.ndomains = domains;
        proof {
            Self::lemma_upto_kept(start, done, *mainline, merged, groups, groups.len() as int);
        }
        Ok(Committed { swaps, by_domain, packets })
    }

    /// A node without a domain among the first new nodes is the first among all.
    pub proof fn lemma_first_unplaced_stays(nodes: Seq<Node>, added: Seq<NodeIndex>, k: int)
        requires
            0 <= k <= added.len(),
            Self::first_unplaced(nodes, added.take(k)).is_some(),
        ensures
            Self::first_unplaced(nodes, added) == Self::first_unplaced(nodes, added.take(k)),
        decreases added.len() - k,
    {
        if k < added.len() {
            assert(added.take(k + 1).drop_last() =~= added.take(k));
            Self::lemma_first_unplaced_stays(nodes, added, k + 1);
        } else {
            assert(added.take(k) =~= added);
        }
    }

    /// A base without an address among the first changes is the first among all.
    pub proof fn lemma_first_unaddressed_stays(
        nodes: Seq<Node>,
        changes: Seq<(NodeIndex, ColumnChangeView)>,
        k: int,
    )
        requires
            0 <= k <= changes.len(),
            Self::first_unaddressed(nodes, changes.take(k)).is_some(),
        ensures
            Self::first_unaddressed(nodes, changes) == Self::first_unaddressed(
                nodes,
                changes.take(k),
            ),
        decreases changes.len() - k,
    {
        if k < changes.len() {
            assert(changes.take(k + 1).drop_last() =~= changes.take(k));
            Self::lemma_first_unaddressed_stays(nodes, changes, k + 1);
        } else {
            assert(changes.take(k) =~= changes);
        }
    }

    /// Assigns the node `n` to the domain `d`; see [`FlowGraph::assign_domain`].
    pub fn assign_domain(&self, mainline: &mut Blender, n: NodeIndex, d: DomainIndex) -> (done:
        bool)
        requires
            old(mainline).wf(),
        ensures
            final(mainline).wf(),
            self.fits(*old(mainline)) ==> self.fits(*final(mainline)),
            old(mainline).same_but_graph(*final(mainline)),
            done == (0 < n.0 < old(mainline).graph()@.len()),
            !done ==> final(mainline).graph()@ == old(mainline).graph()@ && final(mainline).graph().edges() == old(mainline).graph().edges(),
            done ==> old(mainline).graph().same_but_place(final(mainline).graph(), n) && final(mainline).graph()@[n.0 as int].domain == Some(d) && final(mainline).graph()@[n.0 as int].address
                == old(mainline).graph()@[n.0 as int].address,
    {
        mainline.ingredients.assign_domain(n, d)
    }

    /// Add a new column to a base node that was there before the migration, and take note
    /// of the change. A default value must be provided such that old writes can be
    /// converted to the new shape. The number of the column is handed back. Nothing is
    /// done where the node is new, where it is no sound base, and where the base cannot
    /// count another column.
    pub fn add_column(
        &mut self,
        mainline: &mut Blender,
        node: NodeIndex,
        field: String,
        default: DataType,
    ) -> (r: Option<usize>)
        requires
            old(mainline).wf(),
        ensures
            final(mainline).wf(),
            old(self).fits(*old(mainline)) ==> final(self).fits(*final(mainline)),
            old(mainline).same_but_graph(*final(mainline)),
            final(self).added_nodes() == old(self).added_nodes(),
            r.is_some() == (!old(self).added_nodes().contains(node) && old(mainline).graph().is_sound_base(node) && old(mainline).graph()@[node.0 as int].width()
                < usize::MAX),
            r.is_none() ==> final(self).changes() == old(self).changes() && final(mainline).graph()@ == old(mainline).graph()@ && final(mainline).graph().edges() == old(mainline).graph().edges(),
            r.is_some() ==> {
                let before = old(mainline).graph();
                let after = final(mainline).graph();
                &&& r.unwrap() == before@[node.0 as int].width()
                &&& before.same_but_base(after, node)
                &&& after@[node.0 as int].fields@ == before@[node.0 as int].fields@.push(field)
                &&& after@[node.0 as int].operator->Base_0.column_defaults()
                    == before@[node.0 as int].operator->Base_0.column_defaults().push(default@)
                &&& after@[node.0 as int].operator->Base_0.dropped_columns()
                    == before@[node.0 as int].operator->Base_0.dropped_columns()
                &&& final(self).changes() == old(self).changes().push(
                    (node, ColumnChangeView::Add(field@, default@)),
                )
            },
    {
        if self.has_added(node) {
            return None;
        }
        let noted = default.deep_clone();
        let name = field.clone();
        match mainline.ingredients.add_base_column(node, field, default) {
            Some(column) => {
                let ghost before = self.changes();
                self.columns.push((node, ColumnChange::Add(name, noted)));
                assert(self.changes() =~= before.push(
                    (node, ColumnChangeView::Add(field@, default@)),
                ));
                Some(column)
            },
            None => None,
        }
    }

    /// Drop a column from a base node that was there before the migration, and take note
    /// of the change. Returns whether that was done; nothing is done where the node is
    /// new, where it is no sound base, and where it does not have the column.
    pub fn drop_column(&mut self, mainline: &mut Blender, node: NodeIndex, column: usize) -> (dropped:
        bool)
        requires
            old(mainline).wf(),
        ensures
            final(mainline).wf(),
            old(self).fits(*old(mainline)) ==> final(self).fits(*final(mainline)),
            old(mainline).same_but_graph(*final(mainline)),
            final(self).added_nodes() == old(self).added_nodes(),
            dropped == (!old(self).added_nodes().contains(node) && old(mainline).graph().is_sound_base(node) && column < old(mainline).graph()@[node.0 as int].width()),
            !dropped ==> final(self).changes() == old(self).changes() && final(mainline).graph()@ == old(mainline).graph()@ && final(mainline).graph().edges() == old(mainline).graph().edges(),
            dropped ==> {
                let before = old(mainline).graph();
                let after = final(mainline).graph();
                &&& before.same_but_base(after, node)
                &&& after@[node.0 as int].fields == before@[node.0 as int].fields
                &&& after@[node.0 as int].operator->Base_0.column_defaults()
                    == before@[node.0 as int].operator->Base_0.column_defaults()
                &&& after@[node.0 as int].operator->Base_0.dropped_columns()
                    == before@[node.0 as int].operator->Base_0.dropped_columns().push(column)
                &&& final(self).changes() == old(self).changes().push(
                    (node, ColumnChangeView::Drop(column)),
                )
            },
    {
        if self.has_added(node) {
            return false;
        }
        if mainline.ingredients.drop_base_column(node, column) {
            let ghost before = self.changes();
            self.columns.push((node, ColumnChange::Drop(column)));
            assert(self.changes() =~= before.push((node, ColumnChangeView::Drop(column))));
            true
        } else {
            false
        }
    }

    /// Add the given operator to the graph, with edges from the parents that it names, and
    /// take note that the node is new. The returned identifier can later be used to refer
    /// to the added node. Where the graph refuses the node, nothing changes.
    pub fn add_ingredient(
        &mut self,
        mainline: &mut Blender,
        name: String,
        fields: Vec<String>,
        operator: NodeOperator,
    ) -> (r: Result<NodeIndex, GraphError>)
        requires
            old(mainline).wf(),
            old(self).fits(*old(mainline)),
        ensures
            final(mainline).wf(),
            final(self).fits(*final(mainline)),
            final(mainline).domains() == old(mainline).domains(),
            final(mainline).sharding() == old(mainline).sharding(),
            final(mainline).partial() == old(mainline).partial(),
            final(mainline).config() == old(mainline).config(),
            final(mainline).mappings() == old(mainline).mappings(),
            final(mainline).worker_addresses() == old(mainline).worker_addresses(),
            r.is_err() ==> final(self).added_nodes() == old(self).added_nodes() && final(mainline).graph()@ == old(mainline).graph()@ && final(mainline).graph().edges() == old(mainline).graph().edges(),
            r.is_ok() ==> {
                &&& r.unwrap().0 == old(mainline).graph()@.len()
                &&& final(self).added_nodes() == old(self).added_nodes().push(r.unwrap())
                &&& final(mainline).graph()@.len() == old(mainline).graph()@.len() + 1
                &&& final(mainline).graph()@.take(old(mainline).graph()@.len() as int) == old(mainline).graph()@
                &&& final(mainline).graph()@.last().name == name
                &&& final(mainline).graph()@.last().fields == fields
                &&& final(mainline).graph()@.last().operator == operator
                &&& final(mainline).graph().edges() == old(mainline).graph().edges()
                    + FlowGraph::edges_to(operator.parents(), r.unwrap().0)
            },
            match FlowGraph::refusal(
                old(mainline).graph()@,
                old(mainline).graph().edges().len(),
                operator,
                fields.len(),
            ) {
                Some(e) => r == Err::<NodeIndex, GraphError>(e),
                None => r.is_ok(),
            },
    {
        match mainline.ingredients.add_ingredient(name, fields, operator) {
            Ok(ni) => {
                self.added.push(ni);
                Ok(ni)
            },
            Err(e) => Err(e),
        }
    }

    /// Whether one of the nodes `nodes` is a reader for the node `n`.
    pub open spec fn has_reader(nodes: Seq<crate::flow::Node>, n: NodeIndex) -> bool {
        exists|i: int|
            0 <= i < nodes.len() && ((#[trigger] nodes[i]).operator matches NodeOperator::Reader(
                reader,
            ) && reader.source().spec_global() == n)
    }

    /// Why no reader on the columns `key` can be added below the node `n` of a graph with
    /// the nodes `nodes` and `edges` edges, if none can.
    pub open spec fn unreadable(nodes: Seq<crate::flow::Node>, edges: nat, n: NodeIndex, key: Seq<
        usize,
    >) -> Option<GraphError> {
        if !(0 < n.0 < nodes.len()) {
            Some(GraphError::UnknownParent)
        } else if !crate::data::columns_within(key, nodes[n.0 as int].width()) {
            Some(GraphError::UnknownColumn)
        } else if !(nodes.len() < u32::MAX && edges + 2 < u32::MAX) {
            Some(GraphError::Full)
        } else {
            None
        }
    }

    /// Set up the given node such that its output can be queried on the columns `key`: a
    /// reader is added below it, with its columns, unless it has one. The reader is handed
    /// back: the first that the node has, or the new one. Nothing changes where the node
    /// has a reader, where the graph does not have the node, where the node does not have
    /// the columns, or where the graph is full.
    pub fn maintain(&mut self, mainline: &mut Blender, n: NodeIndex, key: Vec<usize>) -> (r: Result<
        NodeIndex,
        GraphError,
    >)
        requires
            old(mainline).wf(),
            old(self).fits(*old(mainline)),
        ensures
            final(mainline).wf(),
            final(self).fits(*final(mainline)),
            final(mainline).domains() == old(mainline).domains(),
            final(mainline).sharding() == old(mainline).sharding(),
            final(mainline).partial() == old(mainline).partial(),
            final(mainline).config() == old(mainline).config(),
            final(mainline).mappings() == old(mainline).mappings(),
            final(mainline).worker_addresses() == old(mainline).worker_addresses(),
            Self::has_reader(old(mainline).graph()@, n) ==> {
                &&& r.is_ok()
                &&& r.unwrap().0 < old(mainline).graph()@.len()
                &&& old(mainline).graph()@[r.unwrap().0 as int].operator matches NodeOperator::Reader(
                    reader,
                ) && reader.source().spec_global() == n
                &&& forall|i: int|
                    0 <= i < r.unwrap().0 ==> !((#[trigger] old(mainline).graph()@[i]).operator matches NodeOperator::Reader(reader)
                        && reader.source().spec_global() == n)
            },
            !Self::has_reader(old(mainline).graph()@, n) ==> match Self::unreadable(
                old(mainline).graph()@,
                old(mainline).graph().edges().len(),
                n,
                key@,
            ) {
                Some(e) => r == Err::<NodeIndex, GraphError>(e),
                None => {
                    &&& r == Ok::<NodeIndex, GraphError>(
                        NodeIndex(old(mainline).graph()@.len() as usize),
                    )
                    &&& final(self).added_nodes() == old(self).added_nodes().push(r.unwrap())
                    &&& final(mainline).graph()@.len() == old(mainline).graph()@.len() + 1
                    &&& final(mainline).graph()@.take(old(mainline).graph()@.len() as int) == old(mainline).graph()@
                    &&& final(mainline).graph()@.last().width() == old(mainline).graph()@[n.0 as int].width()
                    &&& final(mainline).graph()@.last().operator matches NodeOperator::Reader(reader)
                        && reader.source().spec_global() == n && reader.key_columns() == key@
                    &&& final(mainline).graph().edges() == old(mainline).graph().edges()
                        + FlowGraph::edges_to(seq![n], r.unwrap().0)
                },
            },
            Self::has_reader(old(mainline).graph()@, n) || r.is_err() ==> {
                &&& final(self).added_nodes() == old(self).added_nodes()
                &&& final(mainline).graph()@ == old(mainline).graph()@
                &&& final(mainline).graph().edges() == old(mainline).graph().edges()
            },
    {
        let ghost nodes = mainline.graph()@;
        match mainline.ingredients.find_getter_for(n) {
            Some(reader) => {
                assert(Self::has_reader(nodes, n)) by {
                    assert(nodes[reader.0 as int].operator is Reader);
                }
                Ok(reader)
            },
            None => {
                assert(!Self::has_reader(nodes, n));
                if n.index() == 0 {
                    return Err(GraphError::UnknownParent);
                }
                let fields: Vec<String> = match mainline.ingredients.node(n) {
                    Some(node) => node.fields.clone(),
                    None => {
                        return Err(GraphError::UnknownParent);
                    },
                };
                if !crate::data::check_columns_within(&key, fields.len()) {
                    return Err(GraphError::UnknownColumn);
                }
                let reader = Reader::new(n, key);
                let operator = NodeOperator::Reader(reader);
                proof {
                    assert(operator.parents() =~= seq![n]);
                    assert(operator.parents()[0] == n);
                    assert forall|c: usize, j: int|
                        c < fields@.len() && 0 <= j < operator.origin(c).len() implies {
                        let from = #[trigger] operator.origin(c)[j];
                        &&& from.0 == n
                        &&& from.1 == Some(c)
                    } by {}
                    assert(fields@.len() == nodes[n.0 as int].width());
                    assert(FlowGraph::parents_known(nodes.len(), operator, fields.len()));
                    assert(FlowGraph::columns_known(nodes, operator, fields.len()));
                }
                match mainline.ingredients.add_ingredient(
                    String::from_str("reader"),
                    fields,
                    operator,
                ) {
                    Ok(ni) => {
                        self.added.push(ni);
                        Ok(ni)
                    },
                    Err(e) => Err(e),
                }
            },
        }
    }
}

} // verus!
