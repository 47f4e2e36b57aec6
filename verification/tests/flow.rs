use dataflow::addressing::{IndexPair, LocalNodeIndex, NodeIndex, Remap, Tag};
use dataflow::flow::{FlowGraph, GraphError, NodeOperator};
use dataflow::migrate::{assign_local_addresses, initialize, CommitError, Swap, Swaps};
use dataflow::ops::routing::{Egress, Ingress};
use dataflow::ops::sharder::Sharder;
use dataflow::processing::ReplayContext;
use dataflow::ops::base::Base;
use dataflow::ops::grouped::{Aggregation, Aggregator};
use dataflow::ops::join::{Join, JoinSource, JoinType};
use dataflow::ops::project::Project;
use dataflow::ops::trigger::Trigger;
use dataflow::reader::Reader;

fn names(fields: &[&str]) -> Vec<String> {
    fields.iter().map(|f| f.to_string()).collect()
}

fn n(i: usize) -> NodeIndex {
    NodeIndex::new(i)
}

/// a(x, y), b(r, s); j = a join b on x = r, emitting (x, y, s); c = count of j by x;
/// p = (count, x, 7) of c; a reader below p.
fn setup() -> FlowGraph {
    let mut g = FlowGraph::new();
    let a = g
        .add_ingredient("a".to_string(), names(&["x", "y"]), NodeOperator::Base(Base::new(2, vec![0], false).unwrap()))
        .unwrap();
    let b = g
        .add_ingredient("b".to_string(), names(&["r", "s"]), NodeOperator::Base(Base::new(2, vec![0], false).unwrap()))
        .unwrap();
    assert_eq!((a, b), (n(1), n(2)));
    let j = g
        .add_ingredient(
            "j".to_string(),
            names(&["x", "y", "s"]),
            NodeOperator::Join(Join::new(
                a,
                b,
                JoinType::Inner,
                vec![0],
                vec![0],
                vec![
                    JoinSource { left: true, column: 0 },
                    JoinSource { left: true, column: 1 },
                    JoinSource { left: false, column: 1 },
                ],
            )),
        )
        .unwrap();
    let c = g
        .add_ingredient(
            "c".to_string(),
            names(&["x", "count"]),
            NodeOperator::Aggregation(Aggregator::new(j, Aggregation::Count, 2, vec![0])),
        )
        .unwrap();
    let p = g
        .add_ingredient(
            "p".to_string(),
            names(&["count", "x", "seven"]),
            NodeOperator::Project(Project::new(c, vec![1, 0], vec![7.into()])),
        )
        .unwrap();
    g.add_ingredient("reader".to_string(), names(&["count", "x", "seven"]), NodeOperator::Reader(Reader::new(p, vec![1])))
        .unwrap();
    g
}

#[test]
fn nodes_hang_below_their_parents() {
    let g = setup();
    assert_eq!(g.node_count(), 7);
    assert_eq!(g.source(), n(0));
    // the one added last first
    assert_eq!(g.inputs(), vec![n(2), n(1)]);
    assert_eq!(g.children(n(1)), vec![n(3)]);
    assert_eq!(g.parents(n(3)), vec![n(2), n(1)]);
    assert_eq!(g.children(n(6)), vec![]);
    assert!(g.has_edge(n(0), n(1)));
    assert!(g.has_edge(n(2), n(3)));
    assert!(!g.has_edge(n(3), n(2)));
    assert!(!g.has_edge(n(1), n(2)));
    assert!(!g.has_edge(n(1), n(40)));
    assert_eq!(g.outputs(), vec![n(5)]);
    assert_eq!(g.find_getter_for(n(5)), Some(n(6)));
    assert_eq!(g.find_getter_for(n(4)), None);
    assert_eq!(g.node(n(3)).unwrap().name, "j");
    assert!(g.node(n(7)).is_none());
    assert!(g.node(n(1)).unwrap().operator.is_base());
    assert!(g.node(n(3)).unwrap().operator.is_internal());
    assert!(!g.node(n(6)).unwrap().operator.is_internal());
    assert!(g.node(n(6)).unwrap().operator.is_reader());
}

#[test]
fn every_column_comes_from_columns_of_bases() {
    let g = setup();
    // the join
    assert_eq!(g.provenance(n(3), 0), vec![(n(1), Some(0))]);
    assert_eq!(g.provenance(n(3), 2), vec![(n(2), Some(1))]);
    // the count is computed from what is above it
    assert_eq!(g.provenance(n(4), 0), vec![(n(1), Some(0))]);
    assert_eq!(g.provenance(n(4), 1), vec![(n(1), None), (n(2), None)]);
    // the projection: the count, x, and a literal
    assert_eq!(g.provenance(n(5), 0), vec![(n(1), None), (n(2), None)]);
    assert_eq!(g.provenance(n(5), 1), vec![(n(1), Some(0))]);
    assert_eq!(g.provenance(n(5), 2), vec![(n(1), None), (n(2), None)]);
    // for every node and every column the search ends at columns that the bases have
    for node in 1..g.node_count() {
        let width = g.node(n(node)).unwrap().fields.len();
        for col in 0..width {
            for (base, column) in g.provenance(n(node), col) {
                let found = g.node(base).unwrap();
                assert!(found.operator.is_base());
                if let Some(c) = column {
                    assert!(c < found.fields.len());
                }
            }
        }
    }
    assert_eq!(g.bases_above(n(6)), vec![(n(1), None), (n(2), None)]);
}

#[test]
fn nodes_that_do_not_fit_are_refused() {
    let mut g = setup();
    // a parent that the graph does not have, and the root as a parent
    assert_eq!(
        g.add_ingredient("i".to_string(), names(&["x"]), NodeOperator::Identity(Trigger::new(n(40)))),
        Err(GraphError::UnknownParent)
    );
    assert_eq!(
        g.add_ingredient("i".to_string(), names(&["x"]), NodeOperator::Identity(Trigger::new(n(0)))),
        Err(GraphError::UnknownParent)
    );
    // a column that the parent does not have
    assert_eq!(
        g.add_ingredient("i".to_string(), names(&["x", "y", "z"]), NodeOperator::Identity(Trigger::new(n(1)))),
        Err(GraphError::UnknownColumn)
    );
    assert_eq!(
        g.add_ingredient("p".to_string(), names(&["q"]), NodeOperator::Project(Project::new(n(1), vec![5], vec![]))),
        Err(GraphError::UnknownColumn)
    );
    assert_eq!(g.node_count(), 7);
    assert_eq!(
        g.add_ingredient("i".to_string(), names(&["x", "y"]), NodeOperator::Identity(Trigger::new(n(1)))),
        Ok(n(7))
    );
    assert_eq!(g.children(n(1)), vec![n(7), n(3)]);
}

#[test]
fn new_nodes_get_the_next_local_identifiers() {
    let mut remap = Remap::new();
    let first = assign_local_addresses(&mut remap, &vec![n(4), n(9)]).unwrap();
    assert_eq!(first.len(), 2);
    assert_eq!(first[0].as_global(), n(4));
    assert_eq!(first[0].as_local().id(), 0);
    assert_eq!(first[1].as_local().id(), 1);
    let second = assign_local_addresses(&mut remap, &vec![n(2)]).unwrap();
    assert_eq!(second[0].as_local().id(), 2);
    assert_eq!(remap.len(), 3);
    assert_eq!(remap.get(n(9)), Some(first[1]));
    assert_eq!(remap.get(n(5)), None);
    assert_eq!(remap.entries().len(), 3);
    assert!(assign_local_addresses(&mut remap, &vec![]).unwrap().is_empty());
}

#[test]
fn exchanged_parents_lead_to_the_node_that_stands_in() {
    let g = setup();
    let mut swaps = Swaps::new();
    // the sharding has put the node 7 between 1 and 3
    swaps.merge_one(Swap { dst: n(3), src: n(1), instead: n(7) }, false);
    assert_eq!(swaps.get(n(3), n(1)), Some(n(7)));
    assert_eq!(swaps.get(n(3), n(2)), None);
    // the routing puts 8 between 7 and 3: wherever 7 stood in, 8 does now
    swaps.merge_one(Swap { dst: n(3), src: n(7), instead: n(8) }, false);
    assert_eq!(swaps.get(n(3), n(1)), Some(n(8)));
    assert_eq!(swaps.get(n(3), n(7)), Some(n(8)));
    // another exchange for the same node and parent takes the place of the known one,
    // unless the graph has an edge from the parent to the new node
    swaps.merge_one(Swap { dst: n(3), src: n(1), instead: n(9) }, true);
    assert_eq!(swaps.get(n(3), n(1)), Some(n(8)));
    swaps.merge_one(Swap { dst: n(3), src: n(1), instead: n(9) }, false);
    assert_eq!(swaps.get(n(3), n(1)), Some(n(9)));

    let mut merged = Swaps::new();
    merged.merge(
        &vec![
            Swap { dst: n(3), src: n(1), instead: n(4) },
            // the graph has the edge 1 -> 3: the known exchange is kept
            Swap { dst: n(3), src: n(1), instead: n(3) },
            Swap { dst: n(5), src: n(4), instead: n(6) },
        ],
        &g,
    );
    assert_eq!(merged.get(n(3), n(1)), Some(n(6)));
    assert_eq!(merged.get(n(5), n(4)), Some(n(6)));
}

#[test]
fn a_node_is_committed_with_the_pairs_of_what_stands_in() {
    let mut remap = Remap::new();
    let pairs = assign_local_addresses(&mut remap, &vec![n(3), n(7)]).unwrap();
    let mut swaps = Swaps::new();
    swaps.merge_one(Swap { dst: n(3), src: n(1), instead: n(7) }, false);
    swaps.merge_one(Swap { dst: n(4), src: n(2), instead: n(7) }, false);
    let for_three = swaps.remap_for(&remap, n(3)).unwrap();
    assert_eq!(for_three.get(n(1)), Some(pairs[1]));
    assert_eq!(for_three.get(n(3)), Some(pairs[0]));
    assert_eq!(for_three.get(n(2)), None);
    assert_eq!(for_three.len(), 3);
    // the identity below 1 now takes its records from the local node of 7
    let mut identity = Trigger::new(n(1));
    identity.on_commit(n(3), &for_three);
    let mut expected = IndexPair::new(n(7));
    expected.set_local(LocalNodeIndex::make(1));
    assert_eq!(for_three.get(n(1)), Some(expected));
    // a node that stands in must have a pair
    swaps.merge_one(Swap { dst: n(3), src: n(2), instead: n(30) }, false);
    assert!(swaps.remap_for(&remap, n(3)).is_none());
}

fn join_of(left: usize, right: usize) -> NodeOperator {
    NodeOperator::Join(Join::new(
        n(left),
        n(right),
        JoinType::Inner,
        vec![0],
        vec![0],
        vec![JoinSource { left: true, column: 0 }, JoinSource { left: false, column: 1 }],
    ))
}

fn local(global: usize, id: u32) -> IndexPair {
    let mut p = IndexPair::new(n(global));
    p.set_local(LocalNodeIndex::make(id));
    p
}

#[test]
fn the_new_nodes_of_a_domain_are_made_ready_together() {
    // the domain has the node 2; the join 3 of 1 and 2 and the ingress 7 are new, and 7
    // stands in for 1, which lives elsewhere
    let mut remap = Remap::new();
    assign_local_addresses(&mut remap, &vec![n(2)]).unwrap();
    let mut swaps = Swaps::new();
    swaps.merge_one(Swap { dst: n(3), src: n(1), instead: n(7) }, false);
    let mut operators = vec![join_of(1, 2), NodeOperator::Ingress(Ingress::new(n(1)))];
    let pairs = initialize(&mut remap, &swaps, &vec![n(3), n(7)], &mut operators).unwrap();
    assert_eq!(pairs, vec![local(3, 1), local(7, 2)]);
    assert_eq!(remap.len(), 3);
    assert_eq!(remap.get(n(7)), Some(local(7, 2)));
    match &operators[0] {
        NodeOperator::Join(j) => {
            assert_eq!(j.left(), local(7, 2));
            assert_eq!(j.right(), local(2, 0));
        }
        other => panic!("the join became {:?}", other),
    }
    assert_eq!(operators[1].ancestors(), vec![n(1)]);
}

#[test]
fn an_exchange_that_cannot_be_entered_names_its_node() {
    let mut remap = Remap::new();
    assign_local_addresses(&mut remap, &vec![n(2)]).unwrap();
    let mut swaps = Swaps::new();
    swaps.merge_one(Swap { dst: n(3), src: n(1), instead: n(30) }, false);
    let mut operators = vec![NodeOperator::Ingress(Ingress::new(n(1))), join_of(1, 2)];
    let r = initialize(&mut remap, &swaps, &vec![n(7), n(3)], &mut operators);
    assert_eq!(r, Err(CommitError::Unresolved { node: n(3) }));
    // the identifiers are assigned, the operators are as they were
    assert_eq!(remap.len(), 3);
    match &operators[1] {
        NodeOperator::Join(j) => {
            assert_eq!(j.left(), IndexPair::new(n(1)));
            assert_eq!(j.right(), IndexPair::new(n(2)));
        }
        other => panic!("the join became {:?}", other),
    }
}

#[test]
fn an_operator_is_committed_through_its_node() {
    let mut remap = Remap::new();
    assign_local_addresses(&mut remap, &vec![n(1), n(2)]).unwrap();
    let mut join = join_of(1, 2);
    join.on_commit(n(3), &remap);
    match &join {
        NodeOperator::Join(j) => {
            assert_eq!(j.left(), local(1, 0));
            assert_eq!(j.right(), local(2, 1));
        }
        other => panic!("the join became {:?}", other),
    }
    let mut base = NodeOperator::Base(Base::new(2, vec![0], false).unwrap());
    base.on_commit(n(1), &remap);
    assert!(base.is_base());
}

#[test]
fn the_seams_are_told_apart() {
    let ingress = NodeOperator::Ingress(Ingress::new(n(1)));
    let egress = NodeOperator::Egress(Egress::new(n(1)));
    assert!(ingress.is_ingress() && !ingress.is_egress() && !ingress.is_sharder());
    assert!(egress.is_egress() && !egress.is_ingress() && !egress.is_internal());
    assert!(!ingress.is_internal() && !ingress.is_base() && !ingress.is_reader());
    assert!(join_of(1, 2).is_internal());
    assert!(!NodeOperator::Source.is_internal());
    let sharder = NodeOperator::Sharder(Sharder::new(n(1), 0, 2).unwrap());
    assert!(sharder.is_sharder() && !sharder.is_internal());
    assert!(Sharder::new(n(1), 0, 0).is_none());
}

#[test]
fn a_batch_knows_whether_it_is_a_replay() {
    assert!(!ReplayContext::Regular.is_replay());
    assert!(ReplayContext::Partial { tag: Tag(3) }.is_replay());
    assert!(ReplayContext::Full { tag: Tag(3) }.is_replay());
    assert_eq!(ReplayContext::Regular.tag(), None);
    assert_eq!(ReplayContext::Full { tag: Tag(3) }.tag(), Some(Tag(3)));
}
