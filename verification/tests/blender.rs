use dataflow::addressing::{DomainIndex, IndexPair, LocalNodeIndex, NodeIndex};
use dataflow::migrate::{group_by_domain, CommitError, Swap, Swaps};
use dataflow::payload::Packet;
use dataflow::blender::{Blender, ColumnChange, DomainConfig};
use dataflow::channel::ChannelCoordinator;
use dataflow::data::DataType;
use dataflow::flow::{GraphError, NodeOperator};
use dataflow::ops::base::Base;
use dataflow::ops::topk::TopK;
use dataflow::ops::trigger::Trigger;

fn local(n: NodeIndex, id: u32) -> IndexPair {
    let mut pair = IndexPair::new(n);
    pair.set_local(LocalNodeIndex::make(id));
    pair
}

fn columns(fields: &[&str]) -> Vec<String> {
    fields.iter().map(|f| f.to_string()).collect()
}

fn table(width: usize) -> NodeOperator {
    NodeOperator::Base(Base::new(width, vec![0], false).unwrap())
}

#[test]
fn it_works_default() {
    let b = Blender::default();
    assert_eq!(b.ndomains(), 0);
}

#[test]
fn it_works_blender_with_migration() {
    // Two tables, a (x, y, z) and b (r, s), set up in one migration.
    let mut b = Blender::new();
    let mut mig = b.start_migration();
    assert!(mig.add_ingredient(&mut b, "a".to_string(), columns(&["x", "y", "z"]), table(3)).is_ok());
    assert!(mig.add_ingredient(&mut b, "b".to_string(), columns(&["r", "s"]), table(2)).is_ok());
    assert_eq!(mig.added(), &vec![NodeIndex::new(1), NodeIndex::new(2)]);
    assert_eq!(b.inputs(), vec![NodeIndex::new(2), NodeIndex::new(1)]);
    assert_eq!(b.ndomains(), 0);
    // each table gets its own domain, and the migration is committed
    assert!(mig.assign_domain(&mut b, NodeIndex::new(1), DomainIndex(0)));
    assert!(mig.assign_domain(&mut b, NodeIndex::new(2), DomainIndex(1)));
    let committed = mig.commit(&mut b, Swaps::new(), &vec![]).unwrap();
    assert_eq!(
        committed.by_domain,
        vec![(DomainIndex(0), vec![NodeIndex::new(1)]), (DomainIndex(1), vec![NodeIndex::new(2)])]
    );
    assert!(committed.packets.is_empty());
    assert_eq!(b.ndomains(), 2);
}

#[test]
fn a_new_blender_has_the_documented_settings() {
    let b = Blender::new();
    assert_eq!(
        b.domain_config(),
        DomainConfig { concurrent_replays: 512, replay_batch_size: 32, replay_batch_timeout: 1_000_000 }
    );
    assert_eq!(b.worker_count(), 0);
    assert!(b.inputs().is_empty());
    assert!(b.outputs().is_empty());
}

#[test]
fn setters_change_one_setting_each() {
    let mut b = Blender::new();
    b.set_max_concurrent_replay(7);
    b.set_partial_replay_batch_size(9);
    b.set_partial_replay_batch_timeout(250);
    assert_eq!(
        b.domain_config(),
        DomainConfig { concurrent_replays: 7, replay_batch_size: 9, replay_batch_timeout: 250 }
    );
    b.add_worker("10.0.0.1:6033".to_string());
    b.add_worker("10.0.0.2:6033".to_string());
    assert_eq!(b.worker_count(), 2);
}

#[test]
fn maintain_adds_one_reader_per_node() {
    let mut b = Blender::new();
    let mut mig = b.start_migration();
    let a = mig.add_ingredient(&mut b, "a".to_string(), columns(&["x", "y"]), table(2)).unwrap();
    let i = mig
        .add_ingredient(&mut b, "i".to_string(), columns(&["x", "y"]), NodeOperator::Identity(Trigger::new(a)))
        .unwrap();
    let r = mig.maintain(&mut b, i, vec![0]).unwrap();
    assert_eq!(r, NodeIndex::new(3));
    assert_eq!(mig.added(), &vec![a, i, r]);
    assert_eq!(b.outputs(), vec![i]);
    // A second request for the same node finds the reader that is there.
    assert_eq!(mig.maintain(&mut b, i, vec![1]), Ok(r));
    assert_eq!(mig.added().len(), 3);
    assert_eq!(b.ingredients().find_getter_for(i), Some(r));
    assert_eq!(b.ingredients().find_getter_for(a), None);
}

#[test]
fn maintain_refuses_what_is_not_there() {
    let mut b = Blender::new();
    let mut mig = b.start_migration();
    let a = mig.add_ingredient(&mut b, "a".to_string(), columns(&["x", "y"]), table(2)).unwrap();
    assert_eq!(mig.maintain(&mut b, NodeIndex::new(0), vec![]), Err(GraphError::UnknownParent));
    assert_eq!(mig.maintain(&mut b, NodeIndex::new(5), vec![0]), Err(GraphError::UnknownParent));
    assert_eq!(mig.maintain(&mut b, a, vec![2]), Err(GraphError::UnknownColumn));
    assert_eq!(mig.added(), &vec![a]);
    assert!(b.outputs().is_empty());
}

#[test]
fn a_migration_refuses_a_node_below_nothing() {
    let mut b = Blender::new();
    let mut mig = b.start_migration();
    let r = mig.add_ingredient(
        &mut b,
        "i".to_string(),
        columns(&["x"]),
        NodeOperator::Identity(Trigger::new(NodeIndex::new(4))),
    );
    assert_eq!(r, Err(GraphError::UnknownParent));
    assert!(mig.added().is_empty());
}

#[test]
fn sharding_and_partial_states_can_be_switched_off() {
    let mut b = Blender::new();
    assert!(b.sharding_enabled() && b.partial_enabled());
    b.disable_partial();
    assert!(b.sharding_enabled() && !b.partial_enabled());
    b.disable_sharding();
    assert!(!b.sharding_enabled() && !b.partial_enabled());
    assert_eq!(b.domain_config(), Blender::default().domain_config());
}

#[test]
fn a_graph_is_written_down_for_graphviz() {
    let mut b = Blender::new();
    assert_eq!(
        b.to_text(),
        "digraph {\n    node [shape=record, fontsize=10]\n    0 [label=\"source: (source)\"]\n}"
    );
    let mut mig = b.start_migration();
    let a = mig.add_ingredient(&mut b, "a".to_string(), columns(&["x", "y"]), table(2)).unwrap();
    let i = mig
        .add_ingredient(&mut b, "i".to_string(), columns(&["x", "y"]), NodeOperator::Identity(Trigger::new(a)))
        .unwrap();
    mig.maintain(&mut b, i, vec![0]).unwrap();
    let expected = [
        "digraph {",
        "    node [shape=record, fontsize=10]",
        "    0 [label=\"source: (source)\"]",
        "    1 [label=\"a: B\"]",
        "    2 [label=\"i: ≡\"]",
        "    3 [label=\"reader: (reader)\"]",
        "    0 -> 1",
        "    1 -> 2",
        "    2 -> 3",
        "}",
    ]
    .join("\n");
    assert_eq!(b.to_text(), expected);
    assert_eq!(b.ingredients().edge_list(), vec![(0, 1), (1, 2), (2, 3)]);
}

#[test]
fn the_columns_of_an_old_base_can_change() {
    let mut b = Blender::new();
    let mut first = b.start_migration();
    let a = first.add_ingredient(&mut b, "a".to_string(), columns(&["x", "y"]), table(2)).unwrap();
    // not in the migration that has added the base
    assert_eq!(first.add_column(&mut b, a, "z".to_string(), DataType::Int(3)), None);
    assert!(!first.drop_column(&mut b, a, 0));

    let mut second = b.start_migration();
    let i = second
        .add_ingredient(&mut b, "i".to_string(), columns(&["x", "y"]), NodeOperator::Identity(Trigger::new(a)))
        .unwrap();
    assert_eq!(second.add_column(&mut b, a, "z".to_string(), DataType::Int(3)), Some(2));
    assert_eq!(second.add_column(&mut b, a, "w".to_string(), DataType::Null), Some(3));
    assert!(second.drop_column(&mut b, a, 1));
    // what is not there is not dropped, and what is no base has no columns to change
    assert!(!second.drop_column(&mut b, a, 4));
    assert_eq!(second.add_column(&mut b, NodeIndex::new(0), "z".to_string(), DataType::Null), None);
    assert_eq!(second.add_column(&mut b, NodeIndex::new(9), "z".to_string(), DataType::Null), None);
    assert!(second.has_added(i) && !second.has_added(a));
    assert!(!second.drop_column(&mut b, i, 0));

    let node = b.ingredients().node(a).unwrap();
    assert_eq!(node.fields, columns(&["x", "y", "z", "w"]));
    match &node.operator {
        NodeOperator::Base(base) => assert_eq!(base.columns(), 4),
        other => panic!("the base became {:?}", other),
    }
    let changes = second.column_changes();
    assert_eq!(changes.len(), 3);
    assert!(matches!(&changes[0], (n, ColumnChange::Add(f, DataType::Int(3))) if *n == a && f == "z"));
    assert!(matches!(&changes[1], (n, ColumnChange::Add(f, DataType::Null)) if *n == a && f == "w"));
    assert!(matches!(&changes[2], (n, ColumnChange::Drop(1)) if *n == a));
    // a column of the identity still comes from the base
    assert_eq!(b.ingredients().provenance(i, 1), vec![(a, Some(1))]);
}

#[test]
fn a_mutator_is_built_from_what_its_base_says() {
    let mut b = Blender::new();
    let mut coordinator = ChannelCoordinator::new();
    let mut first = b.start_migration();
    let a = first.add_ingredient(&mut b, "a".to_string(), columns(&["x", "y", "z"]), table(3)).unwrap();
    let keyless = first
        .add_ingredient(
            &mut b,
            "k".to_string(),
            columns(&["x"]),
            NodeOperator::Base(Base::new(1, vec![], false).unwrap()),
        )
        .unwrap();
    let i = first
        .add_ingredient(&mut b, "i".to_string(), columns(&["x", "y", "z"]), NodeOperator::Identity(Trigger::new(a)))
        .unwrap();
    // a base without a domain has no mutator
    assert!(b.get_mutator_builder(&coordinator, a).is_none());
    assert!(first.assign_domain(&mut b, a, DomainIndex(0)));
    assert!(first.assign_domain(&mut b, keyless, DomainIndex(1)));
    assert!(first.assign_domain(&mut b, i, DomainIndex(0)));
    first.commit(&mut b, Swaps::new(), &vec![]).unwrap();
    let mut second = b.start_migration();
    assert!(second.drop_column(&mut b, a, 2));
    // nor one whose shard is not known
    assert!(b.get_mutator_builder(&coordinator, a).is_none());
    coordinator.insert_addr((DomainIndex(0), 0), "10.0.0.1:7".to_string(), true);
    coordinator.insert_addr((DomainIndex(1), 0), "10.0.0.2:7".to_string(), false);

    let m = b.get_mutator_builder(&coordinator, a).unwrap();
    assert_eq!(m.txs, vec!["10.0.0.1:7".to_string()]);
    assert_eq!(m.key, vec![0]);
    assert!(m.key_is_primary);
    assert_eq!(m.dropped, vec![2]);
    assert_eq!(m.expected_columns, 2);
    assert_eq!(m.addr, local(a, 0));
    assert!(m.is_local);
    assert!(!m.transactional);

    let m = b.get_mutator_builder(&coordinator, keyless).unwrap();
    assert_eq!(m.txs, vec!["10.0.0.2:7".to_string()]);
    assert!(m.key.is_empty());
    assert!(!m.key_is_primary);
    assert_eq!(m.expected_columns, 1);

    assert!(b.get_mutator_builder(&coordinator, i).is_none());
    assert!(b.get_mutator_builder(&coordinator, NodeIndex::new(0)).is_none());
    assert!(b.get_mutator_builder(&coordinator, NodeIndex::new(40)).is_none());
}

#[test]
fn a_commit_makes_the_new_nodes_ready_and_tells_the_bases() {
    let mut b = Blender::new();
    let mut first = b.start_migration();
    let a = first.add_ingredient(&mut b, "a".to_string(), columns(&["x", "y"]), table(2)).unwrap();
    // an empty migration commits nothing
    let nothing = b.start_migration();
    assert!(nothing.commit(&mut b, Swaps::new(), &vec![]).is_ok());
    assert!(!first.assign_domain(&mut b, NodeIndex::new(0), DomainIndex(0)));
    assert!(!first.assign_domain(&mut b, NodeIndex::new(9), DomainIndex(0)));
    assert!(first.assign_domain(&mut b, a, DomainIndex(2)));
    let committed = first.commit(&mut b, Swaps::new(), &vec![]).unwrap();
    assert_eq!(committed.by_domain, vec![(DomainIndex(2), vec![a])]);
    assert_eq!(b.ndomains(), 3);
    // the base is the first node of its domain
    assert_eq!(b.ingredients().node(a).unwrap().address, local(a, 0));

    let mut second = b.start_migration();
    let i = second
        .add_ingredient(&mut b, "i".to_string(), columns(&["x", "y"]), NodeOperator::TopK(TopK::new(a, vec![], vec![0], 1)))
        .unwrap();
    let j = second
        .add_ingredient(&mut b, "j".to_string(), columns(&["x", "y"]), NodeOperator::TopK(TopK::new(i, vec![], vec![0], 1)))
        .unwrap();
    let k = second
        .add_ingredient(
            &mut b,
            "k".to_string(),
            columns(&["x", "y"]),
            NodeOperator::Ingress(dataflow::ops::routing::Ingress::new(i)),
        )
        .unwrap();
    assert_eq!(second.add_column(&mut b, a, "z".to_string(), DataType::Int(0)), Some(2));
    assert!(second.drop_column(&mut b, a, 1));
    assert!(second.assign_domain(&mut b, i, DomainIndex(2)));
    assert!(second.assign_domain(&mut b, j, DomainIndex(0)));
    assert!(second.assign_domain(&mut b, k, DomainIndex(0)));
    // the routing has put the ingress k between i and j, which live in different domains
    let routed = vec![Swap { dst: j, src: i, instead: k }];
    let committed = second.commit(&mut b, Swaps::new(), &routed).unwrap();
    assert_eq!(committed.by_domain, vec![(DomainIndex(2), vec![i]), (DomainIndex(0), vec![j, k])]);
    assert_eq!(committed.swaps.get(j, i), Some(k));
    // the local identifiers are dense in each domain: i follows the base, j and k start anew
    let graph = b.ingredients();
    assert_eq!(graph.node(i).unwrap().address, local(i, 1));
    assert_eq!(graph.node(j).unwrap().address, local(j, 0));
    assert_eq!(graph.node(k).unwrap().address, local(k, 1));
    // the operators name their parents by the nodes of their own domain
    match &graph.node(i).unwrap().operator {
        NodeOperator::TopK(o) => assert_eq!(o.src(), local(a, 0)),
        other => panic!("the operator became {:?}", other),
    }
    match &graph.node(j).unwrap().operator {
        NodeOperator::TopK(o) => assert_eq!(o.src(), local(k, 1)),
        other => panic!("the operator became {:?}", other),
    }
    // what the graph knows of where the columns come from is as it was declared
    assert_eq!(graph.provenance(j, 0), vec![(a, Some(0))]);
    assert_eq!(graph.parents(j), vec![i]);
    // the base is told of its columns
    assert_eq!(committed.packets.len(), 2);
    assert!(matches!(
        &committed.packets[0],
        (DomainIndex(2), Packet::AddBaseColumn { node, field, default: DataType::Int(0) })
            if node.id() == 0 && field == "z"
    ));
    assert!(matches!(
        &committed.packets[1],
        (DomainIndex(2), Packet::DropBaseColumn { node, column: 1 }) if node.id() == 0
    ));
    assert_eq!(b.ndomains(), 3);
}

#[test]
fn a_commit_stops_at_the_group_that_cannot_be_made_ready() {
    let mut b = Blender::new();
    let mut first = b.start_migration();
    let a = first.add_ingredient(&mut b, "a".to_string(), columns(&["x"]), table(1)).unwrap();
    let i = first
        .add_ingredient(&mut b, "i".to_string(), columns(&["x"]), NodeOperator::Identity(Trigger::new(a)))
        .unwrap();
    assert!(first.assign_domain(&mut b, a, DomainIndex(0)));
    assert!(first.assign_domain(&mut b, i, DomainIndex(1)));
    // the node 40 is to stand in for the parent of i, and has no place in the domain of i
    let routed = vec![Swap { dst: i, src: a, instead: NodeIndex::new(40) }];
    assert_eq!(
        first.commit(&mut b, Swaps::new(), &routed).err(),
        Some(CommitError::Unresolved { node: i })
    );
    // the group of the base was made ready before, and stays so
    assert_eq!(b.ingredients().node(a).unwrap().address, local(a, 0));
    assert_eq!(b.ingredients().node(i).unwrap().address, IndexPair::new(i));
    assert_eq!(b.ndomains(), 0);
}

#[test]
fn a_commit_names_the_node_that_has_no_place() {
    let mut b = Blender::new();
    let mut first = b.start_migration();
    let a = first.add_ingredient(&mut b, "a".to_string(), columns(&["x"]), table(1)).unwrap();
    let c = first.add_ingredient(&mut b, "c".to_string(), columns(&["x"]), table(1)).unwrap();
    assert!(first.assign_domain(&mut b, a, DomainIndex(0)));
    assert_eq!(first.commit(&mut b, Swaps::new(), &vec![]).err(), Some(CommitError::Unplaced { node: c }));
    assert_eq!(b.ndomains(), 0);
    let mut second = b.start_migration();
    assert_eq!(second.add_column(&mut b, a, "y".to_string(), DataType::Null), Some(1));
    assert_eq!(second.commit(&mut b, Swaps::new(), &vec![]).err(), Some(CommitError::Unplaced { node: a }));
    assert_eq!(
        group_by_domain(&vec![
            (NodeIndex::new(4), DomainIndex(1)),
            (NodeIndex::new(5), DomainIndex(0)),
            (NodeIndex::new(6), DomainIndex(1)),
        ]),
        vec![
            (DomainIndex(1), vec![NodeIndex::new(4), NodeIndex::new(6)]),
            (DomainIndex(0), vec![NodeIndex::new(5)]),
        ]
    );
    assert!(group_by_domain(&vec![]).is_empty());
}
