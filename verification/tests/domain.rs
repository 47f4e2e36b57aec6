use dataflow::addressing::{DomainIndex, IndexPair, LocalNodeIndex, NodeIndex, Remap, Tag};
use dataflow::data::{DataType, Record};
use dataflow::domain::{Domain, DomainError, DomainNode, Pending};
use dataflow::flow::NodeOperator;
use dataflow::ops::base::{Base, TableOperation};
use dataflow::ops::join::{Join, JoinSource, JoinType};
use dataflow::ops::trigger::Trigger;
use dataflow::reader::{ReadError, ReadOutcome, Reader};
use dataflow::replay::{ReplayError, ReplayPath};

fn at(i: u32) -> LocalNodeIndex {
    LocalNodeIndex::make(i)
}

fn member(global: usize, operator: NodeOperator, children: Vec<u32>, width: usize) -> DomainNode {
    DomainNode {
        global: NodeIndex::new(global),
        operator,
        children: children.into_iter().map(at).collect(),
        width,
        ready: true,
    }
}

fn locals(n: usize) -> Remap {
    let mut remap = Remap::new();
    for g in 1..=n {
        let mut pair = IndexPair::new(NodeIndex::new(g));
        pair.set_local(at((g - 1) as u32));
        remap.insert(NodeIndex::new(g), pair);
    }
    remap
}

/// L(id, name) at 0, R(id, name) at 1, a partial view of R at 2, the inner join of L and the
/// view on id at 3, and a reader of the join at 4, keyed on id.
fn joined() -> (Domain, Vec<ReplayPath>) {
    let mut d = Domain::new(DomainIndex(0), 0, 8);
    d.add_node(member(1, NodeOperator::Base(Base::new(2, vec![0], false).unwrap()), vec![3], 2)).unwrap();
    d.add_node(member(2, NodeOperator::Base(Base::new(2, vec![0], false).unwrap()), vec![2], 2)).unwrap();
    d.add_node(member(3, NodeOperator::Identity(Trigger::new(NodeIndex::new(2))), vec![3], 2)).unwrap();
    let mut join = Join::new(
        NodeIndex::new(1),
        NodeIndex::new(3),
        JoinType::Inner,
        vec![0],
        vec![0],
        vec![
            JoinSource { left: true, column: 0 },
            JoinSource { left: true, column: 1 },
            JoinSource { left: false, column: 1 },
        ],
    );
    join.on_commit(NodeIndex::new(4), &locals(3));
    d.add_node(member(4, NodeOperator::Join(join), vec![4], 3)).unwrap();
    d.add_node(member(5, NodeOperator::Reader(Reader::new(NodeIndex::new(4), vec![0])), vec![], 3)).unwrap();
    d.prepare_state(at(0), vec![0], false).unwrap();
    d.prepare_state(at(1), vec![0], false).unwrap();
    d.prepare_state(at(2), vec![0], true).unwrap();
    d.prepare_state(at(4), vec![0], false).unwrap();
    let paths = vec![ReplayPath { tag: Tag(9), source: None, dst: at(2), columns: vec![0] }];
    (d, paths)
}

fn insert(id: i64, name: &str) -> TableOperation {
    TableOperation::Insert(vec![id.into(), name.into()])
}

#[test]
fn a_write_is_taken_in_with_all_that_follows() {
    let (mut d, paths) = joined();
    // a row of R passes the view, finds nothing to join, and leaves the reader an empty batch
    let right = d.write(&paths, at(1), &vec![insert(1, "y")], 0, 100).unwrap();
    assert_eq!(right.records.len(), 1);
    assert!(right.rejected.is_empty());
    assert_eq!(right.error, None);
    assert_eq!(right.deliveries.len(), 3);
    assert_eq!(right.deliveries[0].results.len(), 1);
    assert!(right.deliveries[1].results.is_empty());
    assert!(right.deliveries[1].misses.is_empty());
    assert_eq!(right.requests.as_ref().map(|r| r.len()), Ok(0));

    // a row of L misses in the view: one request goes out for the key
    let left = d.write(&paths, at(0), &vec![insert(1, "x")], 5, 100).unwrap();
    assert_eq!(left.error, None);
    assert_eq!(left.deliveries.len(), 2);
    assert_eq!(left.deliveries[0].misses.len(), 1);
    let requests = left.requests.unwrap();
    assert_eq!(requests.len(), 1);
    assert_eq!(requests[0].tag, Tag(9));
    assert!(d.replay.is_under_way(Tag(9), &vec![1.into()]));

    // a second row of L for the key misses as well, and asks for nothing
    let again = d.write(&paths, at(0), &vec![insert(1, "z")], 6, 100).unwrap();
    assert_eq!(again.requests.map(|r| r.len()), Ok(0));
    assert_eq!(d.replay.under_way(), 1);
}

#[test]
fn the_source_of_a_replay_answers_from_its_state() {
    let (mut d, paths) = joined();
    d.write(&paths, at(1), &vec![insert(1, "y"), insert(1, "w"), insert(2, "v")], 0, 100).unwrap();
    let rows = d.serve(at(1), &vec![0], &vec![1.into()]).unwrap().unwrap();
    assert_eq!(rows, vec![vec![DataType::from(1), "y".into()], vec![DataType::from(1), "w".into()]]);
    // a key without rows is known to a full state
    assert_eq!(d.serve(at(1), &vec![0], &vec![7.into()]), Ok(Some(vec![])));
    // the partial view has nothing but holes
    assert_eq!(d.serve(at(2), &vec![0], &vec![1.into()]), Ok(None));
    // the replay fills the hole, and the view answers
    d.replay.on_miss(Tag(9), vec![1.into()], 0);
    d.install_replay(Tag(9), at(2), &vec![1.into()], rows, 1).unwrap();
    assert_eq!(d.serve(at(2), &vec![0], &vec![1.into()]).map(|r| r.map(|rows| rows.len())), Ok(Some(2)));

    assert_eq!(d.serve(at(9), &vec![0], &vec![1.into()]), Err(DomainError::UnknownNode));
    assert_eq!(d.serve(at(1), &vec![1], &vec![1.into()]), Err(DomainError::InvariantViolation));
    assert_eq!(d.serve(at(3), &vec![0], &vec![1.into()]), Err(DomainError::InvariantViolation));
}

#[test]
fn a_write_to_what_is_no_base_is_refused() {
    let (mut d, paths) = joined();
    assert_eq!(d.write(&paths, at(3), &vec![insert(1, "x")], 0, 100).err(), Some(DomainError::InvariantViolation));
    assert_eq!(d.write(&paths, at(8), &vec![insert(1, "x")], 0, 100).err(), Some(DomainError::UnknownNode));
    assert_eq!(d.replay.under_way(), 0);
}

#[test]
fn a_miss_without_a_path_is_an_error() {
    let (mut d, _) = joined();
    let none: Vec<ReplayPath> = Vec::new();
    let left = d.write(&none, at(0), &vec![insert(1, "x")], 0, 100).unwrap();
    assert_eq!(left.error, None);
    assert_eq!(left.requests.err(), Some(ReplayError::NoPath));
    assert_eq!(d.replay.under_way(), 0);
}

#[test]
fn a_message_is_taken_in_and_its_misses_ask_for_replays() {
    let (mut d, paths) = joined();
    let batch = vec![Record::Positive(vec![4.into(), "x".into()])];
    let (log, error, requests) = d.message(&paths, at(3), at(0), batch, 0, 100);
    assert_eq!(error, None);
    assert_eq!(log.len(), 2);
    assert_eq!(requests.map(|r| r.len()), Ok(1));
    assert!(d.replay.is_under_way(Tag(9), &vec![4.into()]));
    // the reader of the join has nothing for the key
    match d.read(at(4), &vec![4.into()], false, 0) {
        Some(ReadOutcome::Rows(rows)) => assert!(rows.is_empty()),
        other => panic!("rows were expected, not {:?}", other),
    }
    assert!(!matches!(d.read(at(4), &vec![4.into()], false, 0), Some(ReadOutcome::Failed(ReadError::NotReady))));
}

#[test]
fn several_batches_are_delivered_in_their_order() {
    let (mut d, _) = joined();
    let first = Pending { to: at(2), from: at(1), records: vec![Record::Positive(vec![1.into(), "y".into()])] };
    let second = Pending { to: at(9), from: at(1), records: vec![] };
    let (log, error) = d.run(vec![first, second], 100);
    // the first batch is delivered, and what follows from it waits behind the second
    assert_eq!(log.len(), 1);
    assert_eq!(error, Some(DomainError::UnknownNode));
    let (log, error) = d.run(vec![], 100);
    assert!(log.is_empty());
    assert_eq!(error, None);
    // the limit ends a run with batches left
    let batch = Pending { to: at(2), from: at(1), records: vec![] };
    let (log, error) = d.run(vec![batch], 1);
    assert_eq!(log.len(), 1);
    assert_eq!(error, Some(DomainError::InvariantViolation));
}
