use dataflow::addressing::{DomainIndex, LocalNodeIndex, NodeIndex, Tag};
use dataflow::data::{DataType, Record};
use dataflow::domain::{Domain, DomainError, DomainNode};
use dataflow::flow::NodeOperator;
use dataflow::getter::{Getter, Looked};
use dataflow::ops::base::{Base, TableOperation};
use dataflow::ops::trigger::Trigger;
use dataflow::payload::Packet;
use dataflow::reader::{ReadError, ReadOutcome, Reader};
use dataflow::replay::{MissAction, ReplayPath};
use dataflow::runtime::{rows_of_piece, Handled};

fn spot(i: u32) -> LocalNodeIndex {
    LocalNodeIndex::make(i)
}

fn part(global: usize, operator: NodeOperator, children: Vec<u32>, width: usize, ready: bool) -> DomainNode {
    DomainNode {
        global: NodeIndex::new(global),
        operator,
        children: children.into_iter().map(spot).collect(),
        width,
        ready,
    }
}

/// A(x, y) at 0, an identity with a partial view of it at 1, and a partial reader at 2, both
/// keyed on x. The nodes are there; their states are not.
fn pipeline() -> (Domain, Vec<ReplayPath>) {
    let mut d = Domain::new(DomainIndex(0), 0, 8);
    d.add_node(part(1, NodeOperator::Base(Base::new(2, vec![0], false).unwrap()), vec![1], 2, true)).unwrap();
    d.add_node(part(2, NodeOperator::Identity(Trigger::new(NodeIndex::new(1))), vec![2], 2, false)).unwrap();
    d.add_node(part(3, NodeOperator::Reader(Reader::new(NodeIndex::new(2), vec![0])), vec![], 2, true)).unwrap();
    let paths = vec![
        ReplayPath { tag: Tag(1), source: Some(spot(0)), dst: spot(1), columns: vec![0] },
        ReplayPath { tag: Tag(2), source: Some(spot(1)), dst: spot(2), columns: vec![0] },
        ReplayPath { tag: Tag(3), source: None, dst: spot(2), columns: vec![0] },
    ];
    (d, paths)
}

fn row(x: i64, y: &str) -> Vec<DataType> {
    vec![x.into(), y.into()]
}

fn set_up(d: &mut Domain, paths: &Vec<ReplayPath>) {
    for (node, partial) in [(0, false), (1, true), (2, true)] {
        let p = Packet::PrepareState { node: spot(node), key: vec![0], partial };
        assert!(matches!(d.handle(paths, p, 0, 100), Handled::Prepared));
    }
    assert!(matches!(
        d.handle(paths, Packet::Ready { node: spot(1), index: vec![0] }, 0, 100),
        Handled::Readied
    ));
}

#[test]
fn packets_set_a_domain_up() {
    let (mut d, paths) = pipeline();
    // the identity is not ready: the write stops there
    d.prepare_state(spot(0), vec![0], false).unwrap();
    let write = Packet::Input { base: spot(0), ops: vec![TableOperation::Insert(row(1, "a"))] };
    match d.handle(&paths, write, 0, 100) {
        Handled::Written(w) => {
            assert_eq!(w.records.len(), 1);
            assert!(w.deliveries.is_empty());
            assert_eq!(w.error, Some(DomainError::NotReady));
        }
        other => panic!("the write was not taken in: {:?}", other),
    }
    set_up(&mut d, &paths);
    assert!(matches!(
        d.handle(&paths, Packet::Ready { node: spot(7), index: vec![] }, 0, 100),
        Handled::Refused(DomainError::UnknownNode)
    ));
    assert!(matches!(
        d.handle(&paths, Packet::PrepareState { node: spot(1), key: vec![5], partial: true }, 0, 100),
        Handled::Refused(DomainError::InvariantViolation)
    ));
    assert!(matches!(
        d.handle(&paths, Packet::StateSizeProbe { node: spot(0) }, 0, 100),
        Handled::StateSize(0)
    ));
}

#[test]
fn a_read_is_filled_by_replays_from_the_base() {
    let (mut d, paths) = pipeline();
    set_up(&mut d, &paths);
    for (x, y) in [(1, "a"), (2, "b"), (1, "c")] {
        let write = Packet::Input { base: spot(0), ops: vec![TableOperation::Insert(row(x, y))] };
        match d.handle(&paths, write, 0, 100) {
            Handled::Written(w) => {
                assert_eq!(w.error, None);
                assert_eq!(w.deliveries.len(), 2);
                assert_eq!(w.requests.map(|r| r.len()), Ok(0));
            }
            other => panic!("the write was not taken in: {:?}", other),
        }
    }
    assert!(matches!(d.handle(&paths, Packet::StateSizeProbe { node: spot(0) }, 0, 100), Handled::StateSize(3)));
    assert!(matches!(d.handle(&paths, Packet::StateSizeProbe { node: spot(1) }, 0, 100), Handled::StateSize(0)));
    assert!(matches!(d.handle(&paths, Packet::StateSizeProbe { node: spot(2) }, 0, 100), Handled::StateSize(0)));

    // the reader misses; the view that it is filled from misses too
    let key: Vec<DataType> = vec![1.into()];
    assert!(matches!(d.read(spot(2), &key, true, 11), Some(ReadOutcome::Parked)));
    d.replay.on_miss(Tag(2), vec![1.into()], 1);
    match d.handle(&paths, Packet::RequestPartialReplay { tag: Tag(2), key: vec![1.into()] }, 1, 100) {
        Handled::Piece { tag, rows, .. } => {
            assert_eq!(tag, Tag(2));
            assert_eq!(rows, None);
        }
        other => panic!("the request was not answered: {:?}", other),
    }
    // so the view is filled from the base first
    d.replay.on_miss(Tag(1), vec![1.into()], 2);
    let rows = match d.handle(&paths, Packet::RequestPartialReplay { tag: Tag(1), key: vec![1.into()] }, 2, 100) {
        Handled::Piece { rows: Some(rows), .. } => rows,
        other => panic!("the base has every key: {:?}", other),
    };
    assert_eq!(rows, vec![row(1, "a"), row(1, "c")]);
    let piece = Packet::ReplayPiece {
        tag: Tag(1),
        from: spot(0),
        to: spot(1),
        key: Some(vec![1.into()]),
        data: rows.into_iter().map(Record::Positive).collect(),
    };
    match d.handle(&paths, piece, 3, 100) {
        Handled::Filled { next, woken } => {
            assert!(next.is_none());
            assert!(woken.is_empty());
        }
        other => panic!("the piece was not taken in: {:?}", other),
    }
    // and the reader from the view
    let rows = match d.handle(&paths, Packet::RequestPartialReplay { tag: Tag(2), key: vec![1.into()] }, 4, 100) {
        Handled::Piece { rows: Some(rows), .. } => rows,
        other => panic!("the view is filled: {:?}", other),
    };
    let piece = Packet::ReplayPiece {
        tag: Tag(2),
        from: spot(1),
        to: spot(2),
        key: Some(vec![1.into()]),
        data: rows.into_iter().map(Record::Positive).collect(),
    };
    match d.handle(&paths, piece, 5, 100) {
        Handled::Filled { next, woken } => {
            assert!(next.is_none());
            assert_eq!(woken, vec![11]);
        }
        other => panic!("the piece was not taken in: {:?}", other),
    }
    match d.read(spot(2), &key, true, 11) {
        Some(ReadOutcome::Rows(found)) => assert_eq!(found, vec![row(1, "a"), row(1, "c")]),
        other => panic!("rows were expected, not {:?}", other),
    }
    assert_eq!(d.replay.under_way(), 0);

    // eviction makes the key a hole again, in the reader and in the view
    match d.handle(&paths, Packet::Evict { tag: Tag(2), keys: vec![vec![1.into()], vec![8.into()]] }, 6, 100) {
        Handled::Evicted { known } => assert_eq!(known, vec![true, false]),
        other => panic!("nothing was evicted: {:?}", other),
    }
    assert!(matches!(d.read(spot(2), &key, false, 0), Some(ReadOutcome::Failed(ReadError::Missing))));
    match d.handle(&paths, Packet::Evict { tag: Tag(1), keys: vec![vec![1.into()]] }, 6, 100) {
        Handled::Evicted { known } => assert_eq!(known, vec![true]),
        other => panic!("nothing was evicted: {:?}", other),
    }
    assert_eq!(d.serve(spot(1), &vec![0], &key), Ok(None));
}

#[test]
fn packets_that_cannot_be_carried_out_are_refused() {
    let (mut d, paths) = pipeline();
    set_up(&mut d, &paths);
    let key: Vec<DataType> = vec![1.into()];
    // no path has the tag
    assert!(matches!(
        d.handle(&paths, Packet::RequestPartialReplay { tag: Tag(9), key: vec![1.into()] }, 0, 100),
        Handled::Refused(DomainError::UnknownReplay)
    ));
    assert!(matches!(
        d.handle(&paths, Packet::Evict { tag: Tag(9), keys: vec![] }, 0, 100),
        Handled::Refused(DomainError::UnknownReplay)
    ));
    // the path does not start in this domain
    assert!(matches!(
        d.handle(&paths, Packet::RequestPartialReplay { tag: Tag(3), key: vec![1.into()] }, 0, 100),
        Handled::Refused(DomainError::InvariantViolation)
    ));
    // nobody has asked for the replay
    let piece = |data: Vec<Record>| Packet::ReplayPiece {
        tag: Tag(1),
        from: spot(0),
        to: spot(1),
        key: Some(vec![1.into()]),
        data,
    };
    assert!(matches!(
        d.handle(&paths, piece(vec![Record::Positive(row(1, "a"))]), 0, 100),
        Handled::Refused(DomainError::UnknownReplay)
    ));
    // a replay brings rows, and takes none away
    d.replay.on_miss(Tag(1), vec![1.into()], 0);
    assert!(matches!(
        d.handle(&paths, piece(vec![Record::Negative(row(1, "a"))]), 0, 100),
        Handled::Refused(DomainError::InvariantViolation)
    ));
    // the rows belong under the key
    assert!(matches!(
        d.handle(&paths, piece(vec![Record::Positive(row(2, "b"))]), 0, 100),
        Handled::Refused(DomainError::InvariantViolation)
    ));
    assert!(d.replay.is_under_way(Tag(1), &key));
    // a write to what is no base
    assert!(matches!(
        d.handle(&paths, Packet::Input { base: spot(1), ops: vec![] }, 0, 100),
        Handled::Refused(DomainError::InvariantViolation)
    ));
    // what changes the shape of the domain is left to others
    assert!(matches!(d.handle(&paths, Packet::Quit, 0, 100), Handled::Left(Packet::Quit)));
    assert!(matches!(
        d.handle(&paths, Packet::DropBaseColumn { node: spot(0), column: 1 }, 0, 100),
        Handled::Left(Packet::DropBaseColumn { .. })
    ));
}

#[test]
fn a_message_and_a_full_replay_are_delivered_alike() {
    let (mut d, paths) = pipeline();
    set_up(&mut d, &paths);
    d.prepare_state(spot(1), vec![0], false).unwrap();
    let message = Packet::Message { from: spot(0), to: spot(1), data: vec![Record::Positive(row(1, "a"))] };
    match d.handle(&paths, message, 0, 100) {
        Handled::Delivered { deliveries, error, requests } => {
            assert_eq!(deliveries.len(), 2);
            assert_eq!(error, None);
            assert_eq!(requests.map(|r| r.len()), Ok(0));
        }
        other => panic!("the message was not delivered: {:?}", other),
    }
    let full = Packet::ReplayPiece {
        tag: Tag(1),
        from: spot(0),
        to: spot(1),
        key: None,
        data: vec![Record::Positive(row(2, "b")), Record::Positive(row(3, "c"))],
    };
    assert!(matches!(d.handle(&paths, full, 0, 100), Handled::Delivered { error: None, .. }));
    assert_eq!(d.serve(spot(1), &vec![0], &vec![3.into()]), Ok(Some(vec![row(3, "c")])));
    assert!(matches!(d.handle(&paths, Packet::StateSizeProbe { node: spot(1) }, 0, 100), Handled::StateSize(3)));
}

#[test]
fn the_rows_of_a_piece_are_its_positive_records() {
    assert_eq!(rows_of_piece(vec![]), Some(vec![]));
    assert_eq!(
        rows_of_piece(vec![Record::Positive(row(1, "a")), Record::Positive(row(2, "b"))]),
        Some(vec![row(1, "a"), row(2, "b")])
    );
    assert_eq!(rows_of_piece(vec![Record::Positive(row(1, "a")), Record::Negative(row(1, "a"))]), None);
}

#[test]
fn a_request_is_fulfilled_from_the_source_of_its_path() {
    let (mut d, paths) = pipeline();
    set_up(&mut d, &paths);
    for (x, y) in [(1, "a"), (2, "b"), (1, "c")] {
        let write = Packet::Input { base: spot(0), ops: vec![TableOperation::Insert(row(x, y))] };
        assert!(matches!(d.handle(&paths, write, 0, 100), Handled::Written(_)));
    }
    // nobody has asked for the replay
    assert!(matches!(
        d.fulfil(&paths, Tag(1), vec![1.into()], 1, 100),
        Handled::Refused(DomainError::UnknownReplay)
    ));
    // the view is filled from the base
    d.replay.on_miss(Tag(1), vec![1.into()], 1);
    match d.fulfil(&paths, Tag(1), vec![1.into()], 2, 100) {
        Handled::Filled { next, woken } => {
            assert!(next.is_none());
            assert!(woken.is_empty());
        }
        other => panic!("the view was not filled: {:?}", other),
    }
    assert_eq!(d.serve(spot(1), &vec![0], &vec![1.into()]), Ok(Some(vec![row(1, "a"), row(1, "c")])));
    // the reader is filled from the view, and its caller woken
    assert!(matches!(d.read(spot(2), &vec![1.into()], true, 5), Some(ReadOutcome::Parked)));
    d.replay.on_miss(Tag(2), vec![1.into()], 3);
    match d.fulfil(&paths, Tag(2), vec![1.into()], 4, 100) {
        Handled::Filled { woken, .. } => assert_eq!(woken, vec![5]),
        other => panic!("the reader was not filled: {:?}", other),
    }
    // another key is a hole of the view: the reader cannot be filled from it yet
    d.replay.on_miss(Tag(2), vec![2.into()], 5);
    assert!(matches!(d.fulfil(&paths, Tag(2), vec![2.into()], 6, 100), Handled::Piece { rows: None, .. }));
    assert!(d.replay.is_under_way(Tag(2), &vec![2.into()]));
    // paths that are unknown, or do not start here
    assert!(matches!(
        d.fulfil(&paths, Tag(9), vec![1.into()], 7, 100),
        Handled::Refused(DomainError::UnknownReplay)
    ));
    assert!(matches!(
        d.fulfil(&paths, Tag(3), vec![1.into()], 7, 100),
        Handled::Refused(DomainError::InvariantViolation)
    ));
}

#[test]
fn a_read_that_misses_asks_for_the_replay_once() {
    let (mut d, paths) = pipeline();
    set_up(&mut d, &paths);
    for (x, y) in [(1, "a"), (1, "c")] {
        let write = Packet::Input { base: spot(0), ops: vec![TableOperation::Insert(row(x, y))] };
        assert!(matches!(d.handle(&paths, write, 0, 100), Handled::Written(_)));
    }
    let key: Vec<DataType> = vec![1.into()];
    // the first read of the hole parks its caller and sends the request of the reader's path
    let (outcome, action) = d.look(&paths, spot(2), &key, true, 7, 1);
    assert!(matches!(outcome, Some(ReadOutcome::Parked)));
    match action {
        Some(MissAction::Request(request)) => {
            assert_eq!(request.tag, Tag(2));
            assert_eq!(request.key, key);
        }
        other => panic!("a request was expected, not {:?}", other),
    }
    // further reads of the key, blocking or not, send nothing
    let (outcome, action) = d.look(&paths, spot(2), &key, true, 8, 2);
    assert!(matches!(outcome, Some(ReadOutcome::Parked)));
    assert!(matches!(action, Some(MissAction::Suppressed)));
    let (outcome, action) = d.look(&paths, spot(2), &key, false, 9, 3);
    assert!(matches!(outcome, Some(ReadOutcome::Failed(ReadError::Missing))));
    assert!(matches!(action, Some(MissAction::Suppressed)));
    assert_eq!(d.replay.under_way(), 1);
    // what is published meanwhile shows the hole as a miss
    let published = d.publish(spot(2), 10).unwrap();
    let getter = Getter::from_shards(vec![Some(published)], None).unwrap();
    assert_eq!(getter.lookup(&1.into(), false), Ok(Looked::Missing { replay: vec![1.into()] }));
    assert_eq!(getter.len(), 0);

    // the view is filled from the base, then the reader from the view: both callers wake
    d.replay.on_miss(Tag(1), vec![1.into()], 4);
    assert!(matches!(d.fulfil(&paths, Tag(1), vec![1.into()], 5, 100), Handled::Filled { .. }));
    match d.fulfil(&paths, Tag(2), vec![1.into()], 6, 100) {
        Handled::Filled { woken, .. } => assert_eq!(woken, vec![7, 8]),
        other => panic!("the reader was not filled: {:?}", other),
    }
    // a read hits, and asks for nothing
    let (outcome, action) = d.look(&paths, spot(2), &key, true, 7, 7);
    assert!(matches!(outcome, Some(ReadOutcome::Rows(rows)) if rows == vec![row(1, "a"), row(1, "c")]));
    assert!(action.is_none());
    // and what is published now has the rows
    let published = d.publish(spot(2), 11).unwrap();
    assert_eq!(published.ts, 11);
    let getter = Getter::from_shards(vec![Some(published)], None).unwrap();
    assert_eq!(getter.lookup(&1.into(), true), Ok(Looked::Found(vec![row(1, "a"), row(1, "c")])));
    assert_eq!(getter.len(), 2);
    // after an eviction the published state misses again
    assert_eq!(
        match d.handle(&paths, Packet::Evict { tag: Tag(2), keys: vec![vec![1.into()]] }, 8, 100) {
            Handled::Evicted { known } => known,
            other => panic!("nothing was evicted: {:?}", other),
        },
        vec![true]
    );
    let getter = Getter::from_shards(vec![d.publish(spot(2), 12)], None).unwrap();
    assert_eq!(getter.lookup(&1.into(), true), Ok(Looked::Parked { replay: vec![1.into()] }));
    // what is no reader publishes nothing, and a read of it asks for nothing
    assert!(d.publish(spot(1), 0).is_none());
    assert!(d.publish(spot(9), 0).is_none());
    let (outcome, action) = d.look(&paths, spot(1), &key, true, 7, 9);
    assert!(outcome.is_none() && action.is_none());
}
