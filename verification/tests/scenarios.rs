use dataflow::addressing::{DomainIndex, IndexPair, LocalNodeIndex, NodeIndex, Remap, Tag};
use dataflow::data::{rows_equal, DataType, Record};
use dataflow::domain::{Domain, DomainError, DomainNode};
use dataflow::flow::NodeOperator;
use dataflow::ops::base::{Base, TableOperation};
use dataflow::ops::grouped::{Aggregation, Aggregator};
use dataflow::ops::join::{Join, JoinSource, JoinType};
use dataflow::ops::sharder::Sharder;
use dataflow::ops::topk::TopK;
use dataflow::ops::trigger::Trigger;
use dataflow::ranking::OrderBy;
use dataflow::reader::{ReadError, ReadOutcome, Reader};
use dataflow::replay::{MissAction, ReplayEngine, ReplayPath};
use dataflow::runtime::Handled;
use dataflow::state::{LookupResult, State};

fn local(i: u32) -> LocalNodeIndex {
    LocalNodeIndex::make(i)
}

/// The mapping in which the global node `g` is the local node `g - 1`, for the first `n`.
fn remap(n: usize) -> Remap {
    let mut remap = Remap::new();
    for g in 1..=n {
        let mut pair = IndexPair::new(NodeIndex::new(g));
        pair.set_local(local((g - 1) as u32));
        remap.insert(NodeIndex::new(g), pair);
    }
    remap
}

fn node(global: usize, operator: NodeOperator, children: Vec<u32>, width: usize) -> DomainNode {
    DomainNode {
        global: NodeIndex::new(global),
        operator,
        children: children.into_iter().map(local).collect(),
        width,
        ready: true,
    }
}

/// Writes to the base `base` and lets the domain take in what follows.
fn write(d: &mut Domain, base: u32, ops: Vec<TableOperation>) -> Vec<dataflow::domain::Delivery> {
    let (records, rejected) = d.input(local(base), &ops).unwrap();
    assert!(rejected.is_empty());
    let children: Vec<LocalNodeIndex> = d.nodes[base as usize].children.clone();
    let mut all = Vec::new();
    for child in children {
        let copy: Vec<Record> = records.iter().map(|r| r.deep_clone()).collect();
        let (log, error) = d.process(child, local(base), copy, 1000);
        assert_eq!(error, None);
        all.extend(log);
    }
    all
}

fn insert(row: Vec<DataType>) -> TableOperation {
    TableOperation::Insert(row)
}

fn rows_of(outcome: Option<ReadOutcome>) -> Vec<Vec<DataType>> {
    match outcome {
        Some(ReadOutcome::Rows(rows)) => rows,
        other => panic!("rows were expected, not {:?}", other),
    }
}

fn same_rows(a: &Vec<Vec<DataType>>, b: &Vec<Vec<DataType>>) -> bool {
    a.len() == b.len() && a.iter().zip(b.iter()).all(|(x, y)| rows_equal(x, y))
}

fn source_rows(d: &Domain, source: u32, key: &Vec<DataType>) -> Vec<Vec<DataType>> {
    match d.states.get(local(source)).unwrap().lookup(key) {
        LookupResult::Hit(rows) => rows.iter().map(|r| r.iter().map(|v| v.deep_clone()).collect()).collect(),
        LookupResult::Miss => panic!("the source of a replay knows every key"),
    }
}

#[test]
fn identity_pipeline() {
    // base A(x, y) -> identity -> reader keyed on x
    let mut d = Domain::new(DomainIndex(0), 0, 8);
    d.add_node(node(1, NodeOperator::Base(Base::new(2, vec![0], false).unwrap()), vec![1], 2)).unwrap();
    d.add_node(node(2, NodeOperator::Identity(Trigger::new(NodeIndex::new(1))), vec![2], 2)).unwrap();
    d.add_node(node(3, NodeOperator::Reader(Reader::new(NodeIndex::new(2), vec![0])), vec![], 2)).unwrap();
    d.prepare_state(local(0), vec![0], false).unwrap();
    d.prepare_state(local(2), vec![0], false).unwrap();

    write(&mut d, 0, vec![insert(vec![1.into(), "a".into()])]);
    write(&mut d, 0, vec![insert(vec![2.into(), "b".into()])]);
    write(&mut d, 0, vec![insert(vec![1.into(), "c".into()])]);

    let found = rows_of(d.read(local(2), &vec![1.into()], false, 0));
    assert!(same_rows(&found, &vec![vec![1.into(), "a".into()], vec![1.into(), "c".into()]]));
    let none = rows_of(d.read(local(2), &vec![3.into()], false, 0));
    assert!(none.is_empty());
}

#[test]
fn aggregate_with_partial_replay() {
    // base V(article, vote) -> count by article -> partial reader keyed on article
    let mut d = Domain::new(DomainIndex(0), 0, 8);
    d.add_node(node(1, NodeOperator::Base(Base::new(2, vec![], false).unwrap()), vec![1], 2)).unwrap();
    d.add_node(
        node(
            2,
            NodeOperator::Aggregation(Aggregator::new(NodeIndex::new(1), Aggregation::Count, 1, vec![0])),
            vec![2],
            2,
        ),
    )
    .unwrap();
    d.add_node(node(3, NodeOperator::Reader(Reader::new(NodeIndex::new(2), vec![0])), vec![], 2)).unwrap();
    d.prepare_state(local(0), vec![], false).unwrap();
    // the output of the count is materialized in full: it is the source of the replays
    d.prepare_state(local(1), vec![0], false).unwrap();
    d.prepare_state(local(2), vec![0], true).unwrap();
    let paths = vec![ReplayPath { tag: Tag(1), source: Some(local(1)), dst: local(2), columns: vec![0] }];

    for i in 0..5 {
        write(&mut d, 0, vec![insert(vec![10.into(), i.into()])]);
    }
    for i in 0..2 {
        write(&mut d, 0, vec![insert(vec![11.into(), i.into()])]);
    }

    for (article, expected) in [(10, vec![vec![DataType::Int(10), DataType::Int(5)]]), (99, vec![])] {
        let key: Vec<DataType> = vec![article.into()];
        // the blocking read misses and parks the caller: it has no answer yet
        assert!(matches!(d.read(local(2), &key, true, 7), Some(ReadOutcome::Parked)));
        // the miss asks for the replay, once
        let request = match d.replay.on_miss(Tag(1), vec![article.into()], 0) {
            MissAction::Request(request) => request,
            other => panic!("a request was expected, not {:?}", other),
        };
        assert!(matches!(d.replay.on_miss(Tag(1), vec![article.into()], 0), MissAction::Suppressed));
        // the replay is made from the state of the source, and wakes the caller
        match d.fulfil(&paths, request.tag, request.key, 1, 1000) {
            Handled::Filled { next, woken } => {
                assert!(next.is_none());
                assert_eq!(woken, vec![7]);
            }
            other => panic!("the reader was not filled: {:?}", other),
        }
        // the caller reads again: exactly one row for the group, with its count
        let found = rows_of(d.read(local(2), &key, true, 7));
        assert!(same_rows(&found, &expected));
    }
    // a write to a filled key reaches the reader
    write(&mut d, 0, vec![insert(vec![10.into(), 9.into()])]);
    let found = rows_of(d.read(local(2), &vec![10.into()], false, 0));
    assert!(same_rows(&found, &vec![vec![DataType::Int(10), DataType::Int(6)]]));
    // a write to a hole does not
    assert!(matches!(
        d.read(local(2), &vec![11.into()], false, 0),
        Some(ReadOutcome::Failed(ReadError::Missing))
    ));
}

#[test]
fn inner_join_with_partial_right() {
    // bases L(id, lname) and R(id, rname); R is seen through a partial view; inner join on id;
    // reader keyed on id
    let mut d = Domain::new(DomainIndex(0), 0, 8);
    d.add_node(node(1, NodeOperator::Base(Base::new(2, vec![0], false).unwrap()), vec![3], 2)).unwrap();
    d.add_node(node(2, NodeOperator::Base(Base::new(2, vec![0], false).unwrap()), vec![2], 2)).unwrap();
    d.add_node(node(3, NodeOperator::Identity(Trigger::new(NodeIndex::new(2))), vec![3], 2)).unwrap();
    let mut join = Join::new(
        NodeIndex::new(1),
        NodeIndex::new(3),
        JoinType::Inner,
        vec![0],
        vec![0],
        vec![
            JoinSource { left: true, column: 0 },
            JoinSource { left: true, column: 1 },
            JoinSource { left: false, column: 1 },
        ],
    );
    join.on_commit(NodeIndex::new(4), &remap(3));
    d.add_node(node(4, NodeOperator::Join(join), vec![4], 3)).unwrap();
    d.add_node(node(5, NodeOperator::Reader(Reader::new(NodeIndex::new(4), vec![0])), vec![], 3)).unwrap();
    d.prepare_state(local(0), vec![0], false).unwrap();
    d.prepare_state(local(1), vec![0], false).unwrap();
    d.prepare_state(local(2), vec![0], true).unwrap();
    d.prepare_state(local(4), vec![0], false).unwrap();
    let paths = vec![ReplayPath { tag: Tag(5), source: None, dst: local(2), columns: vec![0] }];
    let key: Vec<DataType> = vec![1.into()];

    // +L(1, "x"): the join misses on the right
    let log = write(&mut d, 0, vec![insert(vec![1.into(), "x".into()])]);
    assert_eq!(log.len(), 2);
    assert!(log[0].results.is_empty());
    assert_eq!(log[0].misses.len(), 1);
    assert_eq!(log[0].misses[0].on, local(2));
    let requests = d.replay.on_misses(&paths, &log[0].misses, 0).unwrap();
    assert_eq!(requests.len(), 1);
    // the replay fills the key on the right, and the parked batch is taken in again
    let rows = source_rows(&d, 1, &key);
    assert!(d.install_replay(Tag(5), local(2), &key, rows, 1).unwrap().is_none());
    let (log, error) = d.process(local(3), local(0), vec![Record::Positive(vec![1.into(), "x".into()])], 10);
    assert_eq!(error, None);
    assert!(log[0].misses.is_empty());
    assert!(rows_of(d.read(local(4), &key, true, 0)).is_empty());

    // +R(1, "y")
    write(&mut d, 1, vec![insert(vec![1.into(), "y".into()])]);
    let found = rows_of(d.read(local(4), &key, true, 0));
    assert!(same_rows(&found, &vec![vec![1.into(), "x".into(), "y".into()]]));
}

#[test]
fn top_three_per_group() {
    // base -> top 3 by score, descending, for each user -> reader keyed on user
    let row = |s: i32| -> Vec<DataType> { vec!["u".into(), 1.into(), s.into()] };
    // the base of this scenario has no key: its state holds all rows under the empty key, and
    // an identity with a state by user stands between it and the top-k
    let mut d = Domain::new(DomainIndex(0), 0, 8);
    d.add_node(node(1, NodeOperator::Base(Base::new(3, vec![], false).unwrap()), vec![1], 3)).unwrap();
    d.add_node(node(2, NodeOperator::Identity(Trigger::new(NodeIndex::new(1))), vec![2], 3)).unwrap();
    let mut topk = TopK::new(
        NodeIndex::new(2),
        vec![OrderBy { column: 2, descending: true }],
        vec![0],
        3,
    );
    topk.on_commit(NodeIndex::new(3), &remap(2));
    d.add_node(node(3, NodeOperator::TopK(topk), vec![3], 3)).unwrap();
    d.add_node(node(4, NodeOperator::Reader(Reader::new(NodeIndex::new(3), vec![0])), vec![], 3)).unwrap();
    d.prepare_state(local(0), vec![], false).unwrap();
    d.prepare_state(local(1), vec![0], false).unwrap();
    d.prepare_state(local(2), vec![0], false).unwrap();
    d.prepare_state(local(3), vec![0], false).unwrap();

    for s in [10, 20, 30, 25, 5] {
        write(&mut d, 0, vec![insert(row(s))]);
    }
    let scores = |rows: Vec<Vec<DataType>>| -> Vec<i64> {
        let mut scores: Vec<i64> = rows
            .iter()
            .map(|r| match &r[2] {
                DataType::Int(s) => *s,
                _ => panic!("a score"),
            })
            .collect();
        scores.sort();
        scores.reverse();
        scores
    };
    let key: Vec<DataType> = vec!["u".into()];
    assert_eq!(scores(rows_of(d.read(local(3), &key, false, 0))), vec![30, 25, 20]);

    // delete (u, 1, 30): the base has no key, so the deletion comes as a record
    let gone = vec![Record::Negative(row(30))];
    let mut view = d.states.take(local(0)).unwrap();
    view.apply(&gone);
    d.states.insert(local(0), view);
    let (_, error) = d.process(local(1), local(0), gone, 100);
    assert_eq!(error, None);
    assert_eq!(scores(rows_of(d.read(local(3), &key, false, 0))), vec![25, 20, 10]);
}

#[test]
fn sharded_base_to_unsharded_reader() {
    let sharder = Sharder::new(NodeIndex::new(1), 0, 4).unwrap();
    let mut shards: Vec<(Base, State)> =
        (0..4).map(|_| (Base::new(2, vec![0], false).unwrap(), State::new(vec![0], false))).collect();
    let mut reader = Reader::new(NodeIndex::new(2), vec![0]);
    reader.prime(false);

    // 1000 writes with pseudo-random x, many of which come more than once
    let mut x: u64 = 12345;
    let mut written: Vec<(i64, i64)> = Vec::new();
    for i in 0..1000 {
        x = x.wrapping_mul(6364136223846793005).wrapping_add(1442695040888963407);
        let key = ((x >> 20) % 300) as i64;
        written.push((key, i));
        let routed = sharder.on_input(local(0), vec![Record::Positive(vec![DataType::Int(key), DataType::Int(i)])]);
        assert_eq!(routed.iter().filter(|b| !b.is_empty()).count(), 1);
        for (shard, batch) in routed.into_iter().enumerate() {
            if batch.is_empty() {
                continue;
            }
            assert_eq!(shard, (key as usize) % 4);
            let ops: Vec<TableOperation> = batch.iter().map(|r| insert(r.row().iter().map(|v| v.deep_clone()).collect())).collect();
            let (base, state) = &mut shards[shard];
            let (out, rejected) = base.on_input(&ops, state);
            assert!(rejected.is_empty());
            reader.on_input(&out);
        }
    }
    let mut distinct: Vec<i64> = written.iter().map(|(key, _)| *key).collect();
    distinct.sort();
    distinct.dedup();
    assert!(distinct.len() < 1000);
    // every written row is counted once
    assert_eq!(reader.len(), 1000);
    assert_eq!(shards.iter().map(|(_, s)| s.size()).sum::<usize>(), 1000);
    assert_eq!(shards.iter().map(|(_, s)| s.len()).sum::<usize>(), distinct.len());
    for key in distinct {
        let expected: Vec<Vec<DataType>> = written
            .iter()
            .filter(|(k, _)| *k == key)
            .map(|(k, i)| vec![DataType::Int(*k), DataType::Int(*i)])
            .collect();
        let rows = reader.lookup(&vec![DataType::Int(key)]).unwrap();
        assert!(same_rows(&rows, &expected));
    }
}

#[test]
fn concurrent_reads_under_replay() {
    let mut reader = Reader::new(NodeIndex::new(1), vec![0]);
    assert_eq!(reader.lookup(&vec![1.into()]), Err(ReadError::NotReady));
    reader.prime(true);
    let mut engine = ReplayEngine::new(4);
    let key: Vec<DataType> = vec![42.into()];
    let mut requests = 0;
    for caller in 0..100u64 {
        assert!(matches!(reader.read(&key, true, caller), ReadOutcome::Parked));
        match engine.on_miss(Tag(3), vec![42.into()], caller) {
            MissAction::Request(r) => {
                assert_eq!(r.tag, Tag(3));
                requests += 1;
            }
            MissAction::Suppressed => {}
            MissAction::Deferred => panic!("the ceiling is not reached"),
        }
    }
    assert_eq!(requests, 1);
    assert_eq!(engine.under_way(), 1);
    // another key's reader waits too, and is not woken
    assert!(matches!(reader.read(&vec![7.into()], true, 1000), ReadOutcome::Parked));

    assert_eq!(engine.on_arrival(Tag(3), &key, 200).map(|n| n.is_none()), Ok(true));
    let woken = reader.on_replay(&key, vec![vec![42.into(), "row".into()]]);
    assert_eq!(woken, (0..100u64).collect::<Vec<u64>>());
    for _ in woken {
        let rows = reader.lookup(&key).unwrap();
        assert!(same_rows(&rows, &vec![vec![42.into(), "row".into()]]));
    }
    // nobody is woken twice
    assert!(reader.wake(&key).is_empty());
    assert_eq!(reader.cancel(), vec![1000]);
}

#[test]
fn domain_refuses_what_it_cannot_take() {
    let mut d = Domain::new(DomainIndex(0), 0, 8);
    d.add_node(node(1, NodeOperator::Base(Base::new(2, vec![0], false).unwrap()), vec![1], 2)).unwrap();
    let mut waiting = node(2, NodeOperator::Identity(Trigger::new(NodeIndex::new(1))), vec![], 2);
    waiting.ready = false;
    d.add_node(waiting).unwrap();
    assert_eq!(d.node_count(), 2);
    let batch = || vec![Record::Positive(vec![1.into(), "a".into()])];
    assert_eq!(d.dispatch(local(5), local(0), batch()).err(), Some(DomainError::UnknownNode));
    assert_eq!(d.dispatch(local(1), local(0), batch()).err(), Some(DomainError::NotReady));
    assert!(d.mark_ready(local(1)));
    assert!(!d.mark_ready(local(9)));
    assert!(d.dispatch(local(1), local(0), batch()).is_ok());
    // rows of the wrong width
    assert_eq!(
        d.dispatch(local(1), local(0), vec![Record::Positive(vec![1.into()])]).err(),
        Some(DomainError::InvariantViolation)
    );
    // a base takes writes, not batches; and it needs its state
    assert_eq!(d.dispatch(local(0), local(0), batch()).err(), Some(DomainError::InvariantViolation));
    assert_eq!(d.input(local(0), &vec![]).err(), Some(DomainError::InvariantViolation));
    assert_eq!(d.input(local(1), &vec![]).err(), Some(DomainError::InvariantViolation));
    assert_eq!(d.prepare_state(local(0), vec![3], false), Err(DomainError::InvariantViolation));
    assert_eq!(d.prepare_state(local(7), vec![0], false), Err(DomainError::UnknownNode));
    d.prepare_state(local(0), vec![0], false).unwrap();
    assert!(d.input(local(0), &vec![]).is_ok());
    // a replay that nobody asked for
    d.prepare_state(local(1), vec![0], true).unwrap();
    assert_eq!(
        d.install_replay(Tag(1), local(1), &vec![1.into()], vec![], 0).err(),
        Some(DomainError::UnknownReplay)
    );
    assert!(!d.evict(local(1), &vec![1.into()]));
    // the limit on the deliveries
    let (log, error) = d.process(local(1), local(0), batch(), 0);
    assert!(log.is_empty());
    assert_eq!(error, Some(DomainError::InvariantViolation));
}

#[test]
fn eviction_makes_the_next_read_miss_and_ask_again() {
    let mut d = Domain::new(DomainIndex(0), 0, 8);
    d.add_node(node(1, NodeOperator::Reader(Reader::new(NodeIndex::new(9), vec![0])), vec![], 2)).unwrap();
    d.prepare_state(local(0), vec![0], true).unwrap();
    let paths = vec![ReplayPath { tag: Tag(2), source: None, dst: local(0), columns: vec![0] }];
    let key: Vec<DataType> = vec![1.into()];
    let rows = || vec![vec![DataType::Int(1), DataType::from("a")]];
    let miss = || dataflow::processing::Miss { on: local(0), columns: vec![0], key: vec![1.into()] };

    assert_eq!(d.replay.on_misses(&paths, &vec![miss(), miss()], 0).unwrap().len(), 1);
    d.replay_into_reader(Tag(2), local(0), &key, rows(), 1).unwrap();
    let before = rows_of(d.read(local(0), &key, false, 0));

    // evict the key from the reader
    match &mut d.nodes[0].operator {
        NodeOperator::Reader(r) => assert!(r.evict(&key)),
        _ => panic!("a reader"),
    }
    assert!(matches!(d.read(local(0), &key, false, 0), Some(ReadOutcome::Failed(ReadError::Missing))));
    // the miss asks for a fresh replay, which brings the same rows
    assert_eq!(d.replay.on_misses(&paths, &vec![miss()], 2).unwrap().len(), 1);
    d.replay_into_reader(Tag(2), local(0), &key, rows(), 3).unwrap();
    let after = rows_of(d.read(local(0), &key, false, 0));
    assert!(same_rows(&before, &after));
    // a miss without a path is an error
    let stray = dataflow::processing::Miss { on: local(0), columns: vec![1], key: vec![1.into()] };
    assert!(d.replay.on_misses(&paths, &vec![stray], 4).is_err());
}
