use dataflow::addressing::{NodeIndex, Tag};
use dataflow::data::{DataType, Record};
use dataflow::getter::{
    Getter, LocalOrNot, Looked, ReadHandle, ReadQuery, ReadReply, RemoteGetter,
    RemoteGetterBuilder, SingleReadHandle, TokenGenerator,
};
use dataflow::reader::{ReadError, ReadOutcome, Reader};
use dataflow::replay::{KeyState, MissAction, ReplayEngine, ReplayError};
use dataflow::state::State;

fn row(k: i32, v: &str) -> Vec<DataType> {
    vec![k.into(), v.into()]
}

fn handle(shards: usize, rows: &[(i32, &str)], ts: i64) -> ReadHandle {
    let mut states: Vec<State> = (0..shards).map(|_| State::new(vec![0], false)).collect();
    for (k, v) in rows {
        states[(*k as usize) % shards].insert(row(*k, v));
    }
    ReadHandle { shards: states.into_iter().map(|state| Some(SingleReadHandle { state, ts })).collect() }
}

#[test]
fn reader_applies_what_arrives() {
    let mut r = Reader::new(NodeIndex::new(1), vec![0]);
    assert!(!r.is_ready());
    assert_eq!(r.len(), 0);
    // a reader that is not ready ignores what arrives
    r.on_input(&vec![Record::Positive(row(1, "a"))]);
    r.prime(false);
    assert!(r.is_ready());
    r.on_input(&vec![Record::Positive(row(1, "a")), Record::Positive(row(2, "b"))]);
    r.on_input(&vec![Record::Negative(row(2, "b"))]);
    assert_eq!(r.len(), 1);
    assert_eq!(r.lookup(&vec![1.into()]), Ok(vec![row(1, "a")]));
    assert_eq!(r.lookup(&vec![2.into()]), Ok(vec![]));
    // priming again changes nothing
    r.prime(true);
    assert_eq!(r.lookup(&vec![5.into()]), Ok(vec![]));
    assert_eq!(r.ancestors(), vec![NodeIndex::new(1)]);
    assert!(r.check_width(1));
    assert!(!r.check_width(0));
}

#[test]
fn reads_of_a_partial_reader_miss_park_and_wake() {
    let mut r = Reader::new(NodeIndex::new(1), vec![0]);
    assert!(matches!(r.read(&vec![1.into()], true, 1), ReadOutcome::Failed(ReadError::NotReady)));
    r.prime(true);
    assert!(matches!(r.read(&vec![1.into()], false, 1), ReadOutcome::Failed(ReadError::Missing)));
    assert!(matches!(r.read(&vec![1.into()], true, 1), ReadOutcome::Parked));
    assert!(matches!(r.read(&vec![2.into()], true, 2), ReadOutcome::Parked));
    assert!(matches!(r.read(&vec![1.into()], true, 3), ReadOutcome::Parked));
    assert!(r.check_replay(&vec![1.into()], &vec![row(1, "a")]));
    assert!(!r.check_replay(&vec![1.into()], &vec![row(2, "a")]));
    assert_eq!(r.on_replay(&vec![1.into()], vec![row(1, "a")]), vec![1, 3]);
    match r.read(&vec![1.into()], true, 1) {
        ReadOutcome::Rows(rows) => assert_eq!(rows, vec![row(1, "a")]),
        other => panic!("rows: {:?}", other),
    }
    assert!(r.evict(&vec![1.into()]));
    assert!(!r.evict(&vec![1.into()]));
    assert_eq!(r.lookup(&vec![1.into()]), Err(ReadError::Missing));
    assert_eq!(r.cancel(), vec![2]);
    assert!(r.cancel().is_empty());
}

#[test]
fn at_most_one_request_for_any_key() {
    let mut e = ReplayEngine::new(2);
    assert_eq!(e.max_concurrent_replays(), 2);
    let key = |k: i32| -> Vec<DataType> { vec![k.into()] };
    assert_eq!(e.state_of(Tag(1), &key(1), false), KeyState::Idle);
    assert!(matches!(e.on_miss(Tag(1), key(1), 0), MissAction::Request(_)));
    assert_eq!(e.state_of(Tag(1), &key(1), false), KeyState::Requested);
    for _ in 0..5 {
        assert!(matches!(e.on_miss(Tag(1), key(1), 0), MissAction::Suppressed));
    }
    // the same key on another path is another replay
    assert!(matches!(e.on_miss(Tag(2), key(1), 1), MissAction::Request(_)));
    // the ceiling is reached: the next request waits, and is asked for once only
    assert!(matches!(e.on_miss(Tag(1), key(2), 2), MissAction::Deferred));
    assert!(matches!(e.on_miss(Tag(1), key(2), 3), MissAction::Suppressed));
    assert!(matches!(e.on_miss(Tag(1), key(3), 3), MissAction::Deferred));
    assert_eq!((e.under_way(), e.waiting()), (2, 2));
    assert!(e.is_pending(Tag(1), &key(2)));
    assert!(!e.is_under_way(Tag(1), &key(2)));

    // a replay that waits cannot arrive
    assert_eq!(e.on_arrival(Tag(1), &key(2), 4).err(), Some(ReplayError::UnknownReplay));
    assert_eq!(e.on_arrival(Tag(9), &key(1), 4).err(), Some(ReplayError::UnknownReplay));
    // an arrival makes room for the request that has waited longest
    let next = e.on_arrival(Tag(1), &key(1), 5).unwrap().unwrap();
    assert_eq!(next.tag, Tag(1));
    assert_eq!(next.key, key(2));
    assert_eq!(e.state_of(Tag(1), &key(1), true), KeyState::Filled);
    assert_eq!(e.state_of(Tag(1), &key(1), false), KeyState::Idle);
    assert_eq!((e.under_way(), e.waiting()), (2, 1));
    // after the arrival the key can be asked for again
    assert!(matches!(e.on_miss(Tag(1), key(1), 6), MissAction::Deferred));

    assert!(!e.overdue(10, 9));
    assert!(e.overdue(11, 9));
    assert!(!ReplayEngine::new(1).overdue(100, 0));
}

#[test]
fn getter_reads_the_shard_of_the_key() {
    let g = Getter::new(handle(2, &[(1, "a"), (2, "b"), (3, "c"), (1, "d")], 5), None);
    // four rows under three keys
    assert_eq!(g.len(), 4);
    assert!(!g.supports_transactions());
    assert_eq!(g.lookup(&1.into(), true), Ok(Looked::Found(vec![row(1, "a"), row(1, "d")])));
    assert_eq!(g.lookup(&2.into(), false), Ok(Looked::Found(vec![row(2, "b")])));
    // a full state knows every key: one without rows is found, with no rows
    assert_eq!(g.lookup(&9.into(), false), Ok(Looked::Found(vec![])));
    assert_eq!(
        g.lookup_map(&1.into(), |rows: &Vec<Vec<DataType>>| rows.len(), true),
        Ok(Looked::Found(2))
    );
    assert_eq!(
        g.lookup_map(&9.into(), |rows: &Vec<Vec<DataType>>| rows.len(), true),
        Ok(Looked::Found(0))
    );

    // a shard that has published nothing
    let mut h = handle(2, &[(2, "b")], 5);
    h.shards[1] = None;
    let g = Getter::new(h, None);
    assert_eq!(g.lookup(&2.into(), false), Ok(Looked::Found(vec![row(2, "b")])));
    assert_eq!(g.lookup(&1.into(), false), Err(()));
    assert_eq!(g.lookup_map(&1.into(), |rows: &Vec<Vec<DataType>>| rows.len(), true), Err(()));
    assert_eq!(g.len(), 1);
}

fn partial_view(filled: &[(i32, &str)]) -> Getter {
    let mut partial = State::new(vec![0], true);
    for (k, v) in filled {
        partial.mark_filled(vec![(*k).into()]);
        partial.insert(row(*k, v));
    }
    Getter::new(ReadHandle { shards: vec![Some(SingleReadHandle { state: partial, ts: 0 })] }, None)
}

#[test]
fn a_read_of_a_hole_is_a_miss_and_never_an_empty_key() {
    let g = partial_view(&[(1, "a")]);
    assert_eq!(g.len(), 1);
    assert_eq!(g.lookup(&1.into(), true), Ok(Looked::Found(vec![row(1, "a")])));
    // a read that waits is parked: it has no answer until the replay has arrived
    let waiting = g.lookup(&2.into(), true).unwrap();
    assert_eq!(waiting, Looked::Parked { replay: vec![2.into()] });
    assert!(waiting.is_miss());
    assert_eq!(waiting.rows(), None);
    // a read that does not wait has no rows, and says which replay is to be asked for
    let at_once = g.lookup(&2.into(), false).unwrap();
    assert_eq!(at_once, Looked::Missing { replay: vec![2.into()] });
    assert!(at_once.is_miss());
    assert_eq!(at_once.rows(), Some(vec![]));
    // the callback is not applied on a miss
    assert_eq!(
        g.lookup_map(&2.into(), |rows: &Vec<Vec<DataType>>| rows.len(), true),
        Ok(Looked::Parked { replay: vec![2.into()] })
    );
    assert_eq!(
        g.lookup_map(&2.into(), |rows: &Vec<Vec<DataType>>| rows.len(), false),
        Ok(Looked::Missing { replay: vec![2.into()] })
    );
    assert!(!g.lookup(&1.into(), false).unwrap().is_miss());
}

#[test]
fn an_evicted_key_reads_as_a_miss_until_it_is_replayed() {
    let mut state = State::new(vec![0], true);
    state.mark_filled(vec![7.into()]);
    state.insert(row(7, "x"));
    state.insert(row(7, "y"));
    let before = vec![row(7, "x"), row(7, "y")];
    let read = |state: State| {
        let g = Getter::new(ReadHandle { shards: vec![Some(SingleReadHandle { state, ts: 0 })] }, None);
        let found = g.lookup(&7.into(), true);
        (found, g.len(), g.handle.shards.into_iter().next().unwrap().unwrap().state)
    };
    let (found, len, mut state) = read(state);
    assert_eq!(found, Ok(Looked::Found(before.clone())));
    assert_eq!(len, 2);
    assert!(state.evict(&vec![7.into()]));
    let (found, len, mut state) = read(state);
    assert_eq!(found, Ok(Looked::Parked { replay: vec![7.into()] }));
    assert_eq!(len, 0);
    // the replay brings the rows back
    state.install(&vec![7.into()], before.clone());
    let (found, len, _) = read(state);
    assert_eq!(found, Ok(Looked::Found(before)));
    assert_eq!(len, 2);
}

#[test]
fn transactional_reads_come_with_a_token() {
    let mut plain = Getter::new(handle(1, &[(1, "a")], 5), None);
    assert_eq!(plain.transactional_lookup(&1.into()).is_err(), true);

    let generator = TokenGenerator { node: NodeIndex::new(4) };
    let mut g = Getter::new(handle(1, &[(1, "a")], 5), Some(generator));
    assert!(g.supports_transactions());
    let (rows, token) = match g.transactional_lookup(&1.into()).unwrap().unwrap() {
        Looked::Found(found) => found,
        other => panic!("the key is there: {:?}", other.is_miss()),
    };
    assert_eq!(rows, vec![row(1, "a")]);
    assert_eq!(token.ts, 5);
    assert_eq!(token.key, DataType::Int(1));
    assert_eq!(g.last_ts, 5);
    // a state that is older than what was seen is not read
    g.handle = handle(1, &[(1, "a")], 4);
    assert!(g.transactional_lookup(&1.into()).unwrap().is_none());
    assert_eq!(g.last_ts, 5);
    // a hole parks the read, and leaves no token
    let mut partial = partial_view(&[(1, "a")]);
    partial.generator = Some(generator);
    match partial.transactional_lookup(&2.into()).unwrap().unwrap() {
        Looked::Parked { replay } => assert_eq!(replay, vec![DataType::Int(2)]),
        other => panic!("the key is a hole: {:?}", other.is_miss()),
    }
    assert_eq!(partial.last_ts, i64::MIN);
}

#[test]
fn remote_lookups_go_to_the_shards_of_their_keys() {
    let builder = RemoteGetterBuilder {
        node: NodeIndex::new(7),
        shards: vec![("a:1".to_string(), true), ("b:2".to_string(), false), ("c:3".to_string(), false)],
    };
    let g: RemoteGetter = builder.build();
    assert_eq!(g.shards.len(), 3);
    assert!(g.shards[0].is_local());
    assert!(!g.shards[1].is_local());
    let keys: Vec<DataType> = vec![4.into(), 3.into(), 1.into(), 6.into()];
    let plan = g.multi_lookup(keys, true);
    let queries = &plan.queries;
    // the shard 2 has no key, and gets no query
    assert_eq!(queries.len(), 2);
    match &queries[0] {
        (0, ReadQuery::Normal { target, keys, block }) => {
            assert_eq!(*target, (NodeIndex::new(7), 0));
            assert_eq!(keys, &vec![DataType::Int(3), DataType::Int(6)]);
            assert!(*block);
        }
        other => panic!("the query to the first shard: {:?}", other),
    }
    match &queries[1] {
        (1, ReadQuery::Normal { target, keys, .. }) => {
            assert_eq!(*target, (NodeIndex::new(7), 1));
            assert_eq!(keys, &vec![DataType::Int(4), DataType::Int(1)]);
        }
        other => panic!("the query to the second shard: {:?}", other),
    }
    // each key has its place: the query that holds it, and its rank there
    assert_eq!(plan.places, vec![(1, 0), (0, 0), (1, 1), (0, 1)]);
    // a transactional lookup asks every shard
    let plan = g.transactional_multi_lookup(vec![3.into(), 5.into()]);
    assert_eq!(plan.queries.len(), 3);
    assert!(matches!(&plan.queries[1], (1, ReadQuery::WithToken { keys, .. }) if keys.is_empty()));
    assert_eq!(plan.places, vec![(0, 0), (2, 0)]);
    assert!(matches!(g.lookup(&DataType::Int(5), false), (2, ReadQuery::Normal { .. })));
    assert!(matches!(g.transactional_lookup(&DataType::Int(5)), (2, ReadQuery::WithToken { .. })));

    let single = RemoteGetterBuilder { node: NodeIndex::new(7), shards: vec![("a:1".to_string(), true)] }.build();
    let plan = single.multi_lookup(vec![], false);
    assert_eq!(plan.queries.len(), 1);
    assert!(matches!(&plan.queries[0], (0, ReadQuery::Normal { keys, block: false, .. }) if keys.is_empty()));
    assert!(plan.places.is_empty());
    let plan = single.multi_lookup(vec![8.into(), 9.into()], false);
    assert_eq!(plan.places, vec![(0, 0), (0, 1)]);
}

#[test]
fn replies_are_put_together_in_the_order_of_the_keys() {
    // two shards; the keys 1 and 0: the first answer is the one for the key 1
    let g = RemoteGetterBuilder {
        node: NodeIndex::new(7),
        shards: vec![("a:1".to_string(), true), ("b:2".to_string(), false)],
    }
    .build();
    let plan = g.multi_lookup(vec![1.into(), 0.into(), 3.into()], true);
    assert_eq!(plan.queries.len(), 2);
    let replies = vec![
        ReadReply::Normal(vec![Ok(vec![row(0, "zero")])]),
        ReadReply::Normal(vec![Ok(vec![row(1, "one")]), Err(())]),
    ];
    let rows = RemoteGetter::collect(&plan.places, &replies).unwrap();
    assert_eq!(rows, vec![Ok(vec![row(1, "one")]), Ok(vec![row(0, "zero")]), Err(())]);
    // a reply that lacks an answer, and one of another kind
    let short = vec![ReadReply::Normal(vec![]), ReadReply::Normal(vec![Ok(vec![]), Ok(vec![])])];
    assert!(RemoteGetter::collect(&plan.places, &short).is_none());
    let other = vec![ReadReply::Normal(vec![Ok(vec![])]), ReadReply::WithToken(vec![])];
    assert!(RemoteGetter::collect(&plan.places, &other).is_none());
    assert_eq!(RemoteGetter::collect(&vec![], &vec![]), Some(vec![]));
    assert!(LocalOrNot::make(1, true).is_local());
    assert!(!LocalOrNot::make(1, false).is_local());
    assert_eq!(LocalOrNot::make(5, true).take(), 5);
}

#[test]
fn a_getter_needs_what_every_shard_has_published() {
    let shard = |rows: &[(i32, &str)]| handle(1, rows, 3).shards.remove(0);
    let g = Getter::from_shards(vec![shard(&[(2, "b")]), shard(&[(1, "a")])], None).unwrap();
    assert_eq!(g.last_ts, i64::MIN);
    assert_eq!(g.len(), 2);
    assert_eq!(g.lookup(&1.into(), false), Ok(Looked::Found(vec![row(1, "a")])));
    assert!(Getter::from_shards(vec![shard(&[(2, "b")]), None], None).is_none());
    assert!(Getter::from_shards(vec![], None).is_none());

    // a reader publishes a snapshot: it does not follow what the reader takes in later
    let mut r = Reader::new(NodeIndex::new(1), vec![0]);
    assert!(r.publish(0).is_none());
    r.prime(false);
    r.on_input(&vec![Record::Positive(row(1, "a"))]);
    let published = r.publish(5).unwrap();
    r.on_input(&vec![Record::Positive(row(1, "b"))]);
    assert_eq!(published.ts, 5);
    assert_eq!(published.state.size(), 1);
    assert_eq!(r.len(), 2);
    assert_eq!(r.key(), &vec![0]);
    let copy = published.state.copy();
    assert_eq!(copy.size(), 1);
    assert_eq!(copy.key_columns(), &vec![0]);
}
