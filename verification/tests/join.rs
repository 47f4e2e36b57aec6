use dataflow::addressing::{IndexPair, LocalNodeIndex, NodeIndex, Remap};
use dataflow::data::{records_equal, DataType, Record};
use dataflow::ops::join::{Join, JoinSource, JoinType};
use dataflow::processing::StateMap;
use dataflow::state::State;

fn local(i: u32) -> LocalNodeIndex {
    LocalNodeIndex::make(i)
}

fn plus(row: Vec<DataType>) -> Record {
    Record::Positive(row)
}

fn minus(row: Vec<DataType>) -> Record {
    Record::Negative(row)
}

/// A join of L(id, lname), the local node 0, and R(id, rname), the local node 1, on id,
/// which emits (id, lname, rname).
fn setup(kind: JoinType, partial_right: bool) -> (Join, StateMap) {
    let mut j = Join::new(
        NodeIndex::new(1),
        NodeIndex::new(2),
        kind,
        vec![0],
        vec![0],
        vec![
            JoinSource { left: true, column: 0 },
            JoinSource { left: true, column: 1 },
            JoinSource { left: false, column: 1 },
        ],
    );
    let mut remap = Remap::new();
    let mut l = IndexPair::new(NodeIndex::new(1));
    l.set_local(local(0));
    let mut r = IndexPair::new(NodeIndex::new(2));
    r.set_local(local(1));
    remap.insert(NodeIndex::new(1), l);
    remap.insert(NodeIndex::new(2), r);
    j.on_commit(NodeIndex::new(3), &remap);
    let mut states = StateMap::new();
    states.insert(local(0), State::new(vec![0], false));
    states.insert(local(1), State::new(vec![0], partial_right));
    (j, states)
}

fn write(states: &mut StateMap, node: u32, batch: &Vec<Record>) {
    let mut s = states.take(local(node)).unwrap();
    s.apply(batch);
    states.insert(local(node), s);
}

#[test]
fn inner_join_pairs_the_rows_that_agree() {
    let (j, mut states) = setup(JoinType::Inner, false);
    let r = vec![plus(vec![1.into(), "y".into()]), plus(vec![1.into(), "z".into()]), plus(vec![2.into(), "w".into()])];
    write(&mut states, 1, &r);
    let out = j.on_input(local(1), r, &states);
    // nothing on the left yet
    assert!(out.results.is_empty());
    let l = vec![plus(vec![1.into(), "x".into()]), minus(vec![3.into(), "n".into()])];
    write(&mut states, 0, &l);
    let out = j.on_input(local(0), l, &states);
    assert!(records_equal(
        &out.results,
        &vec![
            plus(vec![1.into(), "x".into(), "y".into()]),
            plus(vec![1.into(), "x".into(), "z".into()]),
        ]
    ));
    assert!(out.misses.is_empty());
    let gone = vec![minus(vec![1.into(), "y".into()])];
    write(&mut states, 1, &gone);
    let out = j.on_input(local(1), gone, &states);
    assert!(records_equal(&out.results, &vec![minus(vec![1.into(), "x".into(), "y".into()])]));
    assert_eq!(j.resolve(2), Some(vec![(NodeIndex::new(2), 1)]));
    assert_eq!(j.resolve(3), None);
    assert_eq!(j.ancestors(), vec![NodeIndex::new(1), NodeIndex::new(2)]);
    assert_eq!(j.suggest_indexes(NodeIndex::new(3)).len(), 2);
    assert_eq!(j.description(), "⋈");
}

#[test]
fn join_misses_on_a_hole_of_the_other_side() {
    let (j, mut states) = setup(JoinType::Inner, true);
    let l = vec![plus(vec![1.into(), "x".into()])];
    write(&mut states, 0, &l);
    let out = j.on_input(local(0), l, &states);
    assert!(out.results.is_empty());
    assert_eq!(out.misses.len(), 1);
    assert_eq!(out.misses[0].on, local(1));
    assert_eq!(out.misses[0].columns, vec![0]);
    assert!(out.misses[0].key[0].equals(&DataType::Int(1)));
}

#[test]
fn left_join_emits_nulls_without_a_match() {
    let (j, mut states) = setup(JoinType::Left, false);
    assert_eq!(j.description(), "⋉");
    let l = vec![plus(vec![1.into(), "x".into()])];
    write(&mut states, 0, &l);
    let out = j.on_input(local(0), l, &states);
    assert!(records_equal(&out.results, &vec![plus(vec![1.into(), "x".into(), DataType::Null])]));

    // the first match on the right takes the row with nulls back
    let r = vec![plus(vec![1.into(), "y".into()]), plus(vec![1.into(), "z".into()])];
    write(&mut states, 1, &r);
    let out = j.on_input(local(1), r, &states);
    assert!(records_equal(
        &out.results,
        &vec![
            minus(vec![1.into(), "x".into(), DataType::Null]),
            plus(vec![1.into(), "x".into(), "y".into()]),
            plus(vec![1.into(), "x".into(), "z".into()]),
        ]
    ));

    // the last match that leaves brings the row with nulls back
    let gone = vec![minus(vec![1.into(), "y".into()]), minus(vec![1.into(), "z".into()])];
    write(&mut states, 1, &gone);
    let out = j.on_input(local(1), gone, &states);
    assert!(records_equal(
        &out.results,
        &vec![
            minus(vec![1.into(), "x".into(), "y".into()]),
            minus(vec![1.into(), "x".into(), "z".into()]),
            plus(vec![1.into(), "x".into(), DataType::Null]),
        ]
    ));
}

fn sorted(mut rows: Vec<String>) -> Vec<String> {
    rows.sort();
    rows
}

fn texts(rs: &Vec<Record>) -> Vec<String> {
    rs.iter().map(|r| format!("{:?}", r)).collect()
}

#[test]
fn inner_join_emits_the_same_in_either_order_of_the_inputs() {
    let l = vec![plus(vec![1.into(), "x".into()])];
    let r = vec![plus(vec![1.into(), "y".into()])];
    let seed_l = vec![plus(vec![1.into(), "l0".into()]), plus(vec![2.into(), "l1".into()])];
    let seed_r = vec![plus(vec![1.into(), "r0".into()])];

    let (j, mut states) = setup(JoinType::Inner, false);
    write(&mut states, 0, &seed_l);
    write(&mut states, 1, &seed_r);
    write(&mut states, 0, &l);
    let mut left_first = texts(&j.on_input(local(0), l.iter().map(|x| x.deep_clone()).collect(), &states).results);
    write(&mut states, 1, &r);
    left_first.extend(texts(&j.on_input(local(1), r.iter().map(|x| x.deep_clone()).collect(), &states).results));

    let (j, mut states) = setup(JoinType::Inner, false);
    write(&mut states, 0, &seed_l);
    write(&mut states, 1, &seed_r);
    write(&mut states, 1, &r);
    let mut right_first = texts(&j.on_input(local(1), r, &states).results);
    write(&mut states, 0, &l);
    right_first.extend(texts(&j.on_input(local(0), l, &states).results));

    assert_eq!(left_first.len(), 3);
    assert_eq!(sorted(left_first), sorted(right_first));
}
