use dataflow::addressing::{IndexPair, LocalNodeIndex, NodeIndex, Remap};
use dataflow::data::{records_equal, rows_equal, DataType, Record};
use dataflow::ops::topk::TopK;
use dataflow::processing::StateMap;
use dataflow::ranking::{compare_in_order, OrderBy};
use dataflow::data::Comparison;
use dataflow::state::{LookupResult, State};

fn local(i: u32) -> LocalNodeIndex {
    LocalNodeIndex::make(i)
}

fn plus(row: Vec<DataType>) -> Record {
    Record::Positive(row)
}

fn minus(row: Vec<DataType>) -> Record {
    Record::Negative(row)
}

fn score(user: &str, n: i32, s: i32) -> Vec<DataType> {
    vec![user.into(), n.into(), s.into()]
}

/// Top 3 by score, descending, for each user; the parent is the local node 0.
fn setup() -> (TopK, State, StateMap) {
    let mut t = TopK::new(
        NodeIndex::new(1),
        vec![OrderBy { column: 2, descending: true }],
        vec![0],
        3,
    );
    let mut remap = Remap::new();
    let mut p = IndexPair::new(NodeIndex::new(1));
    p.set_local(local(0));
    remap.insert(NodeIndex::new(1), p);
    t.on_commit(NodeIndex::new(2), &remap);
    let mut states = StateMap::new();
    states.insert(local(0), State::new(vec![0], false));
    (t, State::new(vec![0], false), states)
}

fn write(states: &mut StateMap, batch: &Vec<Record>) {
    let mut s = states.take(local(0)).unwrap();
    s.apply(batch);
    states.insert(local(0), s);
}

fn kept(own: &State, user: &str) -> Vec<i64> {
    match own.lookup(&vec![user.into()]) {
        LookupResult::Hit(rows) => rows
            .iter()
            .map(|r| match &r[2] {
                DataType::Int(s) => *s,
                _ => panic!("a score"),
            })
            .collect(),
        LookupResult::Miss => panic!("a full state does not miss"),
    }
}

#[test]
fn top_three_of_each_group() {
    let (t, mut own, mut states) = setup();
    let batch: Vec<Record> =
        [10, 20, 30, 25, 5].iter().map(|s| plus(score("u", 1, *s))).collect();
    write(&mut states, &batch);
    let out = t.on_input(local(1), batch, &mut own, &states);
    assert!(records_equal(
        &out.results,
        &vec![plus(score("u", 1, 30)), plus(score("u", 1, 25)), plus(score("u", 1, 20))]
    ));
    assert_eq!(kept(&own, "u"), vec![30, 25, 20]);

    let gone = vec![minus(score("u", 1, 30))];
    write(&mut states, &gone);
    let out = t.on_input(local(1), gone, &mut own, &states);
    assert!(records_equal(&out.results, &vec![minus(score("u", 1, 30)), plus(score("u", 1, 10))]));
    assert_eq!(kept(&own, "u"), vec![25, 20, 10]);

    // a row that does not make it changes nothing
    let low = vec![plus(score("u", 1, 1))];
    write(&mut states, &low);
    let out = t.on_input(local(1), low, &mut own, &states);
    assert!(out.results.is_empty());
    assert_eq!(kept(&own, "u"), vec![25, 20, 10]);
    assert_eq!(kept(&own, "v"), Vec::<i64>::new());
}

#[test]
fn a_group_with_fewer_rows_keeps_them_all() {
    let (t, mut own, mut states) = setup();
    let batch = vec![plus(score("u", 1, 7)), plus(score("u", 2, 9))];
    write(&mut states, &batch);
    t.on_input(local(1), batch, &mut own, &states);
    assert_eq!(kept(&own, "u"), vec![9, 7]);
}

#[test]
fn equal_rows_stay_in_the_order_of_arrival() {
    let (t, _, _) = setup();
    let rows = vec![score("u", 1, 5), score("u", 2, 5), score("u", 3, 9), score("u", 4, 5), score("u", 5, 5)];
    let best = t.best_of(&rows);
    assert_eq!(best.len(), 3);
    assert!(rows_equal(&best[0], &score("u", 3, 9)));
    assert!(rows_equal(&best[1], &score("u", 1, 5)));
    assert!(rows_equal(&best[2], &score("u", 2, 5)));
    assert_eq!(t.best_of(&vec![]).len(), 0);
    let none = TopK::new(NodeIndex::new(1), vec![OrderBy { column: 2, descending: true }], vec![0], 0);
    assert_eq!(none.best_of(&rows).len(), 0);
}

#[test]
fn rows_are_ordered_column_by_column() {
    let order = vec![
        OrderBy { column: 0, descending: false },
        OrderBy { column: 1, descending: true },
    ];
    let a: Vec<DataType> = vec![1.into(), 5.into()];
    let b: Vec<DataType> = vec![1.into(), 7.into()];
    let c: Vec<DataType> = vec![2.into(), 9.into()];
    assert_eq!(compare_in_order(&order, &a, &b), Comparison::Greater);
    assert_eq!(compare_in_order(&order, &b, &a), Comparison::Less);
    assert_eq!(compare_in_order(&order, &a, &c), Comparison::Less);
    assert_eq!(compare_in_order(&order, &a, &a), Comparison::Equal);
    assert_eq!(compare_in_order(&vec![], &a, &c), Comparison::Equal);
}

#[test]
fn top_k_misses_on_holes() {
    let (t, _, mut states) = setup();
    let mut own = State::new(vec![0], true);
    let batch = vec![plus(score("u", 1, 7))];
    write(&mut states, &batch);
    let out = t.on_input(local(1), batch, &mut own, &states);
    assert!(out.results.is_empty());
    assert_eq!(out.misses.len(), 1);
    assert_eq!(out.misses[0].on, local(1));
    own.mark_filled(vec!["u".into()]);
    let out = t.on_input(local(1), vec![plus(score("u", 1, 7))], &mut own, &states);
    assert!(records_equal(&out.results, &vec![plus(score("u", 1, 7))]));
    assert_eq!(t.suggest_indexes(NodeIndex::new(2)).len(), 2);
    assert_eq!(t.description(), "TopK");
}

/// The least, or the greatest, score of each user: the one row that is kept, projected to
/// the user and the score.
fn extreme(greatest: bool) -> (TopK, dataflow::ops::project::Project, State, StateMap) {
    let mut t = TopK::extremum(NodeIndex::new(1), 2, greatest, vec![0]);
    let mut remap = Remap::new();
    let mut p = IndexPair::new(NodeIndex::new(1));
    p.set_local(local(0));
    remap.insert(NodeIndex::new(1), p);
    t.on_commit(NodeIndex::new(2), &remap);
    let mut states = StateMap::new();
    states.insert(local(0), State::new(vec![0], false));
    let project = dataflow::ops::project::Project::new(NodeIndex::new(2), vec![0, 2], vec![]);
    (t, project, State::new(vec![0], false), states)
}

#[test]
fn the_least_and_the_greatest_of_each_group() {
    for (greatest, first, then, last) in [(false, 5, 10, 20), (true, 30, 25, 20)] {
        let (t, project, mut own, mut states) = extreme(greatest);
        let batch: Vec<Record> =
            [10, 20, 30, 25, 5].iter().map(|s| plus(score("u", 1, *s))).collect();
        write(&mut states, &batch);
        let out = t.on_input(local(1), batch, &mut own, &states);
        let out = project.on_input(local(1), out.results);
        assert!(records_equal(&out.results, &vec![plus(vec!["u".into(), first.into()])]));

        // the extreme value leaves: the next one takes its place
        let gone = vec![minus(score("u", 1, first))];
        write(&mut states, &gone);
        let out = t.on_input(local(1), gone, &mut own, &states);
        let out = project.on_input(local(1), out.results);
        assert!(records_equal(
            &out.results,
            &vec![minus(vec!["u".into(), first.into()]), plus(vec!["u".into(), then.into()])]
        ));

        // another value leaves: nothing changes
        let gone = vec![minus(score("u", 1, last))];
        write(&mut states, &gone);
        let out = t.on_input(local(1), gone, &mut own, &states);
        assert!(out.results.is_empty());
        assert_eq!(kept(&own, "u"), vec![then as i64]);
    }
}
