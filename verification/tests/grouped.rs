use dataflow::addressing::{LocalNodeIndex, NodeIndex};
use dataflow::data::{records_equal, rows_equal, DataType, Record};
use dataflow::ops::grouped::{Aggregation, Aggregator};
use dataflow::state::{LookupResult, State};

fn local(i: u32) -> LocalNodeIndex {
    LocalNodeIndex::make(i)
}

fn plus(row: Vec<DataType>) -> Record {
    Record::Positive(row)
}

fn minus(row: Vec<DataType>) -> Record {
    Record::Negative(row)
}

fn vote(article: i32, v: i64) -> Vec<DataType> {
    vec![article.into(), DataType::Int(v)]
}

fn setup(kind: Aggregation, partial: bool) -> (Aggregator, State) {
    let a = Aggregator::new(NodeIndex::new(1), kind, 1, vec![0]);
    let own = State::new(a.own_key(), partial);
    (a, own)
}

fn stored(own: &State, article: i32) -> Option<Vec<Vec<DataType>>> {
    match own.lookup(&vec![article.into()]) {
        LookupResult::Hit(rows) => Some(rows.iter().map(|r| r.iter().map(|v| v.deep_clone()).collect()).collect()),
        LookupResult::Miss => None,
    }
}

#[test]
fn count_counts_the_rows_of_each_group() {
    let (a, mut own) = setup(Aggregation::Count, false);
    let out = a.on_input(local(3), vec![plus(vote(10, 1)), plus(vote(10, 1)), plus(vote(11, 1))], &mut own);
    assert!(records_equal(
        &out.results,
        &vec![
            plus(vec![10.into(), DataType::Int(1)]),
            minus(vec![10.into(), DataType::Int(1)]),
            plus(vec![10.into(), DataType::Int(2)]),
            plus(vec![11.into(), DataType::Int(1)]),
        ]
    ));
    assert!(out.misses.is_empty());
    assert!(out.rejected.is_empty());
    let out = a.on_input(local(3), vec![minus(vote(11, 1))], &mut own);
    // the group is gone: only the old row is taken back
    assert!(records_equal(&out.results, &vec![minus(vec![11.into(), DataType::Int(1)])]));
    assert_eq!(stored(&own, 11).unwrap().len(), 0);
    assert_eq!(a.description(), "|*|");
    assert_eq!(a.resolve(0), Some(vec![(NodeIndex::new(1), 0)]));
    assert_eq!(a.resolve(1), None);
    assert_eq!(a.parent_columns(1), vec![(NodeIndex::new(1), None)]);
    let idx = a.suggest_indexes(NodeIndex::new(2));
    assert_eq!(idx.len(), 1);
    assert_eq!(idx[0].columns, vec![0]);
}

#[test]
fn sum_and_average_follow_insertions_and_deletions() {
    let (a, mut own) = setup(Aggregation::Sum, false);
    let out = a.on_input(local(3), vec![plus(vote(1, 5)), plus(vote(1, -2)), minus(vote(1, 5))], &mut own);
    assert!(records_equal(
        &out.results,
        &vec![
            plus(vec![1.into(), DataType::Int(5)]),
            minus(vec![1.into(), DataType::Int(5)]),
            plus(vec![1.into(), DataType::Int(3)]),
            minus(vec![1.into(), DataType::Int(3)]),
            plus(vec![1.into(), DataType::Int(-2)]),
        ]
    ));
    // the state holds the sum and the count
    assert!(rows_equal(&stored(&own, 1).unwrap()[0], &vec![1.into(), DataType::Int(-2), DataType::Int(1)]));

    let (a, mut own) = setup(Aggregation::Avg, false);
    let out = a.on_input(local(3), vec![plus(vote(1, 5)), plus(vote(1, 8)), plus(vote(1, -20))], &mut own);
    assert!(records_equal(
        &out.results,
        &vec![
            plus(vec![1.into(), DataType::Int(5)]),
            minus(vec![1.into(), DataType::Int(5)]),
            // 13 / 2, rounded down
            plus(vec![1.into(), DataType::Int(6)]),
            minus(vec![1.into(), DataType::Int(6)]),
            // -7 / 3, rounded down
            plus(vec![1.into(), DataType::Int(-3)]),
        ]
    ));
    assert_eq!(a.description(), "avg");
}

#[test]
fn insertion_and_deletion_leave_the_aggregation_as_it_was() {
    for kind in [Aggregation::Count, Aggregation::Sum, Aggregation::Avg] {
        let (a, mut own) = setup(kind, false);
        a.on_input(local(3), vec![plus(vote(1, 5)), plus(vote(1, 7))], &mut own);
        let before = stored(&own, 1).unwrap();
        let out = a.on_input(local(3), vec![plus(vote(1, 9)), minus(vote(1, 9))], &mut own);
        assert!(out.rejected.is_empty());
        assert!(rows_equal(&stored(&own, 1).unwrap()[0], &before[0]));
        // and on a group that did not exist
        a.on_input(local(3), vec![plus(vote(2, 9)), minus(vote(2, 9))], &mut own);
        assert_eq!(stored(&own, 2).unwrap().len(), 0);
        assert_eq!(own.len(), 1);
    }
}

#[test]
fn what_cannot_be_folded_is_rejected() {
    let (a, mut own) = setup(Aggregation::Sum, false);
    // a deletion from a group without rows, a value that is no integer, an overflow
    let out = a.on_input(
        local(3),
        vec![
            minus(vote(1, 5)),
            plus(vec![1.into(), "five".into()]),
            plus(vote(1, i64::MAX)),
            plus(vote(1, 1)),
        ],
        &mut own,
    );
    assert!(records_equal(&out.results, &vec![plus(vec![1.into(), DataType::Int(i64::MAX)])]));
    assert!(records_equal(
        &out.rejected,
        &vec![minus(vote(1, 5)), plus(vec![1.into(), "five".into()]), plus(vote(1, 1))]
    ));
    assert!(rows_equal(
        &stored(&own, 1).unwrap()[0],
        &vec![1.into(), DataType::Int(i64::MAX), DataType::Int(1)]
    ));
}

#[test]
fn aggregation_misses_on_a_hole_of_its_own_state() {
    let (a, mut own) = setup(Aggregation::Count, true);
    let out = a.on_input(local(3), vec![plus(vote(10, 1))], &mut own);
    assert!(out.results.is_empty());
    assert_eq!(out.misses.len(), 1);
    assert_eq!(out.misses[0].on, local(3));
    assert_eq!(out.misses[0].columns, vec![0]);
    assert!(out.misses[0].key[0].equals(&DataType::Int(10)));
    own.mark_filled(vec![10.into()]);
    let out = a.on_input(local(3), vec![plus(vote(10, 1))], &mut own);
    assert!(records_equal(&out.results, &vec![plus(vec![10.into(), DataType::Int(1)])]));
}

#[test]
fn insertion_and_deletion_leave_the_reader_below_as_it_was() {
    for kind in [Aggregation::Count, Aggregation::Sum, Aggregation::Avg] {
        let (a, mut own) = setup(kind, false);
        // what is below the aggregation: a state keyed on the article
        let mut below = State::new(vec![0], false);
        let first = a.on_input(local(3), vec![plus(vote(1, 5)), plus(vote(1, 7))], &mut own);
        below.apply(&first.results);
        assert_eq!(below.size(), 1);
        let before = stored(&below, 1).unwrap();
        // the pair on a group that is there, and on one that is not
        for article in [1, 2] {
            let out = a.on_input(local(3), vec![plus(vote(article, 9)), minus(vote(article, 9))], &mut own);
            assert!(out.rejected.is_empty());
            below.apply(&out.results);
            assert_eq!(stored(&below, 1).unwrap(), before);
            assert!(stored(&below, 2).unwrap().is_empty());
            assert_eq!(below.size(), 1);
            assert_eq!(below.len(), 1);
        }
    }
}
