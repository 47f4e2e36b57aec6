use dataflow::data::{records_equal, rows_equal, DataType, Record};
use dataflow::ops::base::{Base, TableOperation};
use dataflow::state::{LookupResult, State};

fn plus(row: Vec<DataType>) -> Record {
    Record::Positive(row)
}

fn minus(row: Vec<DataType>) -> Record {
    Record::Negative(row)
}

fn row(id: i32, name: &str) -> Vec<DataType> {
    vec![id.into(), name.into()]
}

fn held(s: &State, id: i32) -> Vec<Vec<DataType>> {
    match s.lookup(&vec![id.into()]) {
        LookupResult::Hit(rows) => rows.iter().map(|r| r.iter().map(|v| v.deep_clone()).collect()).collect(),
        LookupResult::Miss => panic!("a full state does not miss"),
    }
}

#[test]
fn base_emits_what_is_written() {
    let b = Base::new(2, vec![0], false).unwrap();
    let mut own = State::new(vec![0], false);
    let (out, rejected) = b.on_input(
        &vec![
            TableOperation::Insert(row(1, "a")),
            TableOperation::Insert(row(2, "b")),
            TableOperation::Update { key: vec![1.into()], row: row(1, "c") },
            TableOperation::Delete { key: vec![2.into()] },
            TableOperation::Delete { key: vec![9.into()] },
        ],
        &mut own,
    );
    assert!(rejected.is_empty());
    assert!(records_equal(
        &out,
        &vec![
            plus(row(1, "a")),
            plus(row(2, "b")),
            minus(row(1, "a")),
            plus(row(1, "c")),
            minus(row(2, "b")),
        ]
    ));
    assert_eq!(held(&own, 1).len(), 1);
    assert!(rows_equal(&held(&own, 1)[0], &row(1, "c")));
    assert_eq!(held(&own, 2).len(), 0);
    assert!(b.ancestors().is_empty());
    assert_eq!(b.columns(), 2);
    assert_eq!(b.primary_key(), &vec![0]);
    assert!(b.is_sound());
}

#[test]
fn unique_key_rejects_a_second_row() {
    let unique = Base::new(2, vec![0], true).unwrap();
    let mut own = State::new(vec![0], false);
    let (out, rejected) = unique.on_input(
        &vec![TableOperation::Insert(row(1, "a")), TableOperation::Insert(row(1, "b"))],
        &mut own,
    );
    assert!(records_equal(&out, &vec![plus(row(1, "a"))]));
    assert_eq!(rejected, vec![1]);

    let lax = Base::new(2, vec![0], false).unwrap();
    let mut own = State::new(vec![0], false);
    let (out, rejected) = lax.on_input(
        &vec![TableOperation::Insert(row(1, "a")), TableOperation::Insert(row(1, "b"))],
        &mut own,
    );
    assert_eq!(out.len(), 2);
    assert!(rejected.is_empty());
}

#[test]
fn writes_that_do_not_fit_are_rejected() {
    assert!(Base::new(2, vec![2], false).is_none());
    let b = Base::new(2, vec![0], false).unwrap();
    let mut own = State::new(vec![0], false);
    let (out, rejected) = b.on_input(
        &vec![
            // too few and too many columns
            TableOperation::Insert(vec![1.into()]),
            TableOperation::Insert(vec![1.into(), "a".into(), "b".into()]),
            // an update to another key, and a key of the wrong length
            TableOperation::Update { key: vec![1.into()], row: row(2, "x") },
            TableOperation::Delete { key: vec![] },
        ],
        &mut own,
    );
    assert!(out.is_empty());
    assert_eq!(rejected, vec![0, 1, 2, 3]);
    let keyless = Base::new(2, vec![], false).unwrap();
    let mut own = State::new(vec![], false);
    let (out, rejected) = keyless.on_input(
        &vec![TableOperation::Insert(row(1, "a")), TableOperation::Delete { key: vec![] }],
        &mut own,
    );
    assert_eq!(out.len(), 1);
    assert_eq!(rejected, vec![1]);
}

#[test]
fn added_and_dropped_columns_hold_their_defaults() {
    let mut b = Base::new(2, vec![0], false).unwrap();
    assert_eq!(b.add_column(7.into()), 2);
    assert!(b.drop_column(1));
    assert!(!b.drop_column(5));
    // an old write, without the new column, and with a value in the dropped one
    let fixed = b.fix(&row(1, "a")).unwrap();
    assert!(rows_equal(&fixed, &vec![1.into(), DataType::Null, 7.into()]));
    let full = b.fix(&vec![1.into(), "a".into(), 9.into()]).unwrap();
    assert!(rows_equal(&full, &vec![1.into(), DataType::Null, 9.into()]));
    assert!(b.fix(&vec![1.into()]).is_none());
    assert_eq!(b.columns(), 3);
    let mut own = State::new(vec![0], false);
    let (out, _) = b.on_input(&vec![TableOperation::Insert(row(1, "a"))], &mut own);
    assert!(records_equal(&out, &vec![plus(vec![1.into(), DataType::Null, 7.into()])]));
}
