use dataflow::data::{rows_equal, DataType, Record};
use dataflow::state::{LookupResult, State};

fn row(k: i32, v: &str) -> Vec<DataType> {
    vec![k.into(), v.into()]
}

fn key(k: i32) -> Vec<DataType> {
    vec![k.into()]
}

fn rows_under(s: &State, k: i32) -> Option<Vec<Vec<DataType>>> {
    match s.lookup(&key(k)) {
        LookupResult::Hit(rows) => Some(rows.iter().map(|r| r.iter().map(|v| v.deep_clone()).collect()).collect()),
        LookupResult::Miss => None,
    }
}

fn same_rows(a: &Vec<Vec<DataType>>, b: &Vec<Vec<DataType>>) -> bool {
    a.len() == b.len() && a.iter().zip(b.iter()).all(|(x, y)| rows_equal(x, y))
}

#[test]
fn full_state_never_misses() {
    let mut s = State::new(vec![0], false);
    assert!(!s.is_partial());
    assert_eq!(s.key_columns(), &vec![0]);
    assert!(s.is_empty());
    assert!(same_rows(&rows_under(&s, 1).unwrap(), &vec![]));
    assert!(s.insert(row(1, "a")));
    assert!(s.insert(row(2, "b")));
    assert!(s.insert(row(1, "c")));
    assert_eq!(s.len(), 2);
    assert!(!s.is_empty());
    assert!(same_rows(&rows_under(&s, 1).unwrap(), &vec![row(1, "a"), row(1, "c")]));
    assert!(same_rows(&rows_under(&s, 3).unwrap(), &vec![]));
    assert!(s.knows(&key(3)));
}

#[test]
fn partial_state_has_holes() {
    let mut s = State::new(vec![0], true);
    assert!(s.is_partial());
    assert!(rows_under(&s, 1).is_none());
    assert!(s.lookup(&key(1)).is_miss());
    assert!(!s.knows(&key(1)));
    // a row whose key is a hole is dropped
    assert!(!s.insert(row(1, "a")));
    assert_eq!(s.len(), 0);
    s.mark_filled(key(1));
    assert!(same_rows(&rows_under(&s, 1).unwrap(), &vec![]));
    assert!(s.insert(row(1, "a")));
    assert!(same_rows(&rows_under(&s, 1).unwrap(), &vec![row(1, "a")]));
    // filling a filled key changes nothing
    s.mark_filled(key(1));
    assert!(same_rows(&rows_under(&s, 1).unwrap(), &vec![row(1, "a")]));
    assert!(s.evict(&key(1)));
    assert!(rows_under(&s, 1).is_none());
    assert!(!s.evict(&key(1)));
}

#[test]
fn full_state_cannot_evict() {
    let mut s = State::new(vec![0], false);
    s.insert(row(1, "a"));
    assert!(!s.evict(&key(1)));
    assert!(same_rows(&rows_under(&s, 1).unwrap(), &vec![row(1, "a")]));
}

#[test]
fn remove_takes_the_last_occurrence() {
    let mut s = State::new(vec![0], false);
    s.insert(row(1, "a"));
    s.insert(row(1, "b"));
    s.insert(row(1, "a"));
    assert!(s.remove(&row(1, "a")));
    assert!(same_rows(&rows_under(&s, 1).unwrap(), &vec![row(1, "a"), row(1, "b")]));
    assert!(!s.remove(&row(1, "zzz")));
    assert!(!s.remove(&row(7, "a")));
    assert!(s.remove(&row(1, "a")));
    assert!(s.remove(&row(1, "b")));
    // a full state forgets a key that is left without rows
    assert_eq!(s.len(), 0);
}

#[test]
fn insertion_and_deletion_of_a_row_cancel() {
    let mut s = State::new(vec![0], false);
    s.insert(row(1, "a"));
    s.insert(row(1, "b"));
    for _ in 0..3 {
        s.apply(&vec![Record::Positive(row(1, "a")), Record::Negative(row(1, "a"))]);
        assert!(same_rows(&rows_under(&s, 1).unwrap(), &vec![row(1, "a"), row(1, "b")]));
        s.apply(&vec![Record::Positive(row(9, "x")), Record::Negative(row(9, "x"))]);
        assert_eq!(s.len(), 1);
    }
}

#[test]
fn apply_inserts_before_it_deletes() {
    let mut s = State::new(vec![0], false);
    // the deletion comes first in the batch, and still finds the row
    s.apply(&vec![Record::Negative(row(1, "a")), Record::Positive(row(1, "a"))]);
    assert_eq!(s.len(), 0);
    s.apply(&vec![
        Record::Positive(row(1, "a")),
        Record::Negative(row(1, "old")),
        Record::Positive(row(1, "new")),
    ]);
    assert!(same_rows(&rows_under(&s, 1).unwrap(), &vec![row(1, "a"), row(1, "new")]));
}

#[test]
fn put_and_install_replace_the_rows_of_a_key() {
    let mut s = State::new(vec![0], true);
    // a hole stays a hole
    assert!(!s.put(&key(1), vec![row(1, "a")]));
    assert!(rows_under(&s, 1).is_none());
    s.install(&key(1), vec![row(1, "a"), row(1, "b")]);
    assert!(same_rows(&rows_under(&s, 1).unwrap(), &vec![row(1, "a"), row(1, "b")]));
    assert!(s.put(&key(1), vec![]));
    assert!(same_rows(&rows_under(&s, 1).unwrap(), &vec![]));
    assert!(s.check_files_under(&key(1), &vec![row(1, "z")]));
    assert!(!s.check_files_under(&key(1), &vec![row(2, "z")]));
    assert!(!s.check_files_under(&vec![1.into(), 2.into()], &vec![]));
    let mut full = State::new(vec![0], false);
    assert!(full.put(&key(1), vec![row(1, "a")]));
    assert!(full.put(&key(1), vec![]));
    assert_eq!(full.len(), 0);
}

#[test]
fn eviction_then_replay_gives_the_rows_back() {
    let mut s = State::new(vec![0], true);
    s.install(&key(1), vec![row(1, "a"), row(1, "b")]);
    let before = rows_under(&s, 1).unwrap();
    assert!(s.evict(&key(1)));
    assert!(rows_under(&s, 1).is_none());
    s.install(&key(1), before.iter().map(|r| r.iter().map(|v| v.deep_clone()).collect()).collect());
    assert!(same_rows(&rows_under(&s, 1).unwrap(), &before));
}

#[test]
fn replayed_key_holds_what_a_full_state_holds() {
    let history = vec![
        vec![Record::Positive(row(1, "a")), Record::Positive(row(2, "b"))],
        vec![Record::Positive(row(1, "c")), Record::Negative(row(2, "b"))],
        vec![Record::Negative(row(1, "a")), Record::Positive(row(1, "d"))],
    ];
    let mut full = State::new(vec![0], false);
    let mut partial = State::new(vec![0], true);
    partial.mark_filled(key(2));
    for (i, batch) in history.iter().enumerate() {
        full.apply(batch);
        partial.apply(batch);
        if i == 0 {
            // the replay of key 1 arrives after the first batch
            partial.install(&key(1), rows_under(&full, 1).unwrap());
        }
        assert!(same_rows(&rows_under(&partial, 1).unwrap(), &rows_under(&full, 1).unwrap()));
        assert!(same_rows(&rows_under(&partial, 2).unwrap(), &rows_under(&full, 2).unwrap()));
        assert!(rows_under(&partial, 3).is_none());
    }
    assert!(same_rows(&rows_under(&full, 1).unwrap(), &vec![row(1, "c"), row(1, "d")]));
}

#[test]
fn a_state_counts_its_rows_and_its_keys() {
    let mut full = State::new(vec![0], false);
    assert_eq!((full.len(), full.size()), (0, 0));
    full.insert(row(1, "a"));
    full.insert(row(1, "b"));
    full.insert(row(2, "c"));
    assert_eq!((full.len(), full.size()), (2, 3));
    full.remove(&row(1, "a"));
    assert_eq!((full.len(), full.size()), (2, 2));
    full.remove(&row(9, "z"));
    assert_eq!((full.len(), full.size()), (2, 2));
    full.remove(&row(2, "c"));
    assert_eq!((full.len(), full.size()), (1, 1));

    let mut partial = State::new(vec![0], true);
    partial.insert(row(1, "a"));
    assert_eq!((partial.len(), partial.size()), (0, 0));
    partial.mark_filled(key(1));
    assert_eq!((partial.len(), partial.size()), (1, 0));
    partial.insert(row(1, "a"));
    partial.insert(row(1, "a"));
    assert_eq!((partial.len(), partial.size()), (1, 2));
    assert!(partial.evict(&key(1)));
    assert_eq!((partial.len(), partial.size()), (0, 0));
}
