use dataflow::addressing::{IndexPair, LocalNodeIndex, NodeIndex, Remap};
use dataflow::data::{records_equal, DataType, Record};
use dataflow::ops::trigger::Trigger;

fn source() -> NodeIndex {
    NodeIndex::new(0)
}

fn setup() -> Trigger {
    // a base `source` with the columns x, y, z, and the identity below it
    Trigger::new(source())
}

#[test]
fn it_forwards() {
    let g = setup();
    let left: Vec<DataType> = vec![1.into(), "a".into()];
    let out = g.on_input(LocalNodeIndex::make(0), vec![Record::Positive(left.clone())]);
    assert!(records_equal(&out.results, &vec![Record::Positive(left)]));
    assert!(out.misses.is_empty());
}

#[test]
fn it_suggests_indices() {
    let g = setup();
    let me = NodeIndex::from(1usize);
    let idx = g.suggest_indexes(me);
    assert_eq!(idx.len(), 0);
}

#[test]
fn it_resolves() {
    let g = setup();
    assert_eq!(g.resolve(0), Some(vec![(source(), 0)]));
    assert_eq!(g.resolve(1), Some(vec![(source(), 1)]));
    assert_eq!(g.resolve(2), Some(vec![(source(), 2)]));
}

#[test]
fn identity_knows_its_parent() {
    let mut g = setup();
    assert_eq!(g.ancestors(), vec![source()]);
    assert_eq!(g.parent_columns(1), vec![(source(), Some(1))]);
    assert_eq!(g.description(), "≡");
    let mut local = IndexPair::new(source());
    local.set_local(LocalNodeIndex::make(4));
    let mut remap = Remap::new();
    remap.insert(source(), local);
    g.on_commit(NodeIndex::new(1), &remap);
    assert_eq!(g.ancestors(), vec![source()]);
}
