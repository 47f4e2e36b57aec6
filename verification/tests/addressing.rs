use dataflow::addressing::{DomainIndex, IndexPair, LocalNodeIndex, NodeIndex, Remap};

#[test]
fn domain_index_gives_back_its_number() {
    assert_eq!(DomainIndex(7).index(), 7);
    assert_eq!(DomainIndex::from(3usize).index(), 3);
}

#[test]
fn local_index_is_written_with_an_l() {
    let l = LocalNodeIndex::make(42);
    assert_eq!(l.id(), 42);
    assert_eq!(l.to_text(), "l42");
    assert_eq!(LocalNodeIndex::make(0).to_text(), "l0");
}

#[test]
fn remap_fills_in_the_local_half() {
    let mut pair = IndexPair::new(NodeIndex::new(5));
    assert!(!pair.has_local());
    let mut local = IndexPair::new(NodeIndex::new(5));
    local.set_local(LocalNodeIndex::make(2));
    let mut remap = Remap::new();
    assert_eq!(remap.insert(NodeIndex::new(5), local), None);
    assert_eq!(remap.len(), 1);
    assert!(pair.remap(&remap));
    assert!(pair.has_local());
    assert_eq!(pair.as_local().id(), 2);
    assert_eq!(pair.as_global(), NodeIndex::new(5));
    let mut other = IndexPair::new(NodeIndex::new(6));
    assert!(!other.remap(&remap));
    assert!(!other.has_local());
}

#[test]
fn a_domain_index_is_a_number() {
    let d = dataflow::addressing::DomainIndex::from(7usize);
    assert_eq!(d.index(), 7);
    assert_eq!(usize::from(d), 7);
    let n: usize = d.into();
    assert_eq!(n, 7);
}
