use dataflow::addressing::{IndexPair, LocalNodeIndex, NodeIndex, Remap};
use dataflow::data::{records_equal, DataType, Record};
use dataflow::ops::filter::{Comparator, Condition, Filter};
use dataflow::ops::project::Project;
use dataflow::ops::routing::{Egress, EgressTx, Ingress};
use dataflow::ops::sharder::Sharder;
use dataflow::ops::union::Union;
use dataflow::addressing::{DomainIndex, Tag};

fn local(i: u32) -> LocalNodeIndex {
    LocalNodeIndex::make(i)
}

fn committed(global: usize, l: u32) -> Remap {
    let mut pair = IndexPair::new(NodeIndex::new(global));
    pair.set_local(local(l));
    let mut remap = Remap::new();
    remap.insert(NodeIndex::new(global), pair);
    remap
}

fn plus(row: Vec<DataType>) -> Record {
    Record::Positive(row)
}

fn minus(row: Vec<DataType>) -> Record {
    Record::Negative(row)
}

#[test]
fn project_picks_columns_and_appends_literals() {
    let p = Project::new(NodeIndex::new(1), vec![2, 0], vec!["lit".into(), 7.into()]);
    let out = p.on_input(
        local(0),
        vec![
            plus(vec![1.into(), 2.into(), 3.into()]),
            minus(vec![4.into(), 5.into(), 6.into()]),
        ],
    );
    assert!(records_equal(
        &out.results,
        &vec![
            plus(vec![3.into(), 1.into(), "lit".into(), 7.into()]),
            minus(vec![6.into(), 4.into(), "lit".into(), 7.into()]),
        ]
    ));
    assert!(out.misses.is_empty());
    assert_eq!(p.resolve(0), Some(vec![(NodeIndex::new(1), 2)]));
    assert_eq!(p.resolve(1), Some(vec![(NodeIndex::new(1), 0)]));
    assert_eq!(p.resolve(2), None);
    assert_eq!(p.parent_columns(1), vec![(NodeIndex::new(1), Some(0))]);
    assert_eq!(p.parent_columns(3), vec![(NodeIndex::new(1), None)]);
    assert_eq!(p.width(), 4);
    assert_eq!(p.description(), "π");
    assert!(p.check_width(3));
    assert!(!p.check_width(2));
    assert_eq!(p.ancestors(), vec![NodeIndex::new(1)]);
}

#[test]
fn filter_lets_through_what_meets_every_condition() {
    let f = Filter::new(
        NodeIndex::new(1),
        vec![
            Condition { column: 0, comparator: Comparator::GreaterOrEqual, value: 2.into() },
            Condition { column: 1, comparator: Comparator::NotEqual, value: "no".into() },
        ],
    );
    let input = vec![
        plus(vec![1.into(), "yes".into()]),
        plus(vec![2.into(), "yes".into()]),
        minus(vec![3.into(), "no".into()]),
        minus(vec![3.into(), "ok".into()]),
        // a row without the second column does not pass
        plus(vec![5.into()]),
    ];
    let out = f.on_input(local(0), input);
    assert!(records_equal(
        &out.results,
        &vec![plus(vec![2.into(), "yes".into()]), minus(vec![3.into(), "ok".into()])]
    ));
    assert!(f.admits(&vec![2.into(), "x".into()]));
    assert!(!f.admits(&vec![2.into(), "no".into()]));
    assert_eq!(f.resolve(4), Some(vec![(NodeIndex::new(1), 4)]));
    assert_eq!(f.description(), "σ");
}

#[test]
fn filter_comparators() {
    let cases = [
        (Comparator::Equal, [false, true, false]),
        (Comparator::NotEqual, [true, false, true]),
        (Comparator::Less, [true, false, false]),
        (Comparator::LessOrEqual, [true, true, false]),
        (Comparator::Greater, [false, false, true]),
        (Comparator::GreaterOrEqual, [false, true, true]),
    ];
    for (comparator, expected) in cases {
        let f = Filter::new(
            NodeIndex::new(1),
            vec![Condition { column: 0, comparator, value: 5.into() }],
        );
        for (i, v) in [4, 5, 6].iter().enumerate() {
            assert_eq!(f.admits(&vec![(*v).into()]), expected[i]);
        }
    }
    let empty = Filter::new(NodeIndex::new(1), vec![]);
    assert!(empty.admits(&vec![]));
}

#[test]
fn union_maps_the_columns_of_each_parent() {
    let mut u = Union::new(vec![
        (NodeIndex::new(1), vec![0, 1]),
        (NodeIndex::new(2), vec![1, 0]),
    ]);
    assert_eq!(u.ancestors(), vec![NodeIndex::new(1), NodeIndex::new(2)]);
    let mut remap = committed(1, 10);
    let mut second = IndexPair::new(NodeIndex::new(2));
    second.set_local(local(11));
    remap.insert(NodeIndex::new(2), second);
    u.on_commit(NodeIndex::new(3), &remap);
    let from_first = u.on_input(local(10), vec![plus(vec![1.into(), "a".into()])]);
    assert!(records_equal(&from_first.results, &vec![plus(vec![1.into(), "a".into()])]));
    let from_second = u.on_input(local(11), vec![minus(vec!["b".into(), 2.into()])]);
    assert!(records_equal(&from_second.results, &vec![minus(vec![2.into(), "b".into()])]));
    assert!(u.check_width(local(10), 2));
    assert!(!u.check_width(local(10), 1));
    assert!(!u.check_width(local(12), 2));
    assert_eq!(
        u.parent_columns(0),
        vec![(NodeIndex::new(1), Some(0)), (NodeIndex::new(2), Some(1))]
    );
    assert_eq!(
        u.parent_columns(5),
        vec![(NodeIndex::new(1), None), (NodeIndex::new(2), None)]
    );
    assert_eq!(u.description(), "⋃");
}

#[test]
fn sharder_sends_every_record_to_exactly_one_shard() {
    assert!(Sharder::new(NodeIndex::new(1), 0, 0).is_none());
    let s = Sharder::new(NodeIndex::new(1), 0, 4).unwrap();
    let input: Vec<Record> = (0..20)
        .map(|i| if i % 3 == 0 { minus(vec![i.into(), "x".into()]) } else { plus(vec![i.into(), "x".into()]) })
        .collect();
    let expected: Vec<Record> = input.iter().map(|r| r.deep_clone()).collect();
    let out = s.on_input(local(0), input);
    assert_eq!(out.len(), 4);
    assert_eq!(out.iter().map(|b| b.len()).sum::<usize>(), 20);
    for (shard, batch) in out.iter().enumerate() {
        let wanted: Vec<Record> = expected
            .iter()
            .filter(|r| match &r.row()[0] {
                DataType::Int(n) => (*n as usize) % 4 == shard,
                _ => false,
            })
            .map(|r| r.deep_clone())
            .collect();
        assert!(records_equal(batch, &wanted));
    }
    assert_eq!(s.shard_for(&plus(vec![6.into()])), 2);
    assert!(s.check_width(1));
    assert!(!s.check_width(0));
}

#[test]
fn egress_sends_updates_everywhere_and_replays_along_their_path() {
    let mut e = Egress::new(NodeIndex::new(1));
    let a = EgressTx { node: NodeIndex::new(5), local: local(0), domain: DomainIndex(1), shard: 0 };
    let b = EgressTx { node: NodeIndex::new(6), local: local(1), domain: DomainIndex(2), shard: 0 };
    e.add_tx(a);
    e.add_tx(b);
    e.add_tag(Tag(7), NodeIndex::new(6));
    let rs = vec![plus(vec![1.into()])];
    let all = e.on_input(&rs, None);
    assert_eq!(all.len(), 2);
    assert_eq!(all[0].to, a);
    assert_eq!(all[1].to, b);
    assert!(records_equal(&all[1].records, &rs));
    let replay = e.on_input(&rs, Some(Tag(7)));
    assert_eq!(replay.len(), 1);
    assert_eq!(replay[0].to, b);
    assert!(e.on_input(&rs, Some(Tag(8))).is_empty());
    let i = Ingress::new(NodeIndex::new(1));
    assert!(records_equal(&i.on_input(vec![plus(vec![1.into()])]), &rs));
}
