use dataflow::addressing::{LocalNodeIndex, NodeIndex};
use dataflow::data::{DataType, Record};
use dataflow::ops::param_filter::{Operator, ParamFilter};
use dataflow::processing::ColumnSource;

fn base() -> NodeIndex {
    NodeIndex::new(1)
}

fn setup(operator: Operator) -> ParamFilter {
    // a base `a` with the columns x, y; the filter adds the key as the column x_q
    ParamFilter::new(base(), 0, 2, operator)
}

#[test]
fn resolve() {
    let g = setup(Operator::Like);
    assert_eq!(g.resolve(0), Some(vec![(base(), 0)]));
    assert_eq!(g.resolve(1), Some(vec![(base(), 1)]));
    assert_eq!(g.resolve(2), None);
}

#[test]
fn process_when_nothing_matches_returns_nothing() {
    let g = setup(Operator::Like);
    let row: Vec<DataType> = vec!["abc".into(), 2.into()];
    let res = g.on_input(LocalNodeIndex::make(0), vec![Record::Positive(row)]);
    assert!(res.results.is_empty());
    assert!(res.misses.is_empty());
    assert!(res.rejected.is_empty());
}

#[test]
fn param_filter_describes_itself() {
    assert_eq!(setup(Operator::Like).description(false), "σφ");
    assert_eq!(setup(Operator::Like).description(true), "σφ[LIKE 0 → 2]");
    assert_eq!(
        ParamFilter::new(base(), 13, 204, Operator::ILike).description(true),
        "σφ[ILIKE 13 → 204]"
    );
    assert_eq!(Operator::Like.to_text(), "LIKE");
    assert_eq!(Operator::ILike.to_text(), "ILIKE");
}

#[test]
fn param_filter_column_source() {
    let g = setup(Operator::ILike);
    match g.column_source(&vec![0, 1]) {
        ColumnSource::ExactCopy(parent, cols) => {
            assert_eq!(parent, base());
            assert_eq!(cols, vec![0, 1]);
        }
        ColumnSource::RequiresFullReplay(_) => panic!("columns below the key are copies"),
    }
    match g.column_source(&vec![0, 2]) {
        ColumnSource::RequiresFullReplay(parents) => assert_eq!(parents, vec![base()]),
        ColumnSource::ExactCopy(..) => panic!("the key column is computed"),
    }
    assert_eq!(g.ancestors(), vec![base()]);
    assert_eq!(g.suggest_indexes(NodeIndex::new(2)).len(), 0);
    assert!(g.can_query_through());
}
