//! The filter: a conjunction of comparisons of columns with constants.

use crate::addressing::{IndexPair, LocalNodeIndex, NodeIndex, Remap};
use crate::data::{compare_values, Comparison, DataType, Delta, Record, Row, SignedRow, Value};
use crate::processing::{ProcessingResult, SuggestedIndex};
use vstd::prelude::*;

verus! {

/// The comparison that a condition makes between a column and its constant.
#[derive(Clone, Copy, Debug, PartialEq, Eq, Structural)]
pub enum Comparator {
    /// The column equals the constant.
    Equal,
    /// The column differs from the constant.
    NotEqual,
    /// The column is smaller.
    Less,
    /// The column is not greater.
    LessOrEqual,
    /// The column is greater.
    Greater,
    /// The column is not smaller.
    GreaterOrEqual,
}

impl Comparator {
    /// Whether the comparison holds of two values that compare as `c`.
    pub open spec fn admits(self, c: Comparison) -> bool {
        match self {
            Comparator::Equal => c == Comparison::Equal,
            Comparator::NotEqual => c != Comparison::Equal,
            Comparator::Less => c == Comparison::Less,
            Comparator::LessOrEqual => c != Comparison::Greater,
            Comparator::Greater => c == Comparison::Greater,
            Comparator::GreaterOrEqual => c != Comparison::Less,
        }
    }

    /// Whether the comparison holds of two values that compare as `c`.
    pub fn holds(&self, c: Comparison) -> (b: bool)
        ensures
            b == self.admits(c),
    {
        match self {
            Comparator::Equal => c == Comparison::Equal,
            Comparator::NotEqual => c != Comparison::Equal,
            Comparator::Less => c == Comparison::Less,
            Comparator::LessOrEqual => c != Comparison::Greater,
            Comparator::Greater => c == Comparison::Greater,
            Comparator::GreaterOrEqual => c != Comparison::Less,
        }
    }
}

/// What a [`Condition`] stands for.
pub struct ConditionView {
    /// The column that is compared.
    pub column: usize,
    /// The comparison.
    pub comparator: Comparator,
    /// The constant that the column is compared with.
    pub value: Value,
}

impl ConditionView {
    /// Whether `row` meets the condition. A row without the column does not.
    pub open spec fn holds(self, row: Row) -> bool {
        self.column < row.len() && self.comparator.admits(
            compare_values(row[self.column as int], self.value),
        )
    }
}

/// One comparison of a column with a constant.
#[derive(Debug)]
pub struct Condition {
    /// The column that is compared.
    pub column: usize,
    /// The comparison.
    pub comparator: Comparator,
    /// The constant that the column is compared with.
    pub value: DataType,
}

impl View for Condition {
    type V = ConditionView;

    open spec fn view(&self) -> ConditionView {
        ConditionView { column: self.column, comparator: self.comparator, value: self.value@ }
    }
}

impl DeepView for Condition {
    type V = ConditionView;

    open spec fn deep_view(&self) -> ConditionView {
        self@
    }
}

/// Whether `row` meets every condition of `conditions`.
pub open spec fn passes(conditions: Seq<ConditionView>, row: Row) -> bool {
    forall|i: int| 0 <= i < conditions.len() ==> (#[trigger] conditions[i]).holds(row)
}

/// Lets through the records whose rows meet every condition.
#[derive(Debug)]
pub struct Filter {
    src: IndexPair,
    conditions: Vec<Condition>,
}

impl Filter {
    /// The parent.
    pub closed spec fn source(self) -> IndexPair {
        self.src
    }

    /// The conditions.
    pub closed spec fn predicate(self) -> Seq<ConditionView> {
        self.conditions.deep_view()
    }

    /// What the filter makes of a delta: the records that pass, in order.
    pub open spec fn transform(self, delta: Delta) -> Delta {
        delta.filter(|r: SignedRow| passes(self.predicate(), r.row))
    }

    /// A filter below `src` with the conjunction of `conditions`.
    pub fn new(src: NodeIndex, conditions: Vec<Condition>) -> (f: Filter)
        ensures
            f.source().spec_global() == src,
            f.source().spec_local().is_none(),
            f.predicate() == conditions.deep_view(),
    {
        Filter { src: IndexPair::new(src), conditions }
    }

    /// The parents of this operator: the one that it was made with.
    pub fn ancestors(&self) -> (a: Vec<NodeIndex>)
        ensures
            a@ == seq![self.source().spec_global()],
    {
        let mut a: Vec<NodeIndex> = Vec::new();
        a.push(self.src.as_global());
        assert(a@ =~= seq![self.source().spec_global()]);
        a
    }

    /// Localizes the reference to the parent.
    pub fn on_commit(&mut self, _us: NodeIndex, remap: &Remap)
        requires
            remap.wf(),
        ensures
            final(self).source() == if remap@.dom().contains(old(self).source().spec_global()) {
                remap@[old(self).source().spec_global()]
            } else {
                old(self).source()
            },
            final(self).predicate() == old(self).predicate(),
    {
        self.src.remap(remap);
    }

    /// Whether `row` meets every condition.
    pub fn admits(&self, row: &Vec<DataType>) -> (b: bool)
        ensures
            b == passes(self.predicate(), row.deep_view()),
    {
        let mut i: usize = 0;
        while i < self.conditions.len()
            invariant
                i <= self.conditions@.len(),
                forall|j: int|
                    0 <= j < i ==> (#[trigger] self.predicate()[j]).holds(row.deep_view()),
            decreases self.conditions@.len() - i,
        {
            let c = &self.conditions[i];
            proof {
                assert(self.predicate()[i as int] == self.conditions@[i as int]@);
                assert(row.deep_view().len() == row@.len());
            }
            if c.column >= row.len() {
                return false;
            }
            assert(row.deep_view()[c.column as int] == row@[c.column as int]@);
            if !c.comparator.holds(row[c.column].compare(&c.value)) {
                return false;
            }
            i += 1;
        }
        true
    }

    /// Emits the records that pass, in order, and misses nothing.
    pub fn on_input(&self, _from: LocalNodeIndex, rs: Vec<Record>) -> (r: ProcessingResult)
        ensures
            r.delta() == self.transform(rs.deep_view()),
            r.missed().len() == 0,
            r.refused().len() == 0,
    {
        let ghost delta = rs.deep_view();
        let ghost pred = |r: SignedRow| passes(self.predicate(), r.row);
        let mut out: Vec<Record> = Vec::new();
        let mut i: usize = 0;
        proof {
            reveal(Seq::filter);
            assert(delta.take(0) =~= Seq::<SignedRow>::empty());
            assert(out.deep_view() =~= delta.take(0).filter(pred));
        }
        while i < rs.len()
            invariant
                i <= rs@.len(),
                delta == rs.deep_view(),
                pred == |r: SignedRow| passes(self.predicate(), r.row),
                out.deep_view() == delta.take(i as int).filter(pred),
            decreases rs@.len() - i,
        {
            proof {
                assert(delta.take(i + 1) =~= delta.take(i as int).push(delta[i as int]));
                delta.take(i as int).lemma_filter_push(delta[i as int], pred);
                assert(delta[i as int] == rs@[i as int]@);
            }
            if self.admits(rs[i].row()) {
                let ghost before = out.deep_view();
                out.push(rs[i].deep_clone());
                assert(out.deep_view() =~= before.push(delta[i as int]));
            }
            i += 1;
        }
        assert(delta.take(rs@.len() as int) =~= delta);
        ProcessingResult::emit(out)
    }

    /// The indices that this operator needs: none.
    pub fn suggest_indexes(&self, _us: NodeIndex) -> (s: Vec<SuggestedIndex>)
        ensures
            s@.len() == 0,
    {
        Vec::new()
    }

    /// Where column `col` of the output comes from: the same column of the parent.
    pub fn resolve(&self, col: usize) -> (r: Option<Vec<(NodeIndex, usize)>>)
        ensures
            r.is_some(),
            r.unwrap()@ == seq![(self.source().spec_global(), col)],
    {
        let mut v: Vec<(NodeIndex, usize)> = Vec::new();
        v.push((self.src.as_global(), col));
        assert(v@ =~= seq![(self.source().spec_global(), col)]);
        Some(v)
    }

    /// Where column `column` of the output comes from: the same column of the parent.
    pub fn parent_columns(&self, column: usize) -> (r: Vec<(NodeIndex, Option<usize>)>)
        ensures
            r@ == seq![(self.source().spec_global(), Some(column))],
    {
        let mut v: Vec<(NodeIndex, Option<usize>)> = Vec::new();
        v.push((self.src.as_global(), Some(column)));
        assert(v@ =~= seq![(self.source().spec_global(), Some(column))]);
        v
    }

    /// A short description of the operator: the selection sign.
    pub fn description(&self) -> (s: String)
        ensures
            s@ == "σ"@,
    {
        String::from_str("σ")
    }
}

} // verus!
