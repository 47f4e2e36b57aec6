//! The projection: a choice of the parent's columns, followed by constants.

use crate::addressing::{IndexPair, LocalNodeIndex, NodeIndex, Remap};
use crate::data::{
    clone_row, columns_within, project, project_row, DataType, Delta, Record, Row, SignedRow,
};
use crate::processing::{ProcessingResult, SuggestedIndex};
use vstd::prelude::*;

verus! {

/// Emits, for every record, the chosen columns of its row followed by the literals.
#[derive(Debug)]
pub struct Project {
    src: IndexPair,
    emit: Vec<usize>,
    literals: Vec<DataType>,
}

impl Project {
    /// The parent.
    pub closed spec fn source(self) -> IndexPair {
        self.src
    }

    /// The columns of the parent that are emitted, in order.
    pub closed spec fn columns(self) -> Seq<usize> {
        self.emit@
    }

    /// The constants that follow them.
    pub closed spec fn constants(self) -> Row {
        self.literals.deep_view()
    }

    /// What the projection makes of one row.
    pub open spec fn transform_row(self, row: Row) -> Row {
        project(row, self.columns()) + self.constants()
    }

    /// What the projection makes of a delta: the transform of each record, with its sign.
    pub open spec fn transform(self, delta: Delta) -> Delta {
        delta.map_values(
            |r: SignedRow| SignedRow { positive: r.positive, row: self.transform_row(r.row) },
        )
    }

    /// Whether every row of `delta` has the columns that are emitted.
    pub open spec fn accepts(self, delta: Delta) -> bool {
        forall|i: int|
            0 <= i < delta.len() ==> columns_within(self.columns(), (#[trigger] delta[i]).row.len())
    }

    /// A projection below `src` that emits the columns `emit` and then the `literals`.
    pub fn new(src: NodeIndex, emit: Vec<usize>, literals: Vec<DataType>) -> (p: Project)
        ensures
            p.source().spec_global() == src,
            p.source().spec_local().is_none(),
            p.columns() == emit@,
            p.constants() == literals.deep_view(),
    {
        Project { src: IndexPair::new(src), emit, literals }
    }

    /// The parents of this operator: the one that it was made with.
    pub fn ancestors(&self) -> (a: Vec<NodeIndex>)
        ensures
            a@ == seq![self.source().spec_global()],
    {
        let mut a: Vec<NodeIndex> = Vec::new();
        a.push(self.src.as_global());
        assert(a@ =~= seq![self.source().spec_global()]);
        a
    }

    /// Localizes the reference to the parent.
    pub fn on_commit(&mut self, _us: NodeIndex, remap: &Remap)
        requires
            remap.wf(),
        ensures
            final(self).source() == if remap@.dom().contains(old(self).source().spec_global()) {
                remap@[old(self).source().spec_global()]
            } else {
                old(self).source()
            },
            final(self).columns() == old(self).columns(),
            final(self).constants() == old(self).constants(),
    {
        self.src.remap(remap);
    }

    fn project_one(&self, row: &Vec<DataType>) -> (out: Vec<DataType>)
        requires
            columns_within(self.columns(), row@.len()),
        ensures
            out.deep_view() == self.transform_row(row.deep_view()),
    {
        let mut out = project_row(row, &self.emit);
        let ghost head = out.deep_view();
        let mut i: usize = 0;
        while i < self.literals.len()
            invariant
                i <= self.literals@.len(),
                out.deep_view() == head + self.literals.deep_view().take(i as int),
            decreases self.literals@.len() - i,
        {
            let ghost before = out.deep_view();
            out.push(self.literals[i].deep_clone());
            proof {
                assert(out.deep_view() =~= before.push(self.literals@[i as int]@));
                assert(self.literals.deep_view().take(i + 1) =~= self.literals.deep_view().take(
                    i as int,
                ).push(self.literals@[i as int]@));
                assert(out.deep_view() =~= head + self.literals.deep_view().take(i + 1));
            }
            i += 1;
        }
        assert(self.literals.deep_view().take(self.literals@.len() as int)
            =~= self.literals.deep_view());
        out
    }

    /// Emits the transform of every record, and misses nothing.
    pub fn on_input(&self, _from: LocalNodeIndex, rs: Vec<Record>) -> (r: ProcessingResult)
        requires
            self.accepts(rs.deep_view()),
        ensures
            r.delta() == self.transform(rs.deep_view()),
            r.missed().len() == 0,
            r.refused().len() == 0,
    {
        let mut out: Vec<Record> = Vec::with_capacity(rs.len());
        let mut i: usize = 0;
        while i < rs.len()
            invariant
                i <= rs@.len(),
                self.accepts(rs.deep_view()),
                out@.len() == i,
                forall|j: int|
                    0 <= j < i ==> (#[trigger] out@[j])@ == self.transform(rs.deep_view())[j],
            decreases rs@.len() - i,
        {
            proof {
                assert(rs.deep_view()[i as int] == rs@[i as int]@);
                assert(columns_within(self.columns(), rs.deep_view()[i as int].row.len()));
            }
            let row = rs[i].row();
            assert(row@.len() == row.deep_view().len());
            let projected = self.project_one(row);
            out.push(Record::signed(rs[i].is_positive(), projected));
            i += 1;
        }
        assert(out.deep_view() =~= self.transform(rs.deep_view()));
        ProcessingResult::emit(out)
    }

    /// The indices that this operator needs: none.
    pub fn suggest_indexes(&self, _us: NodeIndex) -> (s: Vec<SuggestedIndex>)
        ensures
            s@.len() == 0,
    {
        Vec::new()
    }

    /// Where column `col` of the output comes from: a projected column comes from the
    /// parent's column that it copies, a literal from nowhere.
    pub fn resolve(&self, col: usize) -> (r: Option<Vec<(NodeIndex, usize)>>)
        ensures
            r.is_some() == (col < self.columns().len()),
            r.is_some() ==> r.unwrap()@ == seq![
                (self.source().spec_global(), self.columns()[col as int]),
            ],
    {
        if col < self.emit.len() {
            let mut v: Vec<(NodeIndex, usize)> = Vec::new();
            v.push((self.src.as_global(), self.emit[col]));
            assert(v@ =~= seq![(self.source().spec_global(), self.columns()[col as int])]);
            Some(v)
        } else {
            None
        }
    }

    /// Where column `column` of the output comes from, with `None` as the column of a literal.
    pub fn parent_columns(&self, column: usize) -> (r: Vec<(NodeIndex, Option<usize>)>)
        ensures
            r@ == seq![
                (
                    self.source().spec_global(),
                    if column < self.columns().len() {
                        Some(self.columns()[column as int])
                    } else {
                        Option::<usize>::None
                    },
                ),
            ],
    {
        let c: Option<usize> = if column < self.emit.len() {
            Some(self.emit[column])
        } else {
            None
        };
        let mut v: Vec<(NodeIndex, Option<usize>)> = Vec::new();
        v.push((self.src.as_global(), c));
        assert(v@ =~= seq![(self.source().spec_global(), c)]);
        v
    }

    /// A short description of the operator: the projection sign.
    pub fn description(&self) -> (s: String)
        ensures
            s@ == "π"@,
    {
        String::from_str("π")
    }

    /// The number of columns of the output.
    pub fn width(&self) -> (w: usize)
        requires
            self.columns().len() + self.constants().len() <= usize::MAX,
        ensures
            w == self.columns().len() + self.constants().len(),
    {
        assert(self.literals.deep_view().len() == self.literals@.len());
        self.emit.len() + self.literals.len()
    }

    /// Whether rows of `width` values have the columns that are emitted.
    pub fn check_width(&self, width: usize) -> (b: bool)
        ensures
            b == columns_within(self.columns(), width as nat),
    {
        crate::data::check_columns_within(&self.emit, width)
    }
}

} // verus!
