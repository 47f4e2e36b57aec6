//! The union: the records of several parents, each mapped to the columns of the output.

use crate::addressing::{IndexPair, LocalNodeIndex, NodeIndex, Remap};
use crate::data::{columns_within, project, project_row, Delta, Record, Row, SignedRow};
use crate::processing::{ProcessingResult, SuggestedIndex};
use vstd::prelude::*;

verus! {

/// One parent of a union and the columns of its rows that make up the output row.
#[derive(Debug)]
pub struct Input {
    /// The parent.
    pub parent: IndexPair,
    /// For each column of the output, the column of the parent's row that it copies.
    pub columns: Vec<usize>,
}

/// Passes on the records of each parent, with the columns picked that the output has.
#[derive(Debug)]
pub struct Union {
    inputs: Vec<Input>,
}

impl Union {
    /// The parents and their column maps.
    pub closed spec fn sources(self) -> Seq<(IndexPair, Seq<usize>)> {
        Seq::new(self.inputs@.len(), |i: int| (self.inputs@[i].parent, self.inputs@[i].columns@))
    }

    /// The position of the first parent whose local identifier is `from`, or the number of
    /// parents where none has it.
    pub open spec fn position_of(sources: Seq<(IndexPair, Seq<usize>)>, from: LocalNodeIndex) -> int
        decreases sources.len(),
    {
        if sources.len() == 0 {
            0
        } else if sources[0].0.spec_local() == Some(from) {
            0
        } else {
            1 + Self::position_of(sources.skip(1), from)
        }
    }

    /// Whether `from` is a parent of the union.
    pub open spec fn has_parent(self, from: LocalNodeIndex) -> bool {
        Self::position_of(self.sources(), from) < self.sources().len()
    }

    /// The column map of the parent `from`.
    pub open spec fn columns_of(self, from: LocalNodeIndex) -> Seq<usize> {
        self.sources()[Self::position_of(self.sources(), from)].1
    }

    /// What the union makes of a delta of the parent `from`.
    pub open spec fn transform(self, from: LocalNodeIndex, delta: Delta) -> Delta {
        delta.map_values(
            |r: SignedRow|
                SignedRow { positive: r.positive, row: project(r.row, self.columns_of(from)) },
        )
    }

    /// Whether every row of `delta` has the columns that the union takes from `from`.
    pub open spec fn accepts(self, from: LocalNodeIndex, delta: Delta) -> bool {
        forall|i: int|
            0 <= i < delta.len() ==> columns_within(
                self.columns_of(from),
                (#[trigger] delta[i]).row.len(),
            )
    }

    /// A union of the parents `inputs`, each with its column map.
    pub fn new(inputs: Vec<(NodeIndex, Vec<usize>)>) -> (u: Union)
        ensures
            u.sources().len() == inputs@.len(),
            forall|i: int|
                0 <= i < inputs@.len() ==> {
                    &&& (#[trigger] u.sources()[i]).0.spec_global() == inputs@[i].0
                    &&& u.sources()[i].0.spec_local().is_none()
                    &&& u.sources()[i].1 == inputs@[i].1@
                },
    {
        let mut made: Vec<Input> = Vec::new();
        let mut inputs = inputs;
        let ghost all = inputs@;
        let mut i: usize = 0;
        let n: usize = inputs.len();
        while i < n
            invariant
                n == all.len(),
                i <= n,
                inputs@.len() == n - i,
                forall|j: int| 0 <= j < inputs@.len() ==> inputs@[j] == all[j + i],
                made@.len() == i,
                forall|j: int|
                    0 <= j < i ==> {
                        &&& (#[trigger] made@[j]).parent.spec_global() == all[j].0
                        &&& made@[j].parent.spec_local().is_none()
                        &&& made@[j].columns@ == all[j].1@
                    },
            decreases n - i,
        {
            let (parent, columns) = inputs.remove(0);
            made.push(Input { parent: IndexPair::new(parent), columns });
            i += 1;
        }
        Union { inputs: made }
    }

    /// The parents of this operator, in the order in which they were given.
    pub fn ancestors(&self) -> (a: Vec<NodeIndex>)
        ensures
            a@ == self.parents(),
    {
        let mut a: Vec<NodeIndex> = Vec::new();
        let mut i: usize = 0;
        while i < self.inputs.len()
            invariant
                i <= self.inputs@.len(),
                a@.len() == i,
                forall|j: int|
                    0 <= j < i ==> a@[j] == (#[trigger] self.sources()[j]).0.spec_global(),
            decreases self.inputs@.len() - i,
        {
            a.push(self.inputs[i].parent.as_global());
            i += 1;
        }
        assert(a@ =~= self.parents());
        a
    }

    /// Localizes the references to the parents: each becomes what `remap` holds for its
    /// global identifier, and stays as it is where `remap` holds nothing for it.
    pub fn on_commit(&mut self, _us: NodeIndex, remap: &Remap)
        requires
            remap.wf(),
        ensures
            final(self).sources().len() == old(self).sources().len(),
            forall|i: int|
                0 <= i < old(self).sources().len() ==> {
                    &&& (#[trigger] final(self).sources()[i]).1 == old(self).sources()[i].1
                    &&& final(self).sources()[i].0 == if remap@.dom().contains(
                        old(self).sources()[i].0.spec_global(),
                    ) {
                        remap@[old(self).sources()[i].0.spec_global()]
                    } else {
                        old(self).sources()[i].0
                    }
                },
    {
        let mut i: usize = 0;
        while i < self.inputs.len()
            invariant
                remap.wf(),
                i <= self.inputs@.len(),
                self.inputs@.len() == old(self).inputs@.len(),
                forall|j: int|
                    i <= j < self.inputs@.len() ==> self.inputs@[j] == old(self).inputs@[j],
                forall|j: int|
                    0 <= j < i ==> {
                        &&& (#[trigger] self.inputs@[j]).columns@ == old(self).inputs@[j].columns@
                        &&& self.inputs@[j].parent == if remap@.dom().contains(
                            old(self).inputs@[j].parent.spec_global(),
                        ) {
                            remap@[old(self).inputs@[j].parent.spec_global()]
                        } else {
                            old(self).inputs@[j].parent
                        }
                    },
            decreases self.inputs@.len() - i,
        {
            self.inputs[i].parent.remap(remap);
            i += 1;
        }
    }

    /// The position of the parent `from` among the inputs.
    fn find(&self, from: LocalNodeIndex) -> (p: usize)
        ensures
            p == Self::position_of(self.sources(), from),
            p <= self.sources().len(),
    {
        let mut i: usize = 0;
        proof {
            assert(self.sources().skip(0) =~= self.sources());
        }
        while i < self.inputs.len()
            invariant
                i <= self.inputs@.len(),
                Self::position_of(self.sources(), from) == i + Self::position_of(
                    self.sources().skip(i as int),
                    from,
                ),
            decreases self.inputs@.len() - i,
        {
            proof {
                assert(self.sources().skip(i as int)[0] == self.sources()[i as int]);
                assert(self.sources().skip(i as int).skip(1) =~= self.sources().skip(i + 1));
            }
            if self.inputs[i].parent.has_local() {
                if self.inputs[i].parent.as_local() == from {
                    return i;
                }
            }
            i += 1;
        }
        i
    }

    /// Emits, for every record of the parent `from`, the record with the columns that the
    /// output has, and misses nothing.
    pub fn on_input(&self, from: LocalNodeIndex, rs: Vec<Record>) -> (r: ProcessingResult)
        requires
            self.has_parent(from),
            self.accepts(from, rs.deep_view()),
        ensures
            r.delta() == self.transform(from, rs.deep_view()),
            r.missed().len() == 0,
            r.refused().len() == 0,
    {
        let p: usize = self.find(from);
        let columns = &self.inputs[p].columns;
        assert(columns@ == self.columns_of(from));
        let mut out: Vec<Record> = Vec::with_capacity(rs.len());
        let mut i: usize = 0;
        while i < rs.len()
            invariant
                i <= rs@.len(),
                columns@ == self.columns_of(from),
                self.accepts(from, rs.deep_view()),
                out@.len() == i,
                forall|j: int|
                    0 <= j < i ==> (#[trigger] out@[j])@ == self.transform(from, rs.deep_view())[j],
            decreases rs@.len() - i,
        {
            proof {
                assert(rs.deep_view()[i as int] == rs@[i as int]@);
                assert(columns_within(self.columns_of(from), rs.deep_view()[i as int].row.len()));
            }
            let row = rs[i].row();
            assert(row@.len() == row.deep_view().len());
            out.push(Record::signed(rs[i].is_positive(), project_row(row, columns)));
            i += 1;
        }
        assert(out.deep_view() =~= self.transform(from, rs.deep_view()));
        ProcessingResult::emit(out)
    }

    /// The indices that this operator needs: none.
    pub fn suggest_indexes(&self, _us: NodeIndex) -> (s: Vec<SuggestedIndex>)
        ensures
            s@.len() == 0,
    {
        Vec::new()
    }

    /// Where column `col` of the output comes from: from each parent, the column that the
    /// parent's map names, or nowhere if the map is too short.
    pub open spec fn origin(self, col: usize) -> Seq<(NodeIndex, Option<usize>)> {
        Seq::new(
            self.sources().len(),
            |i: int|
                (
                    self.sources()[i].0.spec_global(),
                    if col < self.sources()[i].1.len() {
                        Some(self.sources()[i].1[col as int])
                    } else {
                        Option::<usize>::None
                    },
                ),
        )
    }

    /// The parents, in the order in which they were given.
    pub open spec fn parents(self) -> Seq<NodeIndex> {
        Seq::new(self.sources().len(), |i: int| self.sources()[i].0.spec_global())
    }

    /// Where column `col` of the output comes from: from each parent that has it, the
    /// column that the parent's map names.
    pub fn parent_columns(&self, col: usize) -> (r: Vec<(NodeIndex, Option<usize>)>)
        ensures
            r@ == self.origin(col),
    {
        let mut r: Vec<(NodeIndex, Option<usize>)> = Vec::new();
        let mut i: usize = 0;
        while i < self.inputs.len()
            invariant
                i <= self.inputs@.len(),
                r@.len() == i,
                forall|j: int|
                    0 <= j < i ==> r@[j] == (
                        (#[trigger] self.sources()[j]).0.spec_global(),
                        if col < self.sources()[j].1.len() {
                            Some(self.sources()[j].1[col as int])
                        } else {
                            Option::<usize>::None
                        },
                    ),
            decreases self.inputs@.len() - i,
        {
            let c: Option<usize> = if col < self.inputs[i].columns.len() {
                Some(self.inputs[i].columns[col])
            } else {
                None
            };
            r.push((self.inputs[i].parent.as_global(), c));
            i += 1;
        }
        assert(r@ =~= self.origin(col));
        r
    }

    /// A short description of the operator: the union sign.
    pub fn description(&self) -> (s: String)
        ensures
            s@ == "⋃"@,
    {
        String::from_str("⋃")
    }

    /// Whether `from` is a parent of the union and rows of `width` values have the columns
    /// that the union takes from it.
    pub fn check_width(&self, from: LocalNodeIndex, width: usize) -> (b: bool)
        ensures
            b == (self.has_parent(from) && columns_within(self.columns_of(from), width as nat)),
    {
        let p: usize = self.find(from);
        if p >= self.inputs.len() {
            return false;
        }
        crate::data::check_columns_within(&self.inputs[p].columns, width)
    }
}

} // verus!
