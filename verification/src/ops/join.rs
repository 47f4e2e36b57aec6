//! The equi-join of two parents, inner or left.

use crate::addressing::{IndexPair, LocalNodeIndex, NodeIndex, Remap};
use crate::data::{
    columns_within, project, project_row, rows_equal, DataType, Delta, Record, Row, SignedRow,
    Value,
};
use crate::processing::{Miss, MissView, ProcessingResult, StateMap, SuggestedIndex};
use crate::state::{LookupResult, Materialized, State};
use vstd::prelude::*;

verus! {

/// Which rows of the left parent a join lets through.
#[derive(Clone, Copy, Debug, PartialEq, Eq, Structural)]
pub enum JoinType {
    /// Only those with a matching row on the right.
    Inner,
    /// All of them: one without a match is followed by nulls.
    Left,
}

/// A column of the output of a join: from which side, and which column there.
#[derive(Clone, Copy, Debug, PartialEq, Eq, Structural)]
pub struct JoinSource {
    /// Whether the column comes from the left parent.
    pub left: bool,
    /// The column of that parent.
    pub column: usize,
}

/// What one record does at a join, or a batch of them: the records emitted and the keys
/// whose lookup in the other parent's state missed.
pub struct Joined {
    /// The records emitted, in order.
    pub out: Delta,
    /// The misses, in order.
    pub misses: Seq<MissView>,
}

/// Joins the rows of two parents that agree in the join columns. When a record arrives
/// from one parent the join looks up its key in the state of the other, which must be keyed
/// on the other's join columns and must already hold the batch if the batch came from it.
#[derive(Debug)]
pub struct Join {
    left: IndexPair,
    right: IndexPair,
    on_left: Vec<usize>,
    on_right: Vec<usize>,
    emit: Vec<JoinSource>,
    kind: JoinType,
}

impl Join {
    /// The left parent.
    pub closed spec fn left_parent(self) -> IndexPair {
        self.left
    }

    /// The right parent.
    pub closed spec fn right_parent(self) -> IndexPair {
        self.right
    }

    /// The join columns of the left parent.
    pub closed spec fn left_key(self) -> Seq<usize> {
        self.on_left@
    }

    /// The join columns of the right parent.
    pub closed spec fn right_key(self) -> Seq<usize> {
        self.on_right@
    }

    /// The columns of the output.
    pub closed spec fn emits(self) -> Seq<JoinSource> {
        self.emit@
    }

    /// Whether the join is inner or left.
    pub closed spec fn join_type(self) -> JoinType {
        self.kind
    }

    /// The output row for a left row `l` and a right row `r`.
    pub open spec fn combine(self, l: Row, r: Row) -> Row {
        Seq::new(
            self.emits().len(),
            |i: int|
                if self.emits()[i].left {
                    l[self.emits()[i].column as int]
                } else {
                    r[self.emits()[i].column as int]
                },
        )
    }

    /// The output row for a left row `l` without a match: nulls stand for the right row.
    pub open spec fn combine_null(self, l: Row) -> Row {
        Seq::new(
            self.emits().len(),
            |i: int|
                if self.emits()[i].left {
                    l[self.emits()[i].column as int]
                } else {
                    Value::Null
                },
        )
    }

    /// Whether a row of `width` values of the given side has the join columns and the
    /// emitted columns of that side.
    pub open spec fn fits_width(self, left: bool, width: nat) -> bool {
        &&& columns_within(
            if left {
                self.left_key()
            } else {
                self.right_key()
            },
            width,
        )
        &&& forall|i: int|
            0 <= i < self.emits().len() && (#[trigger] self.emits()[i]).left == left
                ==> self.emits()[i].column < width
    }

    /// Whether a row of the given side has the join columns and the emitted columns of
    /// that side.
    pub open spec fn fits(self, left: bool, row: Row) -> bool {
        self.fits_width(left, row.len())
    }

    /// Whether every row of a state of the given side fits.
    pub open spec fn state_fits(self, left: bool, m: Materialized) -> bool {
        forall|k: Row, i: int|
            m.rows.dom().contains(k) && 0 <= i < m.rows[k].len() ==> self.fits(
                left,
                #[trigger] m.rows[k][i],
            )
    }

    /// Whether every row of `delta`, which comes from the given side, fits.
    pub open spec fn accepts(self, left: bool, delta: Delta) -> bool {
        forall|i: int| 0 <= i < delta.len() ==> self.fits(left, (#[trigger] delta[i]).row)
    }

    /// The join key of a row of the given side.
    pub open spec fn key_of(self, left: bool, row: Row) -> Row {
        project(
            row,
            if left {
                self.left_key()
            } else {
                self.right_key()
            },
        )
    }

    /// The records that pair `rec`, which comes from the given side, with each of the rows
    /// `others` of the other side, under the sign `positive`.
    pub open spec fn pairs(self, left: bool, positive: bool, row: Row, others: Seq<Row>) -> Delta {
        Seq::new(
            others.len(),
            |j: int|
                SignedRow {
                    positive,
                    row: if left {
                        self.combine(row, others[j])
                    } else {
                        self.combine(others[j], row)
                    },
                },
        )
    }

    /// The records that say, for each of the left rows `lefts`, that the row has no match,
    /// under the sign `positive`.
    pub open spec fn unmatched(self, positive: bool, lefts: Seq<Row>) -> Delta {
        Seq::new(
            lefts.len(),
            |j: int| SignedRow { positive, row: self.combine_null(lefts[j]) },
        )
    }

    /// By how much the records of `delta`, which come from the right, change the number of
    /// right rows with the join key `k`.
    pub open spec fn net(self, delta: Delta, k: Row) -> int
        decreases delta.len(),
    {
        if delta.len() == 0 {
            0
        } else {
            self.net(delta.drop_last(), k) + if self.key_of(false, delta.last().row) != k {
                0int
            } else if delta.last().positive {
                1int
            } else {
                -1int
            }
        }
    }

    /// What the record at position `i` of `delta` does, where `delta` comes from the given
    /// side and `other` is the state of the other parent, on the node `beyond`. For a left
    /// join, `own` is the state of the right parent, on the node `right`, after the whole
    /// of `delta`, when `delta` comes from the right.
    pub open spec fn step(
        self,
        left: bool,
        beyond: LocalNodeIndex,
        right: LocalNodeIndex,
        other: Materialized,
        own: Materialized,
        delta: Delta,
        i: int,
    ) -> Joined {
        let rec = delta[i];
        let k = self.key_of(left, rec.row);
        if other.lookup(k).is_none() {
            Joined {
                out: Seq::empty(),
                misses: seq![MissView { on: beyond, columns: other.key, key: k }],
            }
        } else {
            let others = other.lookup(k).unwrap();
            let matched = self.pairs(left, rec.positive, rec.row, others);
            if self.join_type() == JoinType::Inner {
                Joined { out: matched, misses: Seq::empty() }
            } else if left {
                if others.len() == 0 {
                    Joined {
                        out: seq![SignedRow { positive: rec.positive, row: self.combine_null(rec.row) }],
                        misses: Seq::empty(),
                    }
                } else {
                    Joined { out: matched, misses: Seq::empty() }
                }
            } else if own.lookup(k).is_none() {
                Joined {
                    out: Seq::empty(),
                    misses: seq![MissView { on: right, columns: own.key, key: k }],
                }
            } else {
                // the number of right rows with this key before the record
                let before = own.lookup(k).unwrap().len() - self.net(delta, k) + self.net(
                    delta.take(i),
                    k,
                );
                if rec.positive && before == 0 {
                    Joined { out: self.unmatched(false, others) + matched, misses: Seq::empty() }
                } else if !rec.positive && before == 1 {
                    Joined { out: matched + self.unmatched(true, others), misses: Seq::empty() }
                } else {
                    Joined { out: matched, misses: Seq::empty() }
                }
            }
        }
    }

    /// What the first `n` records of `delta` do, one after the other.
    pub open spec fn run(
        self,
        left: bool,
        beyond: LocalNodeIndex,
        right: LocalNodeIndex,
        other: Materialized,
        own: Materialized,
        delta: Delta,
        n: int,
    ) -> Joined
        decreases n,
    {
        if n <= 0 {
            Joined { out: Seq::empty(), misses: Seq::empty() }
        } else {
            let before = self.run(left, beyond, right, other, own, delta, n - 1);
            let step = self.step(left, beyond, right, other, own, delta, n - 1);
            Joined { out: before.out + step.out, misses: before.misses + step.misses }
        }
    }

    /// A join of `left` and `right` on the pairs of columns `on_left` and `on_right`, which
    /// emits the columns `emit`.
    pub fn new(
        left: NodeIndex,
        right: NodeIndex,
        kind: JoinType,
        on_left: Vec<usize>,
        on_right: Vec<usize>,
        emit: Vec<JoinSource>,
    ) -> (j: Join)
        ensures
            j.left_parent().spec_global() == left,
            j.left_parent().spec_local().is_none(),
            j.right_parent().spec_global() == right,
            j.right_parent().spec_local().is_none(),
            j.join_type() == kind,
            j.left_key() == on_left@,
            j.right_key() == on_right@,
            j.emits() == emit@,
    {
        Join {
            left: IndexPair::new(left),
            right: IndexPair::new(right),
            on_left,
            on_right,
            emit,
            kind,
        }
    }

    /// The parents of this operator: the left one, then the right one.
    pub fn ancestors(&self) -> (a: Vec<NodeIndex>)
        ensures
            a@ == seq![self.left_parent().spec_global(), self.right_parent().spec_global()],
    {
        let mut a: Vec<NodeIndex> = Vec::new();
        a.push(self.left.as_global());
        a.push(self.right.as_global());
        assert(a@ =~= seq![self.left_parent().spec_global(), self.right_parent().spec_global()]);
        a
    }

    /// Localizes the references to the parents.
    pub fn on_commit(&mut self, _us: NodeIndex, remap: &Remap)
        requires
            remap.wf(),
        ensures
            final(self).left_parent() == if remap@.dom().contains(
                old(self).left_parent().spec_global(),
            ) {
                remap@[old(self).left_parent().spec_global()]
            } else {
                old(self).left_parent()
            },
            final(self).right_parent() == if remap@.dom().contains(
                old(self).right_parent().spec_global(),
            ) {
                remap@[old(self).right_parent().spec_global()]
            } else {
                old(self).right_parent()
            },
            final(self).join_type() == old(self).join_type(),
            final(self).left_key() == old(self).left_key(),
            final(self).right_key() == old(self).right_key(),
            final(self).emits() == old(self).emits(),
    {
        self.left.remap(remap);
        self.right.remap(remap);
    }

    /// The indices that this operator needs: each parent's state keyed on its join columns.
    pub fn suggest_indexes(&self, _us: NodeIndex) -> (s: Vec<SuggestedIndex>)
        ensures
            s@.len() == 2,
            s@[0].node == self.left_parent().spec_global(),
            s@[0].columns@ == self.left_key(),
            !s@[0].unique,
            s@[1].node == self.right_parent().spec_global(),
            s@[1].columns@ == self.right_key(),
            !s@[1].unique,
    {
        let mut s: Vec<SuggestedIndex> = Vec::new();
        let l = self.on_left.clone();
        let r = self.on_right.clone();
        assert(l@ =~= self.on_left@);
        assert(r@ =~= self.on_right@);
        s.push(SuggestedIndex { node: self.left.as_global(), columns: l, unique: false });
        s.push(SuggestedIndex { node: self.right.as_global(), columns: r, unique: false });
        s
    }

    /// Where column `col` of the output comes from: the column of the parent that the
    /// output names; `None` for a column that the output does not have.
    pub fn resolve(&self, col: usize) -> (r: Option<Vec<(NodeIndex, usize)>>)
        ensures
            r.is_some() == (col < self.emits().len()),
            r.is_some() ==> r.unwrap()@ == seq![
                (
                    if self.emits()[col as int].left {
                        self.left_parent().spec_global()
                    } else {
                        self.right_parent().spec_global()
                    },
                    self.emits()[col as int].column,
                ),
            ],
    {
        if col < self.emit.len() {
            let parent = if self.emit[col].left {
                self.left.as_global()
            } else {
                self.right.as_global()
            };
            let mut v: Vec<(NodeIndex, usize)> = Vec::new();
            v.push((parent, self.emit[col].column));
            assert(v@ =~= seq![(parent, self.emits()[col as int].column)]);
            Some(v)
        } else {
            None
        }
    }

    /// A short description of the operator: the join sign.
    pub fn description(&self) -> (s: String)
        ensures
            s@ == match self.join_type() {
                JoinType::Inner => "⋈"@,
                JoinType::Left => "⋉"@,
            },
    {
        match self.kind {
            JoinType::Inner => String::from_str("⋈"),
            JoinType::Left => String::from_str("⋉"),
        }
    }

    /// The output row for a left row and a right row.
    fn combined(&self, l: &Vec<DataType>, r: &Vec<DataType>) -> (row: Vec<DataType>)
        requires
            self.fits(true, l.deep_view()),
            self.fits(false, r.deep_view()),
        ensures
            row.deep_view() == self.combine(l.deep_view(), r.deep_view()),
    {
        let mut row: Vec<DataType> = Vec::with_capacity(self.emit.len());
        let mut i: usize = 0;
        assert(l.deep_view().len() == l@.len());
        assert(r.deep_view().len() == r@.len());
        while i < self.emit.len()
            invariant
                i <= self.emit@.len(),
                self.fits(true, l.deep_view()),
                self.fits(false, r.deep_view()),
                l.deep_view().len() == l@.len(),
                r.deep_view().len() == r@.len(),
                row@.len() == i,
                forall|j: int|
                    0 <= j < i ==> (#[trigger] row@[j])@ == self.combine(
                        l.deep_view(),
                        r.deep_view(),
                    )[j],
            decreases self.emit@.len() - i,
        {
            let source = self.emit[i];
            assert(self.emits()[i as int] == source);
            if source.left {
                assert(l.deep_view()[source.column as int] == l@[source.column as int]@);
                row.push(l[source.column].deep_clone());
            } else {
                assert(r.deep_view()[source.column as int] == r@[source.column as int]@);
                row.push(r[source.column].deep_clone());
            }
            i += 1;
        }
        assert(row.deep_view() =~= self.combine(l.deep_view(), r.deep_view()));
        row
    }

    /// The output row for a left row without a match.
    fn combined_null(&self, l: &Vec<DataType>) -> (row: Vec<DataType>)
        requires
            self.fits(true, l.deep_view()),
        ensures
            row.deep_view() == self.combine_null(l.deep_view()),
    {
        let mut row: Vec<DataType> = Vec::with_capacity(self.emit.len());
        let mut i: usize = 0;
        assert(l.deep_view().len() == l@.len());
        while i < self.emit.len()
            invariant
                i <= self.emit@.len(),
                self.fits(true, l.deep_view()),
                l.deep_view().len() == l@.len(),
                row@.len() == i,
                forall|j: int|
                    0 <= j < i ==> (#[trigger] row@[j])@ == self.combine_null(l.deep_view())[j],
            decreases self.emit@.len() - i,
        {
            let source = self.emit[i];
            assert(self.emits()[i as int] == source);
            if source.left {
                assert(l.deep_view()[source.column as int] == l@[source.column as int]@);
                row.push(l[source.column].deep_clone());
            } else {
                row.push(DataType::Null);
            }
            i += 1;
        }
        assert(row.deep_view() =~= self.combine_null(l.deep_view()));
        row
    }

    /// Appends to `out` the records that pair `row` with each of `others`.
    fn push_pairs(
        &self,
        out: &mut Vec<Record>,
        left: bool,
        positive: bool,
        row: &Vec<DataType>,
        others: &Vec<Vec<DataType>>,
    )
        requires
            self.fits(left, row.deep_view()),
            forall|j: int|
                0 <= j < others@.len() ==> self.fits(!left, (#[trigger] others@[j]).deep_view()),
        ensures
            final(out).deep_view() == old(out).deep_view() + self.pairs(
                left,
                positive,
                row.deep_view(),
                others.deep_view(),
            ),
    {
        let ghost start = out.deep_view();
        let ghost all = self.pairs(left, positive, row.deep_view(), others.deep_view());
        let mut j: usize = 0;
        assert(out.deep_view() =~= start + all.take(0));
        assert(others.deep_view().len() == others@.len());
        while j < others.len()
            invariant
                j <= others@.len(),
                others.deep_view().len() == others@.len(),
                self.fits(left, row.deep_view()),
                forall|h: int|
                    0 <= h < others@.len() ==> self.fits(!left, (#[trigger] others@[h]).deep_view()),
                all == self.pairs(left, positive, row.deep_view(), others.deep_view()),
                out.deep_view() == start + all.take(j as int),
            decreases others@.len() - j,
        {
            let ghost before = out.deep_view();
            assert(others.deep_view()[j as int] == others@[j as int].deep_view());
            assert(self.fits(!left, others@[j as int].deep_view()));
            let combined = if left {
                self.combined(row, &others[j])
            } else {
                self.combined(&others[j], row)
            };
            out.push(Record::signed(positive, combined));
            proof {
                assert(out.deep_view() =~= before.push(all[j as int]));
                assert(all.take(j + 1) =~= all.take(j as int).push(all[j as int]));
                assert(out.deep_view() =~= start + all.take(j + 1));
            }
            j += 1;
        }
        assert(all.take(others@.len() as int) =~= all);
    }

    /// Appends to `out` the records that say that each of `lefts` has no match.
    fn push_unmatched(&self, out: &mut Vec<Record>, positive: bool, lefts: &Vec<Vec<DataType>>)
        requires
            forall|j: int|
                0 <= j < lefts@.len() ==> self.fits(true, (#[trigger] lefts@[j]).deep_view()),
        ensures
            final(out).deep_view() == old(out).deep_view() + self.unmatched(
                positive,
                lefts.deep_view(),
            ),
    {
        let ghost start = out.deep_view();
        let ghost all = self.unmatched(positive, lefts.deep_view());
        let mut j: usize = 0;
        assert(out.deep_view() =~= start + all.take(0));
        assert(lefts.deep_view().len() == lefts@.len());
        while j < lefts.len()
            invariant
                j <= lefts@.len(),
                lefts.deep_view().len() == lefts@.len(),
                forall|h: int|
                    0 <= h < lefts@.len() ==> self.fits(true, (#[trigger] lefts@[h]).deep_view()),
                all == self.unmatched(positive, lefts.deep_view()),
                out.deep_view() == start + all.take(j as int),
            decreases lefts@.len() - j,
        {
            let ghost before = out.deep_view();
            assert(lefts.deep_view()[j as int] == lefts@[j as int].deep_view());
            assert(self.fits(true, lefts@[j as int].deep_view()));
            let row = self.combined_null(&lefts[j]);
            out.push(Record::signed(positive, row));
            proof {
                assert(out.deep_view() =~= before.push(all[j as int]));
                assert(all.take(j + 1) =~= all.take(j as int).push(all[j as int]));
                assert(out.deep_view() =~= start + all.take(j + 1));
            }
            j += 1;
        }
        assert(all.take(lefts@.len() as int) =~= all);
    }

    /// By how much the first `n` records of `rs`, which come from the right, change the
    /// number of right rows with the join key `key`.
    fn net_change(&self, rs: &Vec<Record>, n: usize, key: &Vec<DataType>) -> (c: i64)
        requires
            n <= rs@.len(),
            rs@.len() <= i64::MAX,
            self.accepts(false, rs.deep_view()),
        ensures
            c == self.net(rs.deep_view().take(n as int), key.deep_view()),
            -(n as int) <= c <= n,
    {
        let ghost delta = rs.deep_view();
        let mut c: i64 = 0;
        let mut i: usize = 0;
        assert(delta.take(0) =~= Seq::<SignedRow>::empty());
        while i < n
            invariant
                i <= n <= rs@.len(),
                rs@.len() <= i64::MAX,
                delta == rs.deep_view(),
                self.accepts(false, delta),
                c == self.net(delta.take(i as int), key.deep_view()),
                -(i as int) <= c <= i,
            decreases n - i,
        {
            proof {
                assert(delta.take(i + 1).drop_last() =~= delta.take(i as int));
                assert(delta.take(i + 1).last() == delta[i as int]);
                assert(delta[i as int] == rs@[i as int]@);
                assert(self.fits(false, delta[i as int].row));
            }
            let row = rs[i].row();
            assert(row@.len() == row.deep_view().len());
            let k = project_row(row, &self.on_right);
            if rows_equal(&k, key) {
                if rs[i].is_positive() {
                    c += 1;
                } else {
                    c -= 1;
                }
            }
            i += 1;
        }
        c
    }

    /// Takes in a batch of records from the parent `from`. For each record the join looks
    /// up the record's join key in the state of the other parent and emits the record's row
    /// paired with each row found there. A left join emits a left row without a match
    /// followed by nulls, and when records of the right parent give a key its first match or
    /// take its last, it exchanges the rows with nulls for the paired rows or back. A lookup
    /// that falls into a hole is a miss on the parent whose state was asked.
    pub fn on_input(&self, from: LocalNodeIndex, rs: Vec<Record>, states: &StateMap) -> (r:
        ProcessingResult)
        requires
            states.wf(),
            self.left_parent().spec_local().is_some(),
            self.right_parent().spec_local().is_some(),
            self.left_parent().spec_local() != self.right_parent().spec_local(),
            from == self.left_parent().spec_local().unwrap() || from
                == self.right_parent().spec_local().unwrap(),
            states.model(self.left_parent().spec_local().unwrap()).is_some(),
            states.model(self.right_parent().spec_local().unwrap()).is_some(),
            states.model(self.left_parent().spec_local().unwrap()).unwrap().key
                == self.left_key(),
            states.model(self.right_parent().spec_local().unwrap()).unwrap().key
                == self.right_key(),
            self.state_fits(true, states.model(self.left_parent().spec_local().unwrap()).unwrap()),
            self.state_fits(
                false,
                states.model(self.right_parent().spec_local().unwrap()).unwrap(),
            ),
            self.accepts(from == self.left_parent().spec_local().unwrap(), rs.deep_view()),
            rs@.len() <= i64::MAX,
        ensures
            ({
                let left = from == self.left_parent().spec_local().unwrap();
                let l = states.model(self.left_parent().spec_local().unwrap()).unwrap();
                let r0 = states.model(self.right_parent().spec_local().unwrap()).unwrap();
                let other = if left {
                    r0
                } else {
                    l
                };
                let other_pair = if left {
                    self.right_parent()
                } else {
                    self.left_parent()
                };
                let joined = self.run(
                    left,
                    other_pair.spec_local().unwrap(),
                    self.right_parent().spec_local().unwrap(),
                    other,
                    r0,
                    rs.deep_view(),
                    rs@.len() as int,
                );
                &&& r.delta() == joined.out
                &&& r.refused().len() == 0
                &&& r.missed() == joined.misses
            }),
    {
        let left: bool = from == self.left.as_local();
        let left_state = states.get(self.left.as_local()).unwrap();
        let right_state = states.get(self.right.as_local()).unwrap();
        let other_state = if left {
            right_state
        } else {
            left_state
        };
        let other_node = if left {
            self.right.as_local()
        } else {
            self.left.as_local()
        };
        let right_node = self.right.as_local();
        let ghost delta = rs.deep_view();
        let ghost other = other_state@;
        let ghost own = right_state@;
        let mut out: Vec<Record> = Vec::new();
        let mut misses: Vec<Miss> = Vec::new();
        let mut i: usize = 0;
        proof {
            assert(out.deep_view() =~= Seq::<SignedRow>::empty());
            assert(misses.deep_view() =~= Seq::<MissView>::empty());
            assert(delta.take(rs@.len() as int) =~= delta);
        }
        while i < rs.len()
            invariant
                i <= rs@.len(),
                rs@.len() <= i64::MAX,
                delta == rs.deep_view(),
                delta.take(rs@.len() as int) == delta,
                other == other_state@,
                own == right_state@,
                other_state.wf(),
                right_state.wf(),
                other.key == (if left {
                    self.right_key()
                } else {
                    self.left_key()
                }),
                own.key == self.right_key(),
                self.state_fits(!left, other),
                self.accepts(left, delta),
                out.deep_view() == self.run(
                    left,
                    other_node,
                    right_node,
                    other,
                    own,
                    delta,
                    i as int,
                ).out,
                misses.deep_view() == self.run(
                    left,
                    other_node,
                    right_node,
                    other,
                    own,
                    delta,
                    i as int,
                ).misses,
            decreases rs@.len() - i,
        {
            let ghost before = self.run(left, other_node, right_node, other, own, delta, i as int);
            let ghost step = self.step(left, other_node, right_node, other, own, delta, i as int);
            let ghost rec = delta[i as int];
            proof {
                assert(rec == rs@[i as int]@);
                assert(self.fits(left, rec.row));
            }
            let record = &rs[i];
            let row = record.row();
            assert(row@.len() == row.deep_view().len());
            let key = if left {
                project_row(row, &self.on_left)
            } else {
                project_row(row, &self.on_right)
            };
            let ghost k = key.deep_view();
            let positive = record.is_positive();
            match other_state.lookup(&key) {
                LookupResult::Miss => {
                    let ghost held = misses.deep_view();
                    let columns = other_state.key_columns().clone();
                    assert(columns@ =~= other.key);
                    misses.push(Miss { on: other_node, columns, key });
                    proof {
                        let m = MissView { on: other_node, columns: other.key, key: k };
                        assert(misses.deep_view() =~= held.push(m));
                        assert(before.out + step.out =~= before.out);
                        assert(before.misses + step.misses =~= before.misses.push(m));
                    }
                },
                LookupResult::Hit(others) => {
                    proof {
                        assert(others.deep_view().len() == others@.len());
                        assert forall|j: int| 0 <= j < others@.len() implies self.fits(
                            !left,
                            (#[trigger] others@[j]).deep_view(),
                        ) by {
                            assert(others.deep_view()[j] == others@[j].deep_view());
                            if other.rows.dom().contains(k) {
                                assert(self.fits(!left, other.rows[k][j]));
                            }
                        }
                    }
                    match self.kind {
                        JoinType::Inner => {
                            self.push_pairs(&mut out, left, positive, row, others);
                            proof {
                                assert(before.misses + step.misses =~= before.misses);
                            }
                        },
                        JoinType::Left => {
                            if left {
                                if others.len() == 0 {
                                    let ghost held = out.deep_view();
                                    out.push(Record::signed(positive, self.combined_null(row)));
                                    assert(out.deep_view() =~= held + step.out);
                                } else {
                                    self.push_pairs(&mut out, left, positive, row, others);
                                }
                                proof {
                                    assert(before.misses + step.misses =~= before.misses);
                                }
                            } else {
                                match right_state.lookup(&key) {
                                    LookupResult::Miss => {
                                        let ghost held = misses.deep_view();
                                        let columns = right_state.key_columns().clone();
                                        assert(columns@ =~= own.key);
                                        misses.push(
                                            Miss { on: right_node, columns, key },
                                        );
                                        proof {
                                            let m = MissView {
                                                on: right_node,
                                                columns: own.key,
                                                key: k,
                                            };
                                            assert(misses.deep_view() =~= held.push(m));
                                            assert(before.out + step.out =~= before.out);
                                            assert(before.misses + step.misses
                                                =~= before.misses.push(m));
                                        }
                                    },
                                    LookupResult::Hit(mine) => {
                                        assert(mine.deep_view().len() == mine@.len());
                                        let total: i64 = self.net_change(&rs, rs.len(), &key);
                                        let so_far: i64 = self.net_change(&rs, i, &key);
                                        let held_before: i128 = mine.len() as i128 - total as i128
                                            + so_far as i128;
                                        let first: bool = positive && held_before == 0;
                                        let last: bool = !positive && held_before == 1;
                                        if first {
                                            self.push_unmatched(&mut out, false, others);
                                        }
                                        self.push_pairs(&mut out, left, positive, row, others);
                                        if last {
                                            self.push_unmatched(&mut out, true, others);
                                        }
                                        proof {
                                            assert(before.misses + step.misses =~= before.misses);
                                            assert(out.deep_view() =~= before.out + step.out);
                                        }
                                    },
                                }
                            }
                        },
                    }
                },
            }
            i += 1;
        }
        ProcessingResult { results: out, misses, rejected: Vec::new() }
    }

    /// Where column `column` of the output comes from: the column of the parent that the
    /// output names; nothing for a column that the output does not have.
    pub fn parent_columns(&self, column: usize) -> (r: Vec<(NodeIndex, Option<usize>)>)
        ensures
            r@ == if column < self.emits().len() {
                seq![
                    (
                        if self.emits()[column as int].left {
                            self.left_parent().spec_global()
                        } else {
                            self.right_parent().spec_global()
                        },
                        Some(self.emits()[column as int].column),
                    ),
                ]
            } else {
                Seq::<(NodeIndex, Option<usize>)>::empty()
            },
    {
        let mut v: Vec<(NodeIndex, Option<usize>)> = Vec::new();
        if column < self.emit.len() {
            let parent = if self.emit[column].left {
                self.left.as_global()
            } else {
                self.right.as_global()
            };
            v.push((parent, Some(self.emit[column].column)));
            assert(v@ =~= seq![(parent, Some(self.emits()[column as int].column))]);
        }
        v
    }

    /// Whether a row of `width` values of the given side has the join columns and the
    /// emitted columns of that side.
    pub fn check_width(&self, left: bool, width: usize) -> (b: bool)
        ensures
            b == self.fits_width(left, width as nat),
    {
        let keyed = if left {
            crate::data::check_columns_within(&self.on_left, width)
        } else {
            crate::data::check_columns_within(&self.on_right, width)
        };
        if !keyed {
            return false;
        }
        let mut i: usize = 0;
        while i < self.emit.len()
            invariant
                i <= self.emit@.len(),
                forall|j: int|
                    0 <= j < i && (#[trigger] self.emits()[j]).left == left
                        ==> self.emits()[j].column < width,
            decreases self.emit@.len() - i,
        {
            if self.emit[i].left == left && self.emit[i].column >= width {
                assert(self.emits()[i as int].left == left && !(self.emits()[i as int].column
                    < width));
                return false;
            }
            i += 1;
        }
        true
    }

    /// The left parent.
    pub fn left(&self) -> (p: IndexPair)
        ensures
            p == self.left_parent(),
    {
        self.left
    }

    /// The right parent.
    pub fn right(&self) -> (p: IndexPair)
        ensures
            p == self.right_parent(),
    {
        self.right
    }

    /// The join columns of the given side.
    pub fn key_columns(&self, left: bool) -> (k: &Vec<usize>)
        ensures
            k@ == if left {
                self.left_key()
            } else {
                self.right_key()
            },
    {
        if left {
            &self.on_left
        } else {
            &self.on_right
        }
    }

    /// Pairing a row with a list of rows that has one more row at its end gives one more
    /// record at the end.
    pub proof fn lemma_pairs_push(self, left: bool, positive: bool, row: Row, others: Seq<Row>, more: Row)
        ensures
            self.pairs(left, positive, row, others.push(more)) == self.pairs(
                left,
                positive,
                row,
                others,
            ).push(
                SignedRow {
                    positive,
                    row: if left {
                        self.combine(row, more)
                    } else {
                        self.combine(more, row)
                    },
                },
            ),
    {
        assert(self.pairs(left, positive, row, others.push(more)) =~= self.pairs(
            left,
            positive,
            row,
            others,
        ).push(
            SignedRow {
                positive,
                row: if left {
                    self.combine(row, more)
                } else {
                    self.combine(more, row)
                },
            },
        ));
    }
}

} // verus!
