//! The grouped aggregations: count, sum and average of a column over the rows of each group.

use crate::addressing::{IndexPair, LocalNodeIndex, NodeIndex, Remap};
use crate::data::{
    columns_within, project, project_row, DataType, Delta, Record, Row, SignedRow, Value,
};
use crate::processing::{Miss, MissView, ProcessingResult, SuggestedIndex};
use crate::state::{LookupResult, Materialized, State};
use vstd::prelude::*;

verus! {

/// What is computed over each group.
#[derive(Clone, Copy, Debug, PartialEq, Eq, Structural)]
pub enum Aggregation {
    /// The number of rows of the group.
    Count,
    /// The sum of a column over the rows of the group.
    Sum,
    /// The average of a column over the rows of the group: the sum divided by the number of
    /// rows, rounded down.
    Avg,
}

/// What the operator remembers of a group: the sum of the aggregated column over its rows,
/// and how many rows it has.
pub struct Accumulator {
    /// The sum of the aggregated column; zero for a count.
    pub sum: int,
    /// The number of rows.
    pub count: int,
}

impl Accumulator {
    /// Both numbers fit in 64 bits and the group has a row.
    pub open spec fn valid(self) -> bool {
        &&& i64::MIN <= self.sum <= i64::MAX
        &&& 0 < self.count <= i64::MAX
    }
}

/// The outcome of folding one record into what is remembered of its group.
pub enum Folded {
    /// The record cannot be taken in: the sum or the count would leave 64 bits, or a row
    /// would be deleted from a group that has none.
    Rejected,
    /// The group has no row left.
    Emptied,
    /// The group goes on with this accumulator.
    Updated(Accumulator),
}

/// What one record does: the state afterwards, what is emitted, and whether the record
/// missed or was rejected.
pub struct Step {
    /// The operator's state after the record.
    pub state: Materialized,
    /// The records emitted for it.
    pub out: Delta,
    /// The group whose lookup missed, if it did.
    pub miss: Option<Row>,
    /// Whether the record was rejected.
    pub rejected: bool,
}

/// What a batch does.
pub struct Run {
    /// The operator's state after the batch.
    pub state: Materialized,
    /// The records emitted, in order.
    pub out: Delta,
    /// The groups whose lookups missed, in order.
    pub misses: Seq<Row>,
    /// The records that were rejected, in order.
    pub rejected: Delta,
}

/// The misses on the node `on`, whose state is keyed on `columns`, for the keys `keys`.
pub open spec fn misses_on(on: LocalNodeIndex, columns: Seq<usize>, keys: Seq<Row>) -> Seq<
    MissView,
> {
    Seq::new(keys.len(), |i: int| MissView { on, columns, key: keys[i] })
}

/// Maintains, for each group of its parent's rows, an aggregate of one column. The
/// operator's own state holds one row per group: the values of the group-by columns, then
/// the sum and the count. It emits rows of the values of the group-by columns followed by
/// the aggregate.
#[derive(Debug)]
pub struct Aggregator {
    src: IndexPair,
    kind: Aggregation,
    over: usize,
    group_by: Vec<usize>,
}

impl Aggregator {
    /// The parent.
    pub closed spec fn source(self) -> IndexPair {
        self.src
    }

    /// What is computed.
    pub closed spec fn aggregation(self) -> Aggregation {
        self.kind
    }

    /// The column that is aggregated.
    pub closed spec fn column(self) -> usize {
        self.over
    }

    /// The columns that rows are grouped by.
    pub closed spec fn group(self) -> Seq<usize> {
        self.group_by@
    }

    /// The key columns of the operator's own state: the leading ones, as many as there are
    /// group-by columns.
    pub open spec fn state_key(self) -> Seq<usize> {
        Seq::new(self.group().len(), |i: int| i as usize)
    }

    /// The row that the state holds for the group `g`.
    pub open spec fn stored_row(g: Row, acc: Accumulator) -> Row {
        g + seq![Value::Int(acc.sum), Value::Int(acc.count)]
    }

    /// What the state remembers of a group with the rows `rows`.
    pub open spec fn stored(g: Row, rows: Seq<Row>) -> Option<Accumulator> {
        if rows.len() == 0 {
            None
        } else {
            let row = rows[0];
            match (row[g.len() as int], row[g.len() as int + 1]) {
                (Value::Int(sum), Value::Int(count)) => Some(Accumulator { sum, count }),
                _ => None,
            }
        }
    }

    /// The aggregate of a group.
    pub open spec fn value(self, acc: Accumulator) -> Value {
        match self.aggregation() {
            Aggregation::Count => Value::Int(acc.count),
            Aggregation::Sum => Value::Int(acc.sum),
            Aggregation::Avg => Value::Int(acc.sum / acc.count),
        }
    }

    /// The row that is emitted for the group `g`.
    pub open spec fn emitted_row(self, g: Row, acc: Accumulator) -> Row {
        g.push(self.value(acc))
    }

    /// What a row adds to the sum of its group: nothing for a count, else the integer in the
    /// aggregated column; `None` where that column holds no signed integer.
    pub open spec fn amount(self, row: Row) -> Option<int> {
        match self.aggregation() {
            Aggregation::Count => Some(0int),
            _ => match row[self.column() as int] {
                Value::Int(x) => Some(x),
                _ => None,
            },
        }
    }

    /// Folds a record that adds `x` into the accumulator of its group.
    pub open spec fn fold(acc: Option<Accumulator>, positive: bool, x: int) -> Folded {
        if positive {
            let sum = if acc.is_some() {
                acc.unwrap().sum + x
            } else {
                x
            };
            let count = if acc.is_some() {
                acc.unwrap().count + 1
            } else {
                1
            };
            if i64::MIN <= sum <= i64::MAX && count <= i64::MAX {
                Folded::Updated(Accumulator { sum, count })
            } else {
                Folded::Rejected
            }
        } else if acc.is_none() {
            Folded::Rejected
        } else {
            let sum = acc.unwrap().sum - x;
            let count = acc.unwrap().count - 1;
            if !(i64::MIN <= sum <= i64::MAX) {
                Folded::Rejected
            } else if count == 0 {
                Folded::Emptied
            } else {
                Folded::Updated(Accumulator { sum, count })
            }
        }
    }

    /// The state of an aggregation is sound: it is keyed on the leading columns, and holds
    /// for each group at most one row, which is the stored row of a valid accumulator.
    pub open spec fn coherent(self, m: Materialized) -> bool {
        &&& m.wf()
        &&& m.key == self.state_key()
        &&& forall|g: Row| #[trigger]
            m.rows.dom().contains(g) ==> {
                &&& m.rows[g].len() <= 1
                &&& m.rows[g].len() == 1 ==> {
                    &&& Self::stored(g, m.rows[g]).is_some()
                    &&& Self::stored(g, m.rows[g]).unwrap().valid()
                    &&& m.rows[g][0] == Self::stored_row(g, Self::stored(g, m.rows[g]).unwrap())
                }
            }
    }

    /// Whether every row of `delta` has the group-by columns and the aggregated column.
    pub open spec fn accepts(self, delta: Delta) -> bool {
        forall|i: int|
            0 <= i < delta.len() ==> {
                &&& columns_within(self.group(), (#[trigger] delta[i]).row.len())
                &&& self.column() < delta[i].row.len()
            }
    }

    /// What one record does to a state `m`.
    pub open spec fn step(self, m: Materialized, r: SignedRow) -> Step {
        let g = project(r.row, self.group());
        if m.lookup(g).is_none() {
            Step { state: m, out: Seq::empty(), miss: Some(g), rejected: false }
        } else if self.amount(r.row).is_none() {
            Step { state: m, out: Seq::empty(), miss: None, rejected: true }
        } else {
            let before = Self::stored(g, m.lookup(g).unwrap());
            let retract = if before.is_some() {
                seq![SignedRow { positive: false, row: self.emitted_row(g, before.unwrap()) }]
            } else {
                Seq::<SignedRow>::empty()
            };
            match Self::fold(before, r.positive, self.amount(r.row).unwrap()) {
                Folded::Rejected => Step {
                    state: m,
                    out: Seq::empty(),
                    miss: None,
                    rejected: true,
                },
                Folded::Emptied => Step {
                    state: m.put(g, Seq::empty()),
                    out: retract,
                    miss: None,
                    rejected: false,
                },
                Folded::Updated(acc) => Step {
                    state: m.put(g, seq![Self::stored_row(g, acc)]),
                    out: retract.push(
                        SignedRow { positive: true, row: self.emitted_row(g, acc) },
                    ),
                    miss: None,
                    rejected: false,
                },
            }
        }
    }

    /// What a batch does to a state `m`: the records are taken one after the other.
    pub open spec fn run(self, m: Materialized, delta: Delta) -> Run
        decreases delta.len(),
    {
        if delta.len() == 0 {
            Run { state: m, out: Seq::empty(), misses: Seq::empty(), rejected: Seq::empty() }
        } else {
            let before = self.run(m, delta.drop_last());
            let step = self.step(before.state, delta.last());
            Run {
                state: step.state,
                out: before.out + step.out,
                misses: if step.miss.is_some() {
                    before.misses.push(step.miss.unwrap())
                } else {
                    before.misses
                },
                rejected: if step.rejected {
                    before.rejected.push(delta.last())
                } else {
                    before.rejected
                },
            }
        }
    }

    /// The key columns of the operator's own state are the leading columns.
    pub proof fn lemma_state_key(self)
        ensures
            self.state_key().len() == self.group().len(),
            forall|i: int| 0 <= i < self.group().len() ==> (#[trigger] self.state_key()[i]) == i,
    {
        assert(self.group_by@.len() == self.group_by.len());
    }

    /// One record keeps the state sound.
    pub proof fn lemma_step_coherent(self, m: Materialized, r: SignedRow)
        requires
            self.coherent(m),
            columns_within(self.group(), r.row.len()),
        ensures
            self.coherent(self.step(m, r).state),
    {
        let g = project(r.row, self.group());
        let after = self.step(m, r).state;
        if after != m {
            let before = Self::stored(g, m.lookup(g).unwrap());
            let x = self.amount(r.row).unwrap();
            match Self::fold(before, r.positive, x) {
                Folded::Updated(acc) => {
                    let row = Self::stored_row(g, acc);
                    assert(m.files_under(g, seq![row])) by {
                        assert(g.len() == self.group().len());
                        assert(project(row, m.key).len() == g.len());
                        self.lemma_state_key();
                        assert forall|i: int| 0 <= i < g.len() implies project(row, m.key)[i]
                            == g[i] by {
                            assert(m.key[i] == i);
                            assert(row[i] == g[i]);
                        }
                        assert(project(row, m.key) =~= g);
                        assert(columns_within(m.key, row.len()));
                    }
                    m.lemma_put_wf(g, seq![row]);
                    if m.rows.dom().contains(g) && m.rows[g].len() == 1 {
                        assert(before.unwrap().valid());
                    }
                    assert(acc.valid());
                    assert forall|h: Row| #[trigger] after.rows.dom().contains(h) implies {
                        &&& after.rows[h].len() <= 1
                        &&& after.rows[h].len() == 1 ==> {
                            &&& Self::stored(h, after.rows[h]).is_some()
                            &&& Self::stored(h, after.rows[h]).unwrap().valid()
                            &&& after.rows[h][0] == Self::stored_row(
                                h,
                                Self::stored(h, after.rows[h]).unwrap(),
                            )
                        }
                    } by {
                        if h != g {
                            assert(m.rows.dom().contains(h));
                        }
                    }
                },
                Folded::Emptied => {
                    assert(m.files_under(g, Seq::<Row>::empty()));
                    m.lemma_put_wf(g, Seq::<Row>::empty());
                    assert forall|h: Row| #[trigger] after.rows.dom().contains(h) implies {
                        &&& after.rows[h].len() <= 1
                        &&& after.rows[h].len() == 1 ==> {
                            &&& Self::stored(h, after.rows[h]).is_some()
                            &&& Self::stored(h, after.rows[h]).unwrap().valid()
                            &&& after.rows[h][0] == Self::stored_row(
                                h,
                                Self::stored(h, after.rows[h]).unwrap(),
                            )
                        }
                    } by {
                        if h != g {
                            assert(m.rows.dom().contains(h));
                        }
                    }
                },
                Folded::Rejected => {},
            }
        }
    }

    /// A batch keeps the state sound.
    pub proof fn lemma_run_coherent(self, m: Materialized, delta: Delta)
        requires
            self.coherent(m),
            self.accepts(delta),
        ensures
            self.coherent(self.run(m, delta).state),
        decreases delta.len(),
    {
        if delta.len() > 0 {
            assert(self.accepts(delta.drop_last())) by {
                assert forall|i: int| 0 <= i < delta.drop_last().len() implies {
                    &&& columns_within(self.group(), (#[trigger] delta.drop_last()[i]).row.len())
                    &&& self.column() < delta.drop_last()[i].row.len()
                } by {
                    assert(delta.drop_last()[i] == delta[i]);
                }
            }
            self.lemma_run_coherent(m, delta.drop_last());
            assert(columns_within(self.group(), delta[delta.len() - 1].row.len()));
            self.lemma_step_coherent(self.run(m, delta.drop_last()).state, delta.last());
        }
    }

    /// A record that is taken in, followed by the deletion of the same row if it was an
    /// insertion, or its insertion if it was a deletion, leaves the state as it was.
    pub proof fn lemma_step_undone(self, m: Materialized, r: SignedRow)
        requires
            self.coherent(m),
            columns_within(self.group(), r.row.len()),
            r.positive,
            !self.step(m, r).rejected,
        ensures
            self.step(self.step(m, r).state, SignedRow { positive: false, row: r.row }).state
                == m,
            !self.step(self.step(m, r).state, SignedRow { positive: false, row: r.row }).rejected,
    {
        let g = project(r.row, self.group());
        if m.lookup(g).is_some() {
            let before = Self::stored(g, m.lookup(g).unwrap());
            let x = self.amount(r.row).unwrap();
            let acc = Self::fold(before, true, x)->Updated_0;
            let row = Self::stored_row(g, acc);
            let mid = m.put(g, seq![row]);
            assert(mid.lookup(g) == Some(seq![row]));
            assert(row[g.len() as int] == Value::Int(acc.sum));
            assert(row[g.len() as int + 1] == Value::Int(acc.count));
            assert(Self::stored(g, seq![row]) == Some(acc));
            if before.is_some() {
                assert(m.rows.dom().contains(g));
                assert(m.rows[g].len() == 1);
                let old = before.unwrap();
                assert(Self::fold(Some(acc), false, x) == Folded::Updated(old));
                assert(m.rows[g] =~= seq![Self::stored_row(g, old)]);
                m.lemma_put_back(g, seq![row]);
            } else {
                assert(Self::fold(Some(acc), false, x) == Folded::Emptied);
                if m.rows.dom().contains(g) {
                    assert(m.rows[g].len() == 0);
                    assert(m.rows[g] =~= Seq::<Row>::empty());
                }
                assert(m.lookup(g).unwrap() =~= Seq::<Row>::empty());
                m.lemma_put_back(g, seq![row]);
            }
        }
    }

    /// The insertion of a row followed by its deletion, where the insertion is taken in,
    /// leaves the state of the aggregation as it was, and neither record is rejected.
    pub proof fn lemma_pair_leaves_state(self, m: Materialized, row: Row)
        requires
            self.coherent(m),
            columns_within(self.group(), row.len()),
            !self.step(m, SignedRow { positive: true, row }).rejected,
        ensures
            self.run(
                m,
                seq![SignedRow { positive: true, row }, SignedRow { positive: false, row }],
            ).state == m,
            self.run(
                m,
                seq![SignedRow { positive: true, row }, SignedRow { positive: false, row }],
            ).rejected.len() == 0,
    {
        let plus = SignedRow { positive: true, row };
        let minus = SignedRow { positive: false, row };
        let delta = seq![plus, minus];
        assert(delta.drop_last() =~= seq![plus]);
        assert(seq![plus].drop_last() =~= Seq::<SignedRow>::empty());
        assert(delta.last() == minus);
        assert(seq![plus].last() == plus);
        reveal_with_fuel(Aggregator::run, 3);
        assert(self.run(m, seq![plus]).state == self.step(m, plus).state);
        self.lemma_step_undone(m, plus);
    }

    /// The insertion of a row followed by its deletion, where the insertion is taken in,
    /// leaves every state below the aggregation as it was: what the aggregation emits for
    /// the two, applied to a sound state `below` that is keyed within the emitted rows,
    /// changes nothing, whether the group was there before or not.
    pub proof fn lemma_pair_leaves_reader(self, m: Materialized, row: Row, below: Materialized)
        requires
            self.coherent(m),
            columns_within(self.group(), row.len()),
            !self.step(m, SignedRow { positive: true, row }).rejected,
            below.wf(),
            columns_within(below.key, self.group().len() + 1),
        ensures
            below.apply(
                self.run(
                    m,
                    seq![SignedRow { positive: true, row }, SignedRow { positive: false, row }],
                ).out,
            ) == below,
    {
        let plus = SignedRow { positive: true, row };
        let minus = SignedRow { positive: false, row };
        let delta = seq![plus, minus];
        assert(delta.drop_last() =~= seq![plus]);
        assert(seq![plus].drop_last() =~= Seq::<SignedRow>::empty());
        assert(delta.last() == minus);
        assert(seq![plus].last() == plus);
        reveal_with_fuel(Aggregator::run, 3);
        let first = self.step(m, plus);
        let second = self.step(first.state, minus);
        assert(self.run(m, delta).out =~= first.out + second.out);
        let g = project(row, self.group());
        assert(g.len() == self.group().len());
        if m.lookup(g).is_none() {
            assert(first.out + second.out =~= Seq::<SignedRow>::empty());
            reveal_with_fuel(Materialized::apply_positives, 1);
            reveal_with_fuel(Materialized::apply_negatives, 1);
        } else {
            let before = Self::stored(g, m.lookup(g).unwrap());
            let x = self.amount(row).unwrap();
            let acc = Self::fold(before, true, x)->Updated_0;
            let stored = Self::stored_row(g, acc);
            let mid = m.put(g, seq![stored]);
            assert(first.state == mid);
            assert(mid.lookup(g) == Some(seq![stored]));
            assert(stored[g.len() as int] == Value::Int(acc.sum));
            assert(stored[g.len() as int + 1] == Value::Int(acc.count));
            assert(Self::stored(g, seq![stored]) == Some(acc));
            let new_row = self.emitted_row(g, acc);
            assert(new_row.len() == self.group().len() + 1);
            if before.is_some() {
                assert(m.rows.dom().contains(g));
                let old = before.unwrap();
                assert(Self::fold(Some(acc), false, x) == Folded::Updated(old));
                let old_row = self.emitted_row(g, old);
                assert(first.out + second.out =~= seq![
                    SignedRow { positive: false, row: old_row },
                    SignedRow { positive: true, row: new_row },
                    SignedRow { positive: false, row: new_row },
                    SignedRow { positive: true, row: old_row },
                ]);
                below.lemma_apply_exchange(old_row, new_row);
            } else {
                assert(Self::fold(Some(acc), false, x) == Folded::Emptied);
                assert(first.out + second.out =~= seq![
                    SignedRow { positive: true, row: new_row },
                    SignedRow { positive: false, row: new_row },
                ]);
                below.lemma_apply_pair(new_row);
            }
        }
    }

    /// An aggregation below `src` that groups by the columns `group_by` and computes
    /// `kind` over the column `over`.
    pub fn new(src: NodeIndex, kind: Aggregation, over: usize, group_by: Vec<usize>) -> (a:
        Aggregator)
        ensures
            a.source().spec_global() == src,
            a.source().spec_local().is_none(),
            a.aggregation() == kind,
            a.column() == over,
            a.group() == group_by@,
    {
        Aggregator { src: IndexPair::new(src), kind, over, group_by }
    }

    /// The parents of this operator: the one that it was made with.
    pub fn ancestors(&self) -> (a: Vec<NodeIndex>)
        ensures
            a@ == seq![self.source().spec_global()],
    {
        let mut a: Vec<NodeIndex> = Vec::new();
        a.push(self.src.as_global());
        assert(a@ =~= seq![self.source().spec_global()]);
        a
    }

    /// Localizes the reference to the parent.
    pub fn on_commit(&mut self, _us: NodeIndex, remap: &Remap)
        requires
            remap.wf(),
        ensures
            final(self).source() == if remap@.dom().contains(old(self).source().spec_global()) {
                remap@[old(self).source().spec_global()]
            } else {
                old(self).source()
            },
            final(self).aggregation() == old(self).aggregation(),
            final(self).column() == old(self).column(),
            final(self).group() == old(self).group(),
    {
        self.src.remap(remap);
    }

    /// The key columns of the operator's own state.
    pub fn own_key(&self) -> (k: Vec<usize>)
        ensures
            k@ == self.state_key(),
    {
        let mut k: Vec<usize> = Vec::new();
        let mut i: usize = 0;
        while i < self.group_by.len()
            invariant
                i <= self.group_by@.len(),
                k@.len() == i,
                forall|j: int| 0 <= j < i ==> k@[j] == j,
            decreases self.group_by@.len() - i,
        {
            k.push(i);
            i += 1;
        }
        assert(k@ =~= self.state_key());
        k
    }

    /// The index that this operator needs: its own state, keyed on the group.
    pub fn suggest_indexes(&self, us: NodeIndex) -> (s: Vec<SuggestedIndex>)
        ensures
            s@.len() == 1,
            s@[0].node == us,
            s@[0].columns@ == self.state_key(),
            s@[0].unique,
    {
        let mut s: Vec<SuggestedIndex> = Vec::new();
        s.push(SuggestedIndex { node: us, columns: self.own_key(), unique: true });
        s
    }

    /// Where column `col` of the output comes from: a group-by column comes from the
    /// parent's column that is grouped by, the aggregate from nowhere.
    pub fn resolve(&self, col: usize) -> (r: Option<Vec<(NodeIndex, usize)>>)
        ensures
            r.is_some() == (col < self.group().len()),
            r.is_some() ==> r.unwrap()@ == seq![
                (self.source().spec_global(), self.group()[col as int]),
            ],
    {
        if col < self.group_by.len() {
            let mut v: Vec<(NodeIndex, usize)> = Vec::new();
            v.push((self.src.as_global(), self.group_by[col]));
            assert(v@ =~= seq![(self.source().spec_global(), self.group()[col as int])]);
            Some(v)
        } else {
            None
        }
    }

    /// Where column `column` of the output comes from; the aggregate is computed from the
    /// aggregated column.
    pub fn parent_columns(&self, column: usize) -> (r: Vec<(NodeIndex, Option<usize>)>)
        ensures
            r@ == seq![
                (
                    self.source().spec_global(),
                    if column < self.group().len() {
                        Some(self.group()[column as int])
                    } else {
                        Option::<usize>::None
                    },
                ),
            ],
    {
        let c: Option<usize> = if column < self.group_by.len() {
            Some(self.group_by[column])
        } else {
            None
        };
        let mut v: Vec<(NodeIndex, Option<usize>)> = Vec::new();
        v.push((self.src.as_global(), c));
        assert(v@ =~= seq![(self.source().spec_global(), c)]);
        v
    }

    /// A short description of the operator.
    pub fn description(&self) -> (s: String)
        ensures
            s@ == match self.aggregation() {
                Aggregation::Count => "|*|"@,
                Aggregation::Sum => "𝛴"@,
                Aggregation::Avg => "avg"@,
            },
    {
        match self.kind {
            Aggregation::Count => String::from_str("|*|"),
            Aggregation::Sum => String::from_str("𝛴"),
            Aggregation::Avg => String::from_str("avg"),
        }
    }

    /// The aggregate of a group with the given sum and count.
    fn compute(&self, sum: i64, count: i64) -> (v: DataType)
        requires
            count > 0,
        ensures
            v@ == self.value(Accumulator { sum: sum as int, count: count as int }),
    {
        match self.kind {
            Aggregation::Count => DataType::Int(count),
            Aggregation::Sum => DataType::Int(sum),
            Aggregation::Avg => {
                let q = sum.checked_div_euclid(count);
                assert(q.is_some() && q.unwrap() as int == sum as int / count as int) by {
                    assert(i64::MIN <= sum as int / count as int <= i64::MAX) by (nonlinear_arith)
                        requires
                            i64::MIN <= sum <= i64::MAX,
                            0 < count,
                    ;
                }
                DataType::Int(q.unwrap())
            },
        }
    }

    /// The row to emit for a group.
    fn emitted(&self, g: &Vec<DataType>, sum: i64, count: i64) -> (row: Vec<DataType>)
        requires
            count > 0,
        ensures
            row.deep_view() == self.emitted_row(
                g.deep_view(),
                Accumulator { sum: sum as int, count: count as int },
            ),
    {
        let mut row = crate::data::clone_row(g);
        let ghost before = row.deep_view();
        let v = self.compute(sum, count);
        row.push(v);
        assert(row.deep_view() =~= before.push(v@));
        row
    }

    /// Takes in a batch of records from the parent, one after the other, against the
    /// operator's own state `own`, which it keeps up to date: for each record it looks up
    /// the group, folds the record into what is remembered of the group, retracts the row it
    /// had emitted for the group and emits the new one. A record whose group is a hole of
    /// the state is a miss on the operator's own node `us`; a record that cannot be folded
    /// is rejected.
    pub fn on_input(&self, us: LocalNodeIndex, rs: Vec<Record>, own: &mut State) -> (r:
        ProcessingResult)
        requires
            old(own).wf(),
            self.coherent(old(own)@),
            self.accepts(rs.deep_view()),
        ensures
            final(own).wf(),
            self.coherent(final(own)@),
            final(own)@ == self.run(old(own)@, rs.deep_view()).state,
            r.delta() == self.run(old(own)@, rs.deep_view()).out,
            r.refused() == self.run(old(own)@, rs.deep_view()).rejected,
            r.missed() == misses_on(
                us,
                self.state_key(),
                self.run(old(own)@, rs.deep_view()).misses,
            ),
    {
        let ghost delta = rs.deep_view();
        let ghost start = own@;
        let mut results: Vec<Record> = Vec::new();
        let mut misses: Vec<Miss> = Vec::new();
        let mut rejected: Vec<Record> = Vec::new();
        let mut i: usize = 0;
        proof {
            assert(delta.take(0) =~= Seq::<SignedRow>::empty());
            assert(results.deep_view() =~= Seq::<SignedRow>::empty());
            assert(rejected.deep_view() =~= Seq::<SignedRow>::empty());
            assert(misses.deep_view() =~= misses_on(us, self.state_key(), Seq::<Row>::empty()));
        }
        while i < rs.len()
            invariant
                i <= rs@.len(),
                delta == rs.deep_view(),
                start == old(own)@,
                self.accepts(delta),
                own.wf(),
                self.coherent(own@),
                own@ == self.run(start, delta.take(i as int)).state,
                results.deep_view() == self.run(start, delta.take(i as int)).out,
                rejected.deep_view() == self.run(start, delta.take(i as int)).rejected,
                misses.deep_view() == misses_on(
                    us,
                    self.state_key(),
                    self.run(start, delta.take(i as int)).misses,
                ),
            decreases rs@.len() - i,
        {
            let ghost prefix = self.run(start, delta.take(i as int));
            let ghost r = delta[i as int];
            proof {
                assert(delta.take(i + 1).drop_last() =~= delta.take(i as int));
                assert(delta.take(i + 1).last() == r);
                assert(r == rs@[i as int]@);
                assert(columns_within(self.group(), r.row.len()) && self.column() < r.row.len());
                self.lemma_step_coherent(own@, r);
            }
            let record = &rs[i];
            let row = record.row();
            assert(row@.len() == row.deep_view().len());
            let g = project_row(row, &self.group_by);
            let ghost gv = g.deep_view();
            let ghost step = self.step(own@, r);
            // what the state remembers of the group
            let mut missed: bool = false;
            let mut held: Option<(i64, i64)> = None;
            match own.lookup(&g) {
                LookupResult::Miss => {
                    missed = true;
                },
                LookupResult::Hit(rows) => {
                    assert(rows.deep_view().len() == rows@.len());
                    if rows.len() > 0 {
                        proof {
                            assert(own@.rows.dom().contains(gv));
                            assert(own@.rows[gv].len() == 1);
                            let acc = Self::stored(gv, own@.rows[gv]).unwrap();
                            assert(rows.deep_view()[0] == Self::stored_row(gv, acc));
                            assert(rows@[0].deep_view() == rows.deep_view()[0]);
                            assert(Self::stored_row(gv, acc).len() == gv.len() + 2);
                            assert(rows@[0]@.len() == rows@[0].deep_view().len());
                            assert(gv.len() == g@.len());
                            assert(rows@[0].deep_view()[gv.len() as int] == rows@[0]@[g@.len() as int]@);
                            assert(rows@[0].deep_view()[gv.len() as int + 1] == rows@[0]@[g@.len() as int + 1]@);
                        }
                        let stored = &rows[0];
                        let n: usize = g.len();
                        let width: usize = stored.len();
                        assert(width == n + 2);
                        match (&stored[n], &stored[n + 1]) {
                            (DataType::Int(sum), DataType::Int(count)) => {
                                held = Some((*sum, *count));
                            },
                            _ => {},
                        }
                    }
                },
            }
            assert(missed == own@.lookup(gv).is_none());
            assert(!missed ==> (match held {
                Some((sum, count)) => Self::stored(gv, own@.lookup(gv).unwrap()) == Some(
                    Accumulator { sum: sum as int, count: count as int },
                ) && count > 0,
                None => Self::stored(gv, own@.lookup(gv).unwrap()).is_none(),
            }));
            if missed {
                let ghost before = misses.deep_view();
                let columns = self.own_key();
                misses.push(Miss { on: us, columns, key: g });
                proof {
                    assert(misses.deep_view() =~= before.push(
                        MissView { on: us, columns: self.state_key(), key: gv },
                    ));
                    assert(misses_on(us, self.state_key(), prefix.misses.push(gv)) =~= misses_on(
                        us,
                        self.state_key(),
                        prefix.misses,
                    ).push(MissView { on: us, columns: self.state_key(), key: gv }));
                    assert(prefix.out + step.out =~= prefix.out);
                }
            } else {
                // what the record adds to the sum
                let amount: Option<i64> = match self.kind {
                    Aggregation::Count => Some(0),
                    _ => {
                        assert(row.deep_view()[self.over as int] == row@[self.over as int]@);
                        match &row[self.over] {
                            DataType::Int(x) => Some(*x),
                            _ => None,
                        }
                    },
                };
                assert(match amount {
                    Some(x) => self.amount(r.row) == Some(x as int),
                    None => self.amount(r.row).is_none(),
                });
                // the accumulator after the record: `None` for a rejection
                let next: Option<Option<(i64, i64)>> = match amount {
                    None => None,
                    Some(x) => {
                        if record.is_positive() {
                            let (sum, count): (i64, i64) = match held {
                                Some((s, c)) => (s, c),
                                None => (0, 0),
                            };
                            match (sum.checked_add(x), count.checked_add(1)) {
                                (Some(s), Some(c)) => Some(Some((s, c))),
                                _ => None,
                            }
                        } else {
                            match held {
                                None => None,
                                Some((s, c)) => match s.checked_sub(x) {
                                    None => None,
                                    Some(d) => if c - 1 == 0 {
                                        Some(None)
                                    } else {
                                        Some(Some((d, c - 1)))
                                    },
                                },
                            }
                        }
                    },
                };
                assert(match next {
                    None => step.rejected,
                    Some(None) => !step.rejected && Self::fold(
                        Self::stored(gv, own@.lookup(gv).unwrap()),
                        r.positive,
                        self.amount(r.row).unwrap(),
                    ) == Folded::Emptied,
                    Some(Some((s, c))) => !step.rejected && c > 0 && Self::fold(
                        Self::stored(gv, own@.lookup(gv).unwrap()),
                        r.positive,
                        self.amount(r.row).unwrap(),
                    ) == Folded::Updated(Accumulator { sum: s as int, count: c as int }),
                });
                match next {
                    None => {
                        let ghost before = rejected.deep_view();
                        rejected.push(record.deep_clone());
                        proof {
                            assert(rejected.deep_view() =~= before.push(r));
                            assert(prefix.out + step.out =~= prefix.out);
                        }
                    },
                    Some(after) => {
                        let ghost emitted_before = results.deep_view();
                        match held {
                            Some((sum, count)) => {
                                let old_row = self.emitted(&g, sum, count);
                                results.push(Record::Negative(old_row));
                            },
                            None => {},
                        }
                        let ghost retract = results.deep_view();
                        let mut stored_rows: Vec<Vec<DataType>> = Vec::new();
                        match after {
                            Some((s, c)) => {
                                let new_row = self.emitted(&g, s, c);
                                results.push(Record::Positive(new_row));
                                let mut stored_row = crate::data::clone_row(&g);
                                stored_row.push(DataType::Int(s));
                                stored_row.push(DataType::Int(c));
                                proof {
                                    assert(stored_row.deep_view() =~= Self::stored_row(
                                        gv,
                                        Accumulator { sum: s as int, count: c as int },
                                    ));
                                }
                                stored_rows.push(stored_row);
                                proof {
                                    assert(stored_rows.deep_view() =~= seq![
                                        Self::stored_row(
                                            gv,
                                            Accumulator { sum: s as int, count: c as int },
                                        ),
                                    ]);
                                }
                            },
                            None => {
                                proof {
                                    assert(stored_rows.deep_view() =~= Seq::<Row>::empty());
                                }
                            },
                        }
                        proof {
                            assert(results.deep_view() =~= emitted_before + step.out);
                            assert(own@.files_under(gv, stored_rows.deep_view())) by {
                                assert(gv.len() == self.group().len());
                                if stored_rows.deep_view().len() > 0 {
                                    let row = stored_rows.deep_view()[0];
                                    assert(project(row, own@.key).len() == gv.len());
                                    self.lemma_state_key();
                                    assert forall|i: int| 0 <= i < gv.len() implies project(
                                        row,
                                        own@.key,
                                    )[i] == gv[i] by {
                                        assert(own@.key[i] == i);
                                        assert(row[i] == gv[i]);
                                    }
                                    assert(project(row, own@.key) =~= gv);
                                    assert(columns_within(own@.key, row.len()));
                                }
                            }
                        }
                        own.put(&g, stored_rows);
                    },
                }
            }
            i += 1;
        }
        assert(delta.take(rs@.len() as int) =~= delta);
        ProcessingResult { results, misses, rejected }
    }

    /// Whether rows of `width` values have the group-by columns and the aggregated column.
    pub fn check_width(&self, width: usize) -> (b: bool)
        ensures
            b == (columns_within(self.group(), width as nat) && self.column() < width),
    {
        crate::data::check_columns_within(&self.group_by, width) && self.over < width
    }

    /// The empty full state on the leading columns is a sound state of the aggregation.
    pub proof fn lemma_empty_coherent(self)
        ensures
            self.coherent(Materialized::empty(self.state_key(), false)),
    {
    }
}

} // verus!
