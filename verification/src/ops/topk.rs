//! The top-k operator: the best rows of each group, in a given order.

use crate::addressing::{IndexPair, LocalNodeIndex, NodeIndex, Remap};
use crate::data::{
    clone_row, columns_within, project, project_row, rows_equal, Comparison, DataType, Delta,
    Record, Row, SignedRow,
};
use crate::processing::{Miss, MissView, ProcessingResult, StateMap, SuggestedIndex};
use crate::ranking::{
    compare_in_order, compare_rows, first, lemma_place_is_insert, lemma_top_k_best,
    lemma_top_k_members, lemma_top_k_sorted, place, sorted, top_k, OrderBy,
};
use crate::state::{LookupResult, Materialized, State};
use vstd::prelude::*;

verus! {

/// How often `x` occurs in `s`.
pub open spec fn count_of(s: Seq<Row>, x: Row) -> nat
    decreases s.len(),
{
    if s.len() == 0 {
        0
    } else {
        count_of(s.drop_last(), x) + if s.last() == x {
            1nat
        } else {
            0nat
        }
    }
}

/// The rows of `a`, in order, that `b` does not make up for: an occurrence of a row in `a`
/// stays if `a` has, up to and with it, more of that row than `b` has in all.
pub open spec fn surplus(a: Seq<Row>, b: Seq<Row>) -> Seq<Row>
    decreases a.len(),
{
    if a.len() == 0 {
        Seq::empty()
    } else if count_of(a, a.last()) > count_of(b, a.last()) {
        surplus(a.drop_last(), b).push(a.last())
    } else {
        surplus(a.drop_last(), b)
    }
}

/// The records that give each of `rows` the sign `positive`.
pub open spec fn signed(positive: bool, rows: Seq<Row>) -> Delta {
    Seq::new(rows.len(), |i: int| SignedRow { positive, row: rows[i] })
}

/// The delta that turns the rows `before` into the rows `after`: the deletion of what
/// `before` has too much of, then the insertion of what `after` has more of.
pub open spec fn change(before: Seq<Row>, after: Seq<Row>) -> Delta {
    signed(false, surplus(before, after)) + signed(true, surplus(after, before))
}

/// What one record does at a top-k operator.
pub struct Ranked {
    /// The operator's state afterwards.
    pub state: Materialized,
    /// The records emitted.
    pub out: Delta,
    /// The misses.
    pub misses: Seq<MissView>,
}

/// Keeps, for each group of its parent's rows, the `k` rows that come first in an order.
/// Its own state holds these rows, keyed on the group; when a record for a group arrives it
/// looks up the rows of the group in the state of its parent, which must be keyed on the
/// group too and must already hold the batch, picks the best, and emits what has changed.
#[derive(Debug)]
pub struct TopK {
    src: IndexPair,
    order: Vec<OrderBy>,
    key: Vec<usize>,
    k: usize,
}

impl TopK {
    /// The parent.
    pub closed spec fn source(self) -> IndexPair {
        self.src
    }

    /// The order of the rows of a group.
    pub closed spec fn ordering(self) -> Seq<OrderBy> {
        self.order@
    }

    /// The columns that rows are grouped by.
    pub closed spec fn group(self) -> Seq<usize> {
        self.key@
    }

    /// How many rows of each group are kept.
    pub closed spec fn limit(self) -> usize {
        self.k
    }

    /// Whether a row of `width` values has the columns of the group and of the order.
    pub open spec fn fits_width(self, width: nat) -> bool {
        &&& columns_within(self.group(), width)
        &&& forall|i: int|
            0 <= i < self.ordering().len() ==> (#[trigger] self.ordering()[i]).column < width
    }

    /// Whether a row has the columns of the group and of the order.
    pub open spec fn fits(self, row: Row) -> bool {
        self.fits_width(row.len())
    }

    /// Whether every row of `delta` fits.
    pub open spec fn accepts(self, delta: Delta) -> bool {
        forall|i: int| 0 <= i < delta.len() ==> self.fits((#[trigger] delta[i]).row)
    }

    /// Whether every row of a state fits.
    pub open spec fn state_fits(self, m: Materialized) -> bool {
        forall|g: Row, i: int|
            m.rows.dom().contains(g) && 0 <= i < m.rows[g].len() ==> self.fits(
                #[trigger] m.rows[g][i],
            )
    }

    /// What one record does, where `own` is the operator's state, on the node `us`, and
    /// `parent` the state of its parent, on the node `above`.
    pub open spec fn step(
        self,
        us: LocalNodeIndex,
        above: LocalNodeIndex,
        own: Materialized,
        parent: Materialized,
        r: SignedRow,
    ) -> Ranked {
        let g = project(r.row, self.group());
        if own.lookup(g).is_none() {
            Ranked {
                state: own,
                out: Seq::empty(),
                misses: seq![MissView { on: us, columns: self.group(), key: g }],
            }
        } else if parent.lookup(g).is_none() {
            Ranked {
                state: own,
                out: Seq::empty(),
                misses: seq![MissView { on: above, columns: self.group(), key: g }],
            }
        } else {
            let best = top_k(self.ordering(), self.limit() as nat, parent.lookup(g).unwrap());
            Ranked {
                state: own.put(g, best),
                out: change(own.lookup(g).unwrap(), best),
                misses: Seq::empty(),
            }
        }
    }

    /// What a batch does: the records are taken one after the other.
    pub open spec fn run(
        self,
        us: LocalNodeIndex,
        above: LocalNodeIndex,
        own: Materialized,
        parent: Materialized,
        delta: Delta,
    ) -> Ranked
        decreases delta.len(),
    {
        if delta.len() == 0 {
            Ranked { state: own, out: Seq::empty(), misses: Seq::empty() }
        } else {
            let before = self.run(us, above, own, parent, delta.drop_last());
            let step = self.step(us, above, before.state, parent, delta.last());
            Ranked {
                state: step.state,
                out: before.out + step.out,
                misses: before.misses + step.misses,
            }
        }
    }

    /// After a record of a group whose lookups hit, the operator's state holds for the
    /// group exactly the best rows of the group as the parent has it: as many as the limit,
    /// or as the group has if those are fewer; in order; each a row of the group; and no
    /// row of the group that is left out is better than the last that is kept.
    pub proof fn lemma_keeps_the_best(
        self,
        us: LocalNodeIndex,
        above: LocalNodeIndex,
        own: Materialized,
        parent: Materialized,
        r: SignedRow,
    )
        requires
            own.lookup(project(r.row, self.group())).is_some(),
            parent.lookup(project(r.row, self.group())).is_some(),
        ensures
            ({
                let g = project(r.row, self.group());
                let all = parent.lookup(g).unwrap();
                let kept = self.step(us, above, own, parent, r).state.lookup(g);
                &&& kept.is_some()
                &&& kept.unwrap() == top_k(self.ordering(), self.limit() as nat, all)
                &&& kept.unwrap().len() == if all.len() < self.limit() {
                    all.len()
                } else {
                    self.limit() as nat
                }
                &&& sorted(self.ordering(), kept.unwrap())
                &&& forall|j: int|
                    0 <= j < kept.unwrap().len() ==> all.contains(#[trigger] kept.unwrap()[j])
                &&& forall|i: int|
                    0 <= i < all.len() ==> kept.unwrap().contains(#[trigger] all[i]) || (
                    kept.unwrap().len() == self.limit() && (self.limit() > 0 ==> compare_rows(
                        self.ordering(),
                        all[i],
                        kept.unwrap().last(),
                    ) != Comparison::Less))
            }),
    {
        let g = project(r.row, self.group());
        let all = parent.lookup(g).unwrap();
        let best = top_k(self.ordering(), self.limit() as nat, all);
        lemma_top_k_sorted(self.ordering(), self.limit() as nat, all);
        lemma_top_k_members(self.ordering(), self.limit() as nat, all);
        lemma_top_k_best(self.ordering(), self.limit() as nat, all);
        let kept = own.put(g, best).lookup(g);
        if best.len() == 0 {
            assert(kept.unwrap() =~= best);
        }
    }

    /// A top-k operator below `src` that keeps the `k` first rows, in the order `order`, of
    /// each group of rows that agree in the columns `key`.
    pub fn new(src: NodeIndex, order: Vec<OrderBy>, key: Vec<usize>, k: usize) -> (t: TopK)
        ensures
            t.source().spec_global() == src,
            t.source().spec_local().is_none(),
            t.ordering() == order@,
            t.group() == key@,
            t.limit() == k,
    {
        TopK { src: IndexPair::new(src), order, key, k }
    }

    /// The operator below `src` that keeps, of each group of rows that agree in the columns
    /// `key`, one row whose value in the column `over` is the least of the group, or the
    /// greatest if `greatest` is set. Projected to the columns of the group and to `over`,
    /// its output is the minimum or the maximum of each group.
    pub fn extremum(src: NodeIndex, over: usize, greatest: bool, key: Vec<usize>) -> (t: TopK)
        ensures
            t.source().spec_global() == src,
            t.source().spec_local().is_none(),
            t.ordering() == seq![OrderBy { column: over, descending: greatest }],
            t.group() == key@,
            t.limit() == 1,
    {
        let mut order: Vec<OrderBy> = Vec::new();
        order.push(OrderBy { column: over, descending: greatest });
        assert(order@ =~= seq![OrderBy { column: over, descending: greatest }]);
        TopK { src: IndexPair::new(src), order, key, k: 1 }
    }

    /// Of rows that are not none, the one row that is kept in the order of the column
    /// `over` alone is a row with the extreme value: no row has a lesser value in that
    /// column, or none a greater one if the order is descending.
    pub proof fn lemma_extremum(over: usize, greatest: bool, all: Seq<Row>)
        requires
            all.len() > 0,
        ensures
            ({
                let order = seq![OrderBy { column: over, descending: greatest }];
                let kept = top_k(order, 1, all);
                &&& kept.len() == 1
                &&& all.contains(kept[0])
                &&& forall|i: int|
                    0 <= i < all.len() ==> crate::data::compare_values(
                        (#[trigger] all[i])[over as int],
                        kept[0][over as int],
                    ) != if greatest {
                        Comparison::Greater
                    } else {
                        Comparison::Less
                    }
            }),
    {
        let order = seq![OrderBy { column: over, descending: greatest }];
        let kept = top_k(order, 1, all);
        lemma_top_k_sorted(order, 1, all);
        lemma_top_k_members(order, 1, all);
        lemma_top_k_best(order, 1, all);
        assert(kept.len() == 1);
        assert(kept.last() == kept[0]);
        assert forall|i: int| 0 <= i < all.len() implies crate::data::compare_values(
            (#[trigger] all[i])[over as int],
            kept[0][over as int],
        ) != if greatest {
            Comparison::Greater
        } else {
            Comparison::Less
        } by {
            let a = all[i];
            let b = kept[0];
            assert(compare_rows(order.skip(1), a, b) == Comparison::Equal);
            assert(order[0] == (OrderBy { column: over, descending: greatest }));
            crate::data::lemma_compare_values_reverse(a[over as int], a[over as int]);
            if kept.contains(a) {
                let j = choose|j: int| 0 <= j < kept.len() && kept[j] == a;
                assert(a == b);
            } else {
                assert(compare_rows(order, a, kept.last()) != Comparison::Less);
            }
        }
    }

    /// The parents of this operator: the one that it was made with.
    pub fn ancestors(&self) -> (a: Vec<NodeIndex>)
        ensures
            a@ == seq![self.source().spec_global()],
    {
        let mut a: Vec<NodeIndex> = Vec::new();
        a.push(self.src.as_global());
        assert(a@ =~= seq![self.source().spec_global()]);
        a
    }

    /// Localizes the reference to the parent.
    pub fn on_commit(&mut self, _us: NodeIndex, remap: &Remap)
        requires
            remap.wf(),
        ensures
            final(self).source() == if remap@.dom().contains(old(self).source().spec_global()) {
                remap@[old(self).source().spec_global()]
            } else {
                old(self).source()
            },
            final(self).ordering() == old(self).ordering(),
            final(self).group() == old(self).group(),
            final(self).limit() == old(self).limit(),
    {
        self.src.remap(remap);
    }

    /// The indices that this operator needs: its own state and its parent's, both keyed on
    /// the group.
    pub fn suggest_indexes(&self, us: NodeIndex) -> (s: Vec<SuggestedIndex>)
        ensures
            s@.len() == 2,
            s@[0].node == us,
            s@[0].columns@ == self.group(),
            !s@[0].unique,
            s@[1].node == self.source().spec_global(),
            s@[1].columns@ == self.group(),
            !s@[1].unique,
    {
        let mut s: Vec<SuggestedIndex> = Vec::new();
        let a = self.key.clone();
        let b = self.key.clone();
        assert(a@ =~= self.key@);
        assert(b@ =~= self.key@);
        s.push(SuggestedIndex { node: us, columns: a, unique: false });
        s.push(SuggestedIndex { node: self.src.as_global(), columns: b, unique: false });
        s
    }

    /// Where column `col` of the output comes from: the same column of the parent.
    pub fn resolve(&self, col: usize) -> (r: Option<Vec<(NodeIndex, usize)>>)
        ensures
            r.is_some(),
            r.unwrap()@ == seq![(self.source().spec_global(), col)],
    {
        let mut v: Vec<(NodeIndex, usize)> = Vec::new();
        v.push((self.src.as_global(), col));
        assert(v@ =~= seq![(self.source().spec_global(), col)]);
        Some(v)
    }

    /// A short description of the operator.
    pub fn description(&self) -> (s: String)
        ensures
            s@ == "TopK"@,
    {
        String::from_str("TopK")
    }

    /// The best rows of `rows`.
    pub fn best_of(&self, rows: &Vec<Vec<DataType>>) -> (best: Vec<Vec<DataType>>)
        requires
            forall|i: int| 0 <= i < rows@.len() ==> self.fits((#[trigger] rows@[i]).deep_view()),
        ensures
            best.deep_view() == top_k(self.ordering(), self.limit() as nat, rows.deep_view()),
            forall|i: int| 0 <= i < best@.len() ==> self.fits((#[trigger] best@[i]).deep_view()),
    {
        let ghost all = rows.deep_view();
        let mut best: Vec<Vec<DataType>> = Vec::new();
        let mut i: usize = 0;
        proof {
            assert(all.take(0) =~= Seq::<Row>::empty());
            assert(best.deep_view() =~= Seq::<Row>::empty());
        }
        while i < rows.len()
            invariant
                i <= rows@.len(),
                all == rows.deep_view(),
                forall|j: int|
                    0 <= j < rows@.len() ==> self.fits((#[trigger] rows@[j]).deep_view()),
                forall|j: int|
                    0 <= j < best@.len() ==> self.fits((#[trigger] best@[j]).deep_view()),
                best.deep_view() == top_k(self.ordering(), self.limit() as nat, all.take(i as int)),
            decreases rows@.len() - i,
        {
            let ghost held = best.deep_view();
            proof {
                assert(all.take(i + 1).drop_last() =~= all.take(i as int));
                assert(all.take(i + 1).last() == all[i as int]);
                assert(all[i as int] == rows@[i as int].deep_view());
                lemma_top_k_sorted(self.ordering(), self.limit() as nat, all.take(i as int));
                assert(best.deep_view().len() == best@.len());
            }
            let row = &rows[i];
            assert(self.fits(row.deep_view()));
            assert(row.deep_view().len() == row@.len());
            // the place of the row: before the rows that it comes first of
            let mut p: usize = best.len();
            let mut placed: bool = false;
            while p > 0 && !placed
                invariant
                    p <= best@.len(),
                    placed ==> p > 0 && compare_rows(
                        self.ordering(),
                        row.deep_view(),
                        held[p - 1],
                    ) != Comparison::Less,
                    held == best.deep_view(),
                    self.fits(row.deep_view()),
                    row.deep_view().len() == row@.len(),
                    forall|j: int|
                        0 <= j < best@.len() ==> self.fits((#[trigger] best@[j]).deep_view()),
                    forall|j: int|
                        p <= j < held.len() ==> compare_rows(
                            self.ordering(),
                            row.deep_view(),
                            #[trigger] held[j],
                        ) == Comparison::Less,
                decreases p, (if placed { 0int } else { 1int }),
            {
                proof {
                    assert(self.fits(best@[p - 1].deep_view()));
                    assert(best@[p - 1].deep_view().len() == best@[p - 1]@.len());
                    assert(held[p - 1] == best@[p - 1].deep_view());
                }
                if compare_in_order(&self.order, row, &best[p - 1]) != Comparison::Less {
                    placed = true;
                } else {
                    p -= 1;
                }
            }
            proof {
                lemma_place_is_insert(self.ordering(), held, row.deep_view(), p as int);
            }
            best.insert(p, clone_row(row));
            proof {
                assert(best.deep_view() =~= held.insert(p as int, row.deep_view()));
                assert forall|j: int| 0 <= j < best@.len() implies self.fits(
                    (#[trigger] best@[j]).deep_view(),
                ) by {
                    assert(best.deep_view()[j] == best@[j].deep_view());
                    if j < p {
                        assert(best.deep_view()[j] == held[j]);
                    } else if j > p {
                        assert(best.deep_view()[j] == held[j - 1]);
                    }
                }
            }
            if best.len() > self.k {
                let ghost longer = best.deep_view();
                best.pop();
                proof {
                    assert(best.deep_view() =~= longer.take(self.k as int));
                }
            }
            i += 1;
        }
        assert(all.take(rows@.len() as int) =~= all);
        best
    }

    /// How often `x` occurs among the first `n` of `rows`.
    fn count_in(rows: &Vec<Vec<DataType>>, n: usize, x: &Vec<DataType>) -> (c: usize)
        requires
            n <= rows@.len(),
        ensures
            c == count_of(rows.deep_view().take(n as int), x.deep_view()),
            c <= n,
    {
        let ghost all = rows.deep_view();
        let mut c: usize = 0;
        let mut i: usize = 0;
        assert(all.take(0) =~= Seq::<Row>::empty());
        while i < n
            invariant
                i <= n <= rows@.len(),
                all == rows.deep_view(),
                c <= i,
                c == count_of(all.take(i as int), x.deep_view()),
            decreases n - i,
        {
            proof {
                assert(all.take(i + 1).drop_last() =~= all.take(i as int));
                assert(all.take(i + 1).last() == all[i as int]);
                assert(all[i as int] == rows@[i as int].deep_view());
            }
            if rows_equal(&rows[i], x) {
                c += 1;
            }
            i += 1;
        }
        c
    }

    /// Appends to `out`, under the sign `positive`, the rows of `a` that `b` does not make
    /// up for.
    fn push_surplus(
        out: &mut Vec<Record>,
        positive: bool,
        a: &Vec<Vec<DataType>>,
        b: &Vec<Vec<DataType>>,
    )
        ensures
            final(out).deep_view() == old(out).deep_view() + signed(
                positive,
                surplus(a.deep_view(), b.deep_view()),
            ),
    {
        let ghost start = out.deep_view();
        let ghost av = a.deep_view();
        let ghost bv = b.deep_view();
        let mut i: usize = 0;
        proof {
            assert(av.take(0) =~= Seq::<Row>::empty());
            assert(out.deep_view() =~= start + signed(positive, surplus(av.take(0), bv)));
            assert(bv.take(b@.len() as int) =~= bv);
        }
        while i < a.len()
            invariant
                i <= a@.len(),
                av == a.deep_view(),
                bv == b.deep_view(),
                bv.take(b@.len() as int) == bv,
                out.deep_view() == start + signed(positive, surplus(av.take(i as int), bv)),
            decreases a@.len() - i,
        {
            let ghost held = out.deep_view();
            let ghost kept = surplus(av.take(i as int), bv);
            proof {
                assert(av.take(i + 1).drop_last() =~= av.take(i as int));
                assert(av.take(i + 1).last() == av[i as int]);
                assert(av[i as int] == a@[i as int].deep_view());
            }
            let mine: usize = Self::count_in(a, i + 1, &a[i]);
            let theirs: usize = Self::count_in(b, b.len(), &a[i]);
            if mine > theirs {
                out.push(Record::signed(positive, clone_row(&a[i])));
                proof {
                    assert(out.deep_view() =~= held.push(
                        SignedRow { positive, row: av[i as int] },
                    ));
                    assert(signed(positive, kept.push(av[i as int])) =~= signed(
                        positive,
                        kept,
                    ).push(SignedRow { positive, row: av[i as int] }));
                    assert(out.deep_view() =~= start + signed(
                        positive,
                        surplus(av.take(i + 1), bv),
                    ));
                }
            }
            i += 1;
        }
        assert(av.take(a@.len() as int) =~= av);
    }

    /// Takes in a batch of records from the parent. For each record the operator looks up
    /// the record's group in its own state `own` and in the state of its parent, picks the
    /// best rows of the group as the parent has it, emits the deletion of the rows that are
    /// no longer among the best and the insertion of those that now are, and keeps the best
    /// in its own state. A lookup that falls into a hole is a miss, on the operator's own
    /// node `us` or on the parent.
    pub fn on_input(
        &self,
        us: LocalNodeIndex,
        rs: Vec<Record>,
        own: &mut State,
        states: &StateMap,
    ) -> (r: ProcessingResult)
        requires
            old(own).wf(),
            states.wf(),
            self.source().spec_local().is_some(),
            states.model(self.source().spec_local().unwrap()).is_some(),
            states.model(self.source().spec_local().unwrap()).unwrap().key == self.group(),
            old(own)@.key == self.group(),
            self.state_fits(states.model(self.source().spec_local().unwrap()).unwrap()),
            self.accepts(rs.deep_view()),
        ensures
            final(own).wf(),
            final(own)@.key == self.group(),
            ({
                let above = self.source().spec_local().unwrap();
                let ran = self.run(
                    us,
                    above,
                    old(own)@,
                    states.model(above).unwrap(),
                    rs.deep_view(),
                );
                &&& final(own)@ == ran.state
                &&& r.delta() == ran.out
                &&& r.missed() == ran.misses
                &&& r.refused().len() == 0
            }),
    {
        let above = self.src.as_local();
        let parent_state = states.get(above).unwrap();
        let ghost parent = parent_state@;
        let ghost start = own@;
        let ghost delta = rs.deep_view();
        let mut out: Vec<Record> = Vec::new();
        let mut misses: Vec<Miss> = Vec::new();
        let mut i: usize = 0;
        proof {
            assert(delta.take(0) =~= Seq::<SignedRow>::empty());
            assert(out.deep_view() =~= Seq::<SignedRow>::empty());
            assert(misses.deep_view() =~= Seq::<MissView>::empty());
        }
        while i < rs.len()
            invariant
                i <= rs@.len(),
                delta == rs.deep_view(),
                parent == parent_state@,
                parent_state.wf(),
                parent.key == self.group(),
                self.state_fits(parent),
                self.accepts(delta),
                own.wf(),
                own@.key == self.group(),
                own@ == self.run(us, above, start, parent, delta.take(i as int)).state,
                out.deep_view() == self.run(us, above, start, parent, delta.take(i as int)).out,
                misses.deep_view() == self.run(
                    us,
                    above,
                    start,
                    parent,
                    delta.take(i as int),
                ).misses,
            decreases rs@.len() - i,
        {
            let ghost before = self.run(us, above, start, parent, delta.take(i as int));
            let ghost rec = delta[i as int];
            let ghost step = self.step(us, above, own@, parent, rec);
            proof {
                assert(delta.take(i + 1).drop_last() =~= delta.take(i as int));
                assert(delta.take(i + 1).last() == rec);
                assert(rec == rs@[i as int]@);
                assert(self.fits(rec.row));
            }
            let row = rs[i].row();
            assert(row@.len() == row.deep_view().len());
            let g = project_row(row, &self.key);
            let ghost gv = g.deep_view();
            if !own.knows(&g) {
                let ghost held = misses.deep_view();
                let columns = self.key.clone();
                assert(columns@ =~= self.key@);
                misses.push(Miss { on: us, columns, key: g });
                proof {
                    assert(misses.deep_view() =~= held + step.misses);
                    assert(before.out + step.out =~= before.out);
                }
            } else {
                match parent_state.lookup(&g) {
                    LookupResult::Miss => {
                        let ghost held = misses.deep_view();
                        let columns = self.key.clone();
                        assert(columns@ =~= self.key@);
                        misses.push(Miss { on: above, columns, key: g });
                        proof {
                            assert(misses.deep_view() =~= held + step.misses);
                            assert(before.out + step.out =~= before.out);
                        }
                    },
                    LookupResult::Hit(all) => {
                        proof {
                            assert(all.deep_view().len() == all@.len());
                            assert forall|j: int| 0 <= j < all@.len() implies self.fits(
                                (#[trigger] all@[j]).deep_view(),
                            ) by {
                                assert(all.deep_view()[j] == all@[j].deep_view());
                                if parent.rows.dom().contains(gv) {
                                    assert(self.fits(parent.rows[gv][j]));
                                }
                            }
                        }
                        let best = self.best_of(all);
                        let ghost bv = best.deep_view();
                        proof {
                            lemma_top_k_members(
                                self.ordering(),
                                self.limit() as nat,
                                all.deep_view(),
                            );
                            assert(gv.len() == self.group().len());
                            assert(own@.files_under(gv, bv)) by {
                                assert forall|j: int| 0 <= j < bv.len() implies {
                                    &&& columns_within(own@.key, (#[trigger] bv[j]).len())
                                    &&& project(bv[j], own@.key) == gv
                                } by {
                                    assert(all.deep_view().contains(bv[j]));
                                    let w = choose|w: int|
                                        0 <= w < all.deep_view().len() && all.deep_view()[w]
                                            == bv[j];
                                    assert(parent.rows.dom().contains(gv));
                                    assert(parent.rows[gv][w] == bv[j]);
                                }
                            }
                        }
                        match own.lookup(&g) {
                            LookupResult::Hit(kept) => {
                                Self::push_surplus(&mut out, false, kept, &best);
                                Self::push_surplus(&mut out, true, &best, kept);
                            },
                            LookupResult::Miss => {},
                        }
                        proof {
                            assert(out.deep_view() =~= before.out + step.out);
                            assert(before.misses + step.misses =~= before.misses);
                        }
                        own.put(&g, best);
                    },
                }
            }
            i += 1;
        }
        assert(delta.take(rs@.len() as int) =~= delta);
        ProcessingResult { results: out, misses, rejected: Vec::new() }
    }

    /// Where column `column` of the output comes from: the same column of the parent.
    pub fn parent_columns(&self, column: usize) -> (r: Vec<(NodeIndex, Option<usize>)>)
        ensures
            r@ == seq![(self.source().spec_global(), Some(column))],
    {
        let mut v: Vec<(NodeIndex, Option<usize>)> = Vec::new();
        v.push((self.src.as_global(), Some(column)));
        assert(v@ =~= seq![(self.source().spec_global(), Some(column))]);
        v
    }

    /// Whether a row of `width` values has the columns of the group and of the order.
    pub fn check_width(&self, width: usize) -> (b: bool)
        ensures
            b == self.fits_width(width as nat),
    {
        if !crate::data::check_columns_within(&self.key, width) {
            return false;
        }
        let mut i: usize = 0;
        while i < self.order.len()
            invariant
                i <= self.order@.len(),
                forall|j: int| 0 <= j < i ==> (#[trigger] self.ordering()[j]).column < width,
            decreases self.order@.len() - i,
        {
            if self.order[i].column >= width {
                assert(!(self.ordering()[i as int].column < width));
                return false;
            }
            i += 1;
        }
        true
    }

    /// The parent.
    pub fn src(&self) -> (p: IndexPair)
        ensures
            p == self.source(),
    {
        self.src
    }

    /// The columns that rows are grouped by.
    pub fn key_columns(&self) -> (k: &Vec<usize>)
        ensures
            k@ == self.group(),
    {
        &self.key
    }

    /// Where the rows of the parent's state and of the operator's state all have `width`
    /// values, those of the operator's state still have after a batch, and the state is
    /// still keyed as it was.
    pub proof fn lemma_run_uniform(
        self,
        us: LocalNodeIndex,
        above: LocalNodeIndex,
        own: Materialized,
        parent: Materialized,
        delta: Delta,
        width: nat,
    )
        requires
            own.uniform(width),
            parent.uniform(width),
        ensures
            self.run(us, above, own, parent, delta).state.uniform(width),
            self.run(us, above, own, parent, delta).state.key == own.key,
            self.run(us, above, own, parent, delta).state.partial == own.partial,
        decreases delta.len(),
    {
        if delta.len() > 0 {
            self.lemma_run_uniform(us, above, own, parent, delta.drop_last(), width);
            let before = self.run(us, above, own, parent, delta.drop_last()).state;
            let g = project(delta.last().row, self.group());
            if before.lookup(g).is_some() && parent.lookup(g).is_some() {
                let all = parent.lookup(g).unwrap();
                let best = top_k(self.ordering(), self.limit() as nat, all);
                lemma_top_k_members(self.ordering(), self.limit() as nat, all);
                assert forall|i: int| 0 <= i < best.len() implies (#[trigger] best[i]).len()
                    == width by {
                    assert(all.contains(best[i]));
                    let w = choose|w: int| 0 <= w < all.len() && all[w] == best[i];
                    assert(parent.rows[g][w] == best[i]);
                }
                before.lemma_uniform_put(g, best, width);
            }
        }
    }
}

} // verus!
