//! The inner join does not care in which order its parents are written to.

use crate::addressing::LocalNodeIndex;
use crate::data::{project, Delta, Row, SignedRow};
use crate::ops::join::{Join, JoinType};
use crate::state::{lemma_lookup_after_insert, Materialized};
use vstd::multiset::Multiset;
use vstd::prelude::*;

verus! {

/// Whether every record of `d` is an insertion.
pub open spec fn all_positive(d: Delta) -> bool {
    forall|i: int| 0 <= i < d.len() ==> (#[trigger] d[i]).positive
}

/// The rows of `d`, in order, that have `k` in the columns `key`.
pub open spec fn matching(d: Delta, key: Seq<usize>, k: Row) -> Seq<Row>
    decreases d.len(),
{
    if d.len() == 0 {
        Seq::empty()
    } else if project(d.last().row, key) == k {
        matching(d.drop_last(), key, k).push(d.last().row)
    } else {
        matching(d.drop_last(), key, k)
    }
}

/// No records make the empty multiset.
pub proof fn lemma_nothing()
    ensures
        Seq::<SignedRow>::empty().to_multiset() == Multiset::<SignedRow>::empty(),
{
    let none = Seq::<SignedRow>::empty();
    assert forall|x: SignedRow| none.to_multiset().count(x) == 0 by {
        vstd::seq_lib::to_multiset_contains(none, x);
    }
    assert(none.to_multiset() =~= Multiset::<SignedRow>::empty());
}

/// A batch of insertions deletes nothing.
pub proof fn lemma_no_negatives(m: Materialized, d: Delta)
    requires
        all_positive(d),
    ensures
        m.apply_negatives(d) == m,
    decreases d.len(),
{
    if d.len() > 0 {
        assert(all_positive(d.drop_last())) by {
            assert forall|i: int| 0 <= i < d.drop_last().len() implies (
            #[trigger] d.drop_last()[i]).positive by {
                assert(d.drop_last()[i] == d[i]);
            }
        }
        lemma_no_negatives(m, d.drop_last());
        assert(d[d.len() - 1].positive);
    }
}

/// A full state that takes in a batch of insertions holds one row more for each record:
/// every written row is counted once.
pub proof fn lemma_size_after_inserts(m: Materialized, d: Delta)
    requires
        !m.partial,
        m.rows.dom().finite(),
        all_positive(d),
    ensures
        m.apply(d).rows.dom().finite(),
        !m.apply(d).partial,
        m.apply(d).key == m.key,
        m.apply(d).size() == m.size() + d.len(),
    decreases d.len(),
{
    lemma_no_negatives(m.apply_positives(d), d);
    lemma_positives_size(m, d);
}

/// The insertions of a batch add one row each to a full state.
pub proof fn lemma_positives_size(m: Materialized, d: Delta)
    requires
        !m.partial,
        m.rows.dom().finite(),
        all_positive(d),
    ensures
        m.apply_positives(d).rows.dom().finite(),
        !m.apply_positives(d).partial,
        m.apply_positives(d).key == m.key,
        m.apply_positives(d).size() == m.size() + d.len(),
    decreases d.len(),
{
    if d.len() > 0 {
        assert(all_positive(d.drop_last())) by {
            assert forall|i: int| 0 <= i < d.drop_last().len() implies (
            #[trigger] d.drop_last()[i]).positive by {
                assert(d.drop_last()[i] == d[i]);
            }
        }
        lemma_positives_size(m, d.drop_last());
        assert(d[d.len() - 1].positive);
        let before = m.apply_positives(d.drop_last());
        before.lemma_size_insert(d.last().row);
    }
}

/// What a full state holds under a key after a batch of insertions: the rows that it held,
/// and after them the rows of the batch that have that key.
pub proof fn lemma_lookup_after_inserts(m: Materialized, d: Delta, k: Row)
    requires
        !m.partial,
        all_positive(d),
    ensures
        m.apply(d).lookup(k) == Some(m.lookup(k).unwrap() + matching(d, m.key, k)),
        !m.apply(d).partial,
        m.apply(d).key == m.key,
    decreases d.len(),
{
    lemma_no_negatives(m.apply_positives(d), d);
    if d.len() == 0 {
        assert(m.lookup(k).unwrap() + matching(d, m.key, k) =~= m.lookup(k).unwrap());
    } else {
        let rest = d.drop_last();
        assert(all_positive(rest)) by {
            assert forall|i: int| 0 <= i < rest.len() implies (#[trigger] rest[i]).positive by {
                assert(rest[i] == d[i]);
            }
        }
        lemma_lookup_after_inserts(m, rest, k);
        lemma_no_negatives(m.apply_positives(rest), rest);
        let before = m.apply_positives(rest);
        assert(d[d.len() - 1].positive);
        lemma_lookup_after_insert(before, d.last().row, k);
        if project(d.last().row, m.key) == k {
            assert((m.lookup(k).unwrap() + matching(rest, m.key, k)).push(d.last().row)
                =~= m.lookup(k).unwrap() + matching(d, m.key, k));
        }
    }
}

/// The rows of two batches, one after the other, that have a key are those of the first and
/// then those of the second.
pub proof fn lemma_matching_concat(a: Delta, b: Delta, key: Seq<usize>, k: Row)
    ensures
        matching(a + b, key, k) == matching(a, key, k) + matching(b, key, k),
    decreases b.len(),
{
    if b.len() == 0 {
        assert(a + b =~= a);
        assert(matching(a, key, k) + matching(b, key, k) =~= matching(a, key, k));
    } else {
        lemma_matching_concat(a, b.drop_last(), key, k);
        assert((a + b).drop_last() =~= a + b.drop_last());
        assert((a + b).last() == b.last());
        assert(matching(a + b, key, k) =~= matching(a, key, k) + matching(b, key, k));
    }
}

/// How often a row occurs among the rows of a batch of insertions that have a key: as often
/// as its insertion occurs in the batch, if it has the key, and else not at all.
pub proof fn lemma_matching_count(d: Delta, key: Seq<usize>, k: Row, x: Row)
    requires
        all_positive(d),
    ensures
        matching(d, key, k).to_multiset().count(x) == if project(x, key) == k {
            d.to_multiset().count(SignedRow { positive: true, row: x })
        } else {
            0
        },
    decreases d.len(),
{
    broadcast use vstd::seq_lib::to_multiset_build;

    if d.len() == 0 {
        vstd::seq_lib::to_multiset_contains(matching(d, key, k), x);
        vstd::seq_lib::to_multiset_contains(d, SignedRow { positive: true, row: x });
    } else {
        let rest = d.drop_last();
        assert(all_positive(rest)) by {
            assert forall|i: int| 0 <= i < rest.len() implies (#[trigger] rest[i]).positive by {
                assert(rest[i] == d[i]);
            }
        }
        lemma_matching_count(rest, key, k, x);
        assert(d =~= rest.push(d.last()));
        assert(d[d.len() - 1].positive);
        assert(d.to_multiset() =~= rest.to_multiset().insert(d.last()));
        if project(d.last().row, key) == k {
            assert(matching(d, key, k).to_multiset() =~= matching(
                rest,
                key,
                k,
            ).to_multiset().insert(d.last().row));
        }
    }
}

/// A full state that takes in two batches of insertions holds under every key the same
/// rows, as a multiset, as when it takes in two other batches that hold together the same
/// records: what a state holds does not depend on the order in which the records reach it.
pub proof fn lemma_same_records_same_rows(
    q: Materialized,
    a1: Delta,
    a2: Delta,
    b1: Delta,
    b2: Delta,
    k: Row,
)
    requires
        !q.partial,
        all_positive(a1),
        all_positive(a2),
        all_positive(b1),
        all_positive(b2),
        (a1 + a2).to_multiset() == (b1 + b2).to_multiset(),
    ensures
        q.apply(a1).apply(a2).lookup(k).is_some(),
        q.apply(b1).apply(b2).lookup(k).is_some(),
        q.apply(a1).apply(a2).lookup(k).unwrap().to_multiset() == q.apply(b1).apply(
            b2,
        ).lookup(k).unwrap().to_multiset(),
{
    broadcast use vstd::seq_lib::lemma_multiset_commutative;

    lemma_lookup_after_inserts(q, a1, k);
    lemma_lookup_after_inserts(q.apply(a1), a2, k);
    lemma_lookup_after_inserts(q, b1, k);
    lemma_lookup_after_inserts(q.apply(b1), b2, k);
    lemma_matching_concat(a1, a2, q.key, k);
    lemma_matching_concat(b1, b2, q.key, k);
    let held = q.lookup(k).unwrap();
    let ma = matching(a1 + a2, q.key, k);
    let mb = matching(b1 + b2, q.key, k);
    assert(q.apply(a1).apply(a2).lookup(k).unwrap() =~= held + ma);
    assert(q.apply(b1).apply(b2).lookup(k).unwrap() =~= held + mb);
    assert(all_positive(a1 + a2));
    assert(all_positive(b1 + b2));
    assert forall|x: Row| ma.to_multiset().count(x) == mb.to_multiset().count(x) by {
        lemma_matching_count(a1 + a2, q.key, k, x);
        lemma_matching_count(b1 + b2, q.key, k, x);
    }
    assert(ma.to_multiset() =~= mb.to_multiset());
}

impl Join {
    /// The join columns of the other side.
    pub open spec fn other_key(self, left: bool) -> Seq<usize> {
        if left {
            self.right_key()
        } else {
            self.left_key()
        }
    }

    /// The records that pair each of the first `n` rows of `d`, which come from the given
    /// side, with the rows of `w`, which come from the other side, that have its join key.
    pub open spec fn cross(self, left: bool, d: Delta, n: int, w: Delta) -> Delta
        decreases n,
    {
        if n <= 0 {
            Seq::empty()
        } else {
            self.cross(left, d, n - 1, w) + self.pairs(
                left,
                true,
                d[n - 1].row,
                matching(w, self.other_key(left), self.key_of(left, d[n - 1].row)),
            )
        }
    }

    /// The record that pairs a left row with a right row, if they agree in the join columns.
    pub open spec fn cell(self, l: Row, r: Row) -> Multiset<SignedRow> {
        if self.key_of(true, l) == self.key_of(false, r) {
            Multiset::singleton(SignedRow { positive: true, row: self.combine(l, r) })
        } else {
            Multiset::empty()
        }
    }

    /// The records that pair the left row `l` with each of the first `m` rows of `rights`
    /// that agrees with it.
    pub open spec fn across(self, l: Row, rights: Delta, m: int) -> Multiset<SignedRow>
        decreases m,
    {
        if m <= 0 {
            Multiset::empty()
        } else {
            self.across(l, rights, m - 1).add(self.cell(l, rights[m - 1].row))
        }
    }

    /// The records that pair each of the first `n` rows of `lefts` that agrees with it with
    /// the right row `r`.
    pub open spec fn down(self, lefts: Delta, n: int, r: Row) -> Multiset<SignedRow>
        decreases n,
    {
        if n <= 0 {
            Multiset::empty()
        } else {
            self.down(lefts, n - 1, r).add(self.cell(lefts[n - 1].row, r))
        }
    }

    /// The records that pair each of the first `n` rows of `lefts` with each of the first
    /// `m` rows of `rights` that agrees with it.
    pub open spec fn grid(self, lefts: Delta, n: int, rights: Delta, m: int) -> Multiset<SignedRow>
        decreases n,
    {
        if n <= 0 {
            Multiset::empty()
        } else {
            self.grid(lefts, n - 1, rights, m).add(self.across(lefts[n - 1].row, rights, m))
        }
    }

    /// The grid with one more right row has the pairs of that row more.
    pub proof fn lemma_grid_column(self, lefts: Delta, n: int, rights: Delta, m: int)
        requires
            0 <= n,
            0 < m,
        ensures
            self.grid(lefts, n, rights, m) == self.grid(lefts, n, rights, m - 1).add(
                self.down(lefts, n, rights[m - 1].row),
            ),
        decreases n,
    {
        if n > 0 {
            self.lemma_grid_column(lefts, n - 1, rights, m);
            assert(self.grid(lefts, n, rights, m) =~= self.grid(lefts, n, rights, m - 1).add(
                self.down(lefts, n, rights[m - 1].row),
            ));
        } else {
            assert(self.grid(lefts, n, rights, m) =~= self.grid(lefts, n, rights, m - 1).add(
                self.down(lefts, n, rights[m - 1].row),
            ));
        }
    }

    /// The records that pair a left row with the right rows of its key are the pairs of the
    /// row across the right rows.
    pub proof fn lemma_pairs_across(self, l: Row, rights: Delta)
        ensures
            self.pairs(
                true,
                true,
                l,
                matching(rights, self.right_key(), self.key_of(true, l)),
            ).to_multiset() == self.across(l, rights, rights.len() as int),
        decreases rights.len(),
    {
        broadcast use vstd::seq_lib::to_multiset_build;

        let k = self.key_of(true, l);
        if rights.len() == 0 {
            assert(self.pairs(true, true, l, matching(rights, self.right_key(), k))
                =~= Seq::<SignedRow>::empty());
            lemma_nothing();
        } else {
            let rest = rights.drop_last();
            self.lemma_pairs_across(l, rest);
            self.lemma_across_prefix(l, rest, rights, rest.len() as int);
            let r = rights.last().row;
            if self.key_of(false, r) == k {
                self.lemma_pairs_push(true, true, l, matching(rest, self.right_key(), k), r);
                assert(self.across(l, rights, rights.len() as int) =~= self.across(
                    l,
                    rights,
                    rights.len() - 1,
                ).insert(SignedRow { positive: true, row: self.combine(l, r) }));
            } else {
                assert(self.across(l, rights, rights.len() as int) =~= self.across(
                    l,
                    rights,
                    rights.len() - 1,
                ));
            }
        }
    }

    /// The pairs across the first right rows are the same whatever follows them.
    pub proof fn lemma_across_prefix(self, l: Row, a: Delta, b: Delta, m: int)
        requires
            0 <= m <= a.len(),
            m <= b.len(),
            forall|j: int| 0 <= j < m ==> a[j] == b[j],
        ensures
            self.across(l, a, m) == self.across(l, b, m),
        decreases m,
    {
        if m > 0 {
            self.lemma_across_prefix(l, a, b, m - 1);
        }
    }

    /// The pairs down the first left rows are the same whatever follows them.
    pub proof fn lemma_down_prefix(self, a: Delta, b: Delta, n: int, r: Row)
        requires
            0 <= n <= a.len(),
            n <= b.len(),
            forall|j: int| 0 <= j < n ==> a[j] == b[j],
        ensures
            self.down(a, n, r) == self.down(b, n, r),
        decreases n,
    {
        if n > 0 {
            self.lemma_down_prefix(a, b, n - 1, r);
        }
    }

    /// The records that pair a right row with the left rows of its key are the pairs of the
    /// row down the left rows.
    pub proof fn lemma_pairs_down(self, lefts: Delta, r: Row)
        ensures
            self.pairs(
                false,
                true,
                r,
                matching(lefts, self.left_key(), self.key_of(false, r)),
            ).to_multiset() == self.down(lefts, lefts.len() as int, r),
        decreases lefts.len(),
    {
        broadcast use vstd::seq_lib::to_multiset_build;

        let k = self.key_of(false, r);
        if lefts.len() == 0 {
            assert(self.pairs(false, true, r, matching(lefts, self.left_key(), k))
                =~= Seq::<SignedRow>::empty());
            lemma_nothing();
        } else {
            let rest = lefts.drop_last();
            self.lemma_pairs_down(rest, r);
            self.lemma_down_prefix(rest, lefts, rest.len() as int, r);
            let l = lefts.last().row;
            if self.key_of(true, l) == k {
                self.lemma_pairs_push(false, true, r, matching(rest, self.left_key(), k), l);
                assert(self.down(lefts, lefts.len() as int, r) =~= self.down(
                    lefts,
                    lefts.len() - 1,
                    r,
                ).insert(SignedRow { positive: true, row: self.combine(l, r) }));
            } else {
                assert(self.down(lefts, lefts.len() as int, r) =~= self.down(
                    lefts,
                    lefts.len() - 1,
                    r,
                ));
            }
        }
    }

    /// The records that pair the left rows with the right rows of their keys make up the
    /// grid.
    pub proof fn lemma_cross_left(self, lefts: Delta, n: int, rights: Delta)
        requires
            0 <= n <= lefts.len(),
        ensures
            self.cross(true, lefts, n, rights).to_multiset() == self.grid(
                lefts,
                n,
                rights,
                rights.len() as int,
            ),
        decreases n,
    {
        broadcast use vstd::seq_lib::lemma_multiset_commutative;

        if n > 0 {
            self.lemma_cross_left(lefts, n - 1, rights);
            self.lemma_pairs_across(lefts[n - 1].row, rights);
        } else {
            lemma_nothing();
        }
    }

    /// The records that pair the right rows with the left rows of their keys make up the
    /// grid.
    pub proof fn lemma_cross_right(self, lefts: Delta, rights: Delta, m: int)
        requires
            0 <= m <= rights.len(),
        ensures
            self.cross(false, rights, m, lefts).to_multiset() == self.grid(
                lefts,
                lefts.len() as int,
                rights,
                m,
            ),
        decreases m,
    {
        broadcast use vstd::seq_lib::lemma_multiset_commutative;

        if m > 0 {
            self.lemma_cross_right(lefts, rights, m - 1);
            self.lemma_pairs_down(lefts, rights[m - 1].row);
            self.lemma_grid_column(lefts, lefts.len() as int, rights, m);
        } else {
            lemma_nothing();
            self.lemma_grid_nothing(lefts, lefts.len() as int, rights);
        }
    }

    /// The grid of no right rows is empty.
    pub proof fn lemma_grid_nothing(self, lefts: Delta, n: int, rights: Delta)
        ensures
            self.grid(lefts, n, rights, 0) == Multiset::<SignedRow>::empty(),
        decreases n,
    {
        if n > 0 {
            self.lemma_grid_nothing(lefts, n - 1, rights);
            assert(self.grid(lefts, n, rights, 0) =~= Multiset::<SignedRow>::empty());
        }
    }

    /// Where the state of the other parent holds, under every key, the rows that another
    /// state holds and after them the rows of `w` with that key, an inner join emits for a
    /// batch of insertions what it would emit against that other state, and the pairs of
    /// the batch with `w`.
    pub proof fn lemma_run_split(
        self,
        left: bool,
        beyond: LocalNodeIndex,
        right: LocalNodeIndex,
        other: Materialized,
        grown: Materialized,
        own: Materialized,
        own_grown: Materialized,
        d: Delta,
        n: int,
        w: Delta,
    )
        requires
            self.join_type() == JoinType::Inner,
            !other.partial,
            !grown.partial,
            all_positive(d),
            0 <= n <= d.len(),
            forall|k: Row| #[trigger]
                grown.lookup(k) == Some(
                    other.lookup(k).unwrap() + matching(w, self.other_key(left), k),
                ),
        ensures
            self.run(left, beyond, right, grown, own_grown, d, n).out.to_multiset() == self.run(
                left,
                beyond,
                right,
                other,
                own,
                d,
                n,
            ).out.to_multiset().add(self.cross(left, d, n, w).to_multiset()),
        decreases n,
    {
        broadcast use vstd::seq_lib::lemma_multiset_commutative;

        if n > 0 {
            self.lemma_run_split(left, beyond, right, other, grown, own, own_grown, d, n - 1, w);
            let row = d[n - 1].row;
            let k = self.key_of(left, row);
            let a = other.lookup(k).unwrap();
            let b = matching(w, self.other_key(left), k);
            assert(grown.lookup(k) == Some(a + b));
            assert(d[n - 1].positive);
            assert(self.pairs(left, true, row, a + b) =~= self.pairs(left, true, row, a)
                + self.pairs(left, true, row, b));
            let small = self.run(left, beyond, right, other, own, d, n - 1).out;
            let big = self.run(left, beyond, right, grown, own_grown, d, n - 1).out;
            let pa = self.pairs(left, true, row, a);
            let pb = self.pairs(left, true, row, b);
            let c = self.cross(left, d, n - 1, w);
            assert(self.run(left, beyond, right, grown, own_grown, d, n).out == big + (pa + pb));
            assert(self.run(left, beyond, right, other, own, d, n).out == small + pa);
            assert(self.cross(left, d, n, w) == c + pb);
            assert((big + (pa + pb)).to_multiset() =~= big.to_multiset().add(
                pa.to_multiset().add(pb.to_multiset()),
            ));
            assert((small + pa).to_multiset().add((c + pb).to_multiset())
                =~= small.to_multiset().add(pa.to_multiset()).add(
                c.to_multiset().add(pb.to_multiset()),
            ));
            assert(big.to_multiset().add(pa.to_multiset().add(pb.to_multiset()))
                =~= small.to_multiset().add(pa.to_multiset()).add(
                c.to_multiset().add(pb.to_multiset()),
            ));
        } else {
            lemma_nothing();
        }
    }

    /// With both parents fully materialized, an inner join emits the same records for a
    /// batch of insertions on the left and a batch of insertions on the right, whichever of
    /// the two batches is applied and seen first: the records that it emits for the left
    /// batch and then for the right batch are, as a multiset, the records that it emits for
    /// the right batch and then for the left batch. A state downstream that takes in what
    /// the join emits therefore holds the same rows either way. Each parent's state holds
    /// its own batch when the join sees that batch, and holds the other's batch if that
    /// batch came first.
    pub proof fn lemma_batches_commute(
        self,
        left_node: LocalNodeIndex,
        right_node: LocalNodeIndex,
        lefts: Materialized,
        rights: Materialized,
        wl: Delta,
        wr: Delta,
    )
        requires
            self.join_type() == JoinType::Inner,
            !lefts.partial,
            !rights.partial,
            lefts.key == self.left_key(),
            rights.key == self.right_key(),
            all_positive(wl),
            all_positive(wr),
        ensures
            ({
                let lefts_after = lefts.apply(wl);
                let rights_after = rights.apply(wr);
                // the batch on the left first
                let first_l = self.run(
                    true,
                    right_node,
                    right_node,
                    rights,
                    rights,
                    wl,
                    wl.len() as int,
                ).out;
                let then_r = self.run(
                    false,
                    left_node,
                    right_node,
                    lefts_after,
                    rights_after,
                    wr,
                    wr.len() as int,
                ).out;
                // the batch on the right first
                let first_r = self.run(
                    false,
                    left_node,
                    right_node,
                    lefts,
                    rights_after,
                    wr,
                    wr.len() as int,
                ).out;
                let then_l = self.run(
                    true,
                    right_node,
                    right_node,
                    rights_after,
                    rights_after,
                    wl,
                    wl.len() as int,
                ).out;
                (first_l + then_r).to_multiset() == (first_r + then_l).to_multiset()
            }),
    {
        broadcast use vstd::seq_lib::lemma_multiset_commutative;

        let lefts_after = lefts.apply(wl);
        let rights_after = rights.apply(wr);
        assert forall|k: Row| #[trigger]
            lefts_after.lookup(k) == Some(
                lefts.lookup(k).unwrap() + matching(wl, self.other_key(false), k),
            ) by {
            lemma_lookup_after_inserts(lefts, wl, k);
        }
        assert forall|k: Row| #[trigger]
            rights_after.lookup(k) == Some(
                rights.lookup(k).unwrap() + matching(wr, self.other_key(true), k),
            ) by {
            lemma_lookup_after_inserts(rights, wr, k);
        }
        lemma_lookup_after_inserts(lefts, wl, Seq::empty());
        lemma_lookup_after_inserts(rights, wr, Seq::empty());
        let n = wl.len() as int;
        let m = wr.len() as int;
        let first_l = self.run(true, right_node, right_node, rights, rights, wl, n).out;
        let then_r = self.run(false, left_node, right_node, lefts_after, rights_after, wr, m).out;
        let first_r = self.run(false, left_node, right_node, lefts, rights_after, wr, m).out;
        let then_l = self.run(true, right_node, right_node, rights_after, rights_after, wl, n).out;
        // the right batch against the grown left state: what it gives against the left state
        // as it was, and the pairs of the two batches
        self.lemma_run_split(
            false,
            left_node,
            right_node,
            lefts,
            lefts_after,
            rights_after,
            rights_after,
            wr,
            m,
            wl,
        );
        // the left batch against the grown right state
        self.lemma_run_split(
            true,
            right_node,
            right_node,
            rights,
            rights_after,
            rights,
            rights_after,
            wl,
            n,
            wr,
        );
        self.lemma_cross_left(wl, n, wr);
        self.lemma_cross_right(wl, wr, m);
        let g = self.grid(wl, n, wr, m);
        assert(then_r.to_multiset() == first_r.to_multiset().add(g));
        assert(then_l.to_multiset() == first_l.to_multiset().add(g));
        assert((first_l + then_r).to_multiset() =~= first_l.to_multiset().add(
            first_r.to_multiset().add(g),
        ));
        assert((first_r + then_l).to_multiset() =~= first_r.to_multiset().add(
            first_l.to_multiset().add(g),
        ));
        assert(first_l.to_multiset().add(first_r.to_multiset().add(g))
            =~= first_r.to_multiset().add(first_l.to_multiset().add(g)));
    }

    /// An inner join emits insertions only for a batch of insertions.
    pub proof fn lemma_run_all_positive(
        self,
        left: bool,
        beyond: LocalNodeIndex,
        right: LocalNodeIndex,
        other: Materialized,
        own: Materialized,
        delta: Delta,
        n: int,
    )
        requires
            self.join_type() == JoinType::Inner,
            all_positive(delta),
            0 <= n <= delta.len(),
        ensures
            all_positive(self.run(left, beyond, right, other, own, delta, n).out),
        decreases n,
    {
        if n > 0 {
            self.lemma_run_all_positive(left, beyond, right, other, own, delta, n - 1);
            let before = self.run(left, beyond, right, other, own, delta, n - 1).out;
            let step = self.step(left, beyond, right, other, own, delta, n - 1).out;
            assert(delta[n - 1].positive);
            assert(all_positive(step));
            let all = before + step;
            assert forall|i: int| 0 <= i < all.len() implies (#[trigger] all[i]).positive by {
                if i < before.len() {
                    assert(all[i] == before[i]);
                } else {
                    assert(all[i] == step[i - before.len()]);
                }
            }
        }
    }

    /// A reader below an inner join of two fully materialized parents sees the same,
    /// whichever of a batch of insertions on the left and one on the right reaches the
    /// join first: a full state `below` that takes in what the join emits holds under every
    /// key the same rows, as a multiset, and so as many, in either order.
    pub proof fn lemma_reader_sees_the_same(
        self,
        left_node: LocalNodeIndex,
        right_node: LocalNodeIndex,
        lefts: Materialized,
        rights: Materialized,
        wl: Delta,
        wr: Delta,
        below: Materialized,
        k: Row,
    )
        requires
            self.join_type() == JoinType::Inner,
            !lefts.partial,
            !rights.partial,
            lefts.key == self.left_key(),
            rights.key == self.right_key(),
            all_positive(wl),
            all_positive(wr),
            !below.partial,
        ensures
            ({
                let lefts_after = lefts.apply(wl);
                let rights_after = rights.apply(wr);
                let first_l = self.run(
                    true,
                    right_node,
                    right_node,
                    rights,
                    rights,
                    wl,
                    wl.len() as int,
                ).out;
                let then_r = self.run(
                    false,
                    left_node,
                    right_node,
                    lefts_after,
                    rights_after,
                    wr,
                    wr.len() as int,
                ).out;
                let first_r = self.run(
                    false,
                    left_node,
                    right_node,
                    lefts,
                    rights_after,
                    wr,
                    wr.len() as int,
                ).out;
                let then_l = self.run(
                    true,
                    right_node,
                    right_node,
                    rights_after,
                    rights_after,
                    wl,
                    wl.len() as int,
                ).out;
                let one = below.apply(first_l).apply(then_r).lookup(k);
                let other = below.apply(first_r).apply(then_l).lookup(k);
                &&& one.is_some()
                &&& other.is_some()
                &&& one.unwrap().to_multiset() == other.unwrap().to_multiset()
                &&& one.unwrap().len() == other.unwrap().len()
            }),
    {
        let lefts_after = lefts.apply(wl);
        let rights_after = rights.apply(wr);
        let n = wl.len() as int;
        let m = wr.len() as int;
        self.lemma_batches_commute(left_node, right_node, lefts, rights, wl, wr);
        self.lemma_run_all_positive(true, right_node, right_node, rights, rights, wl, n);
        self.lemma_run_all_positive(false, left_node, right_node, lefts_after, rights_after, wr, m);
        self.lemma_run_all_positive(false, left_node, right_node, lefts, rights_after, wr, m);
        self.lemma_run_all_positive(true, right_node, right_node, rights_after, rights_after, wl, n);
        let first_l = self.run(true, right_node, right_node, rights, rights, wl, n).out;
        let then_r = self.run(false, left_node, right_node, lefts_after, rights_after, wr, m).out;
        let first_r = self.run(false, left_node, right_node, lefts, rights_after, wr, m).out;
        let then_l = self.run(true, right_node, right_node, rights_after, rights_after, wl, n).out;
        lemma_same_records_same_rows(below, first_l, then_r, first_r, then_l, k);
        let one = below.apply(first_l).apply(then_r).lookup(k).unwrap();
        let other = below.apply(first_r).apply(then_l).lookup(k).unwrap();
        one.to_multiset_ensures();
        other.to_multiset_ensures();
    }
}

} // verus!
