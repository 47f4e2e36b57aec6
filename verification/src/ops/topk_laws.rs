//! What a reader below a top-k operator holds: the best rows of each group, as many as the
//! operator keeps.

use crate::addressing::LocalNodeIndex;
use crate::data::{columns_within, project, Delta, Row, SignedRow};
use crate::ops::topk::{change, count_of, signed, surplus, TopK};
use crate::ranking::{lemma_top_k_members, lemma_top_k_sorted, top_k};
use crate::state::{last_index_of, lemma_last_index_in_range, Materialized};
use vstd::prelude::*;

verus! {

/// Counting the occurrences of a row is counting it in the multiset of the rows.
pub proof fn lemma_count_is_multiset_count(s: Seq<Row>, x: Row)
    ensures
        count_of(s, x) == s.to_multiset().count(x),
    decreases s.len(),
{
    broadcast use vstd::multiset::group_multiset_axioms;

    if s.len() == 0 {
        s.to_multiset_ensures();
        assert(s.to_multiset().len() == 0);
    } else {
        lemma_count_is_multiset_count(s.drop_last(), x);
        vstd::seq_lib::to_multiset_build(s.drop_last(), s.last());
        assert(s.drop_last().push(s.last()) =~= s);
    }
}

/// A position that is taken out takes one occurrence of its row with it.
pub proof fn lemma_count_remove(s: Seq<Row>, i: int, x: Row)
    requires
        0 <= i < s.len(),
    ensures
        count_of(s.remove(i), x) + (if s[i] == x {
            1nat
        } else {
            0nat
        }) == count_of(s, x),
    decreases s.len(),
{
    if i == s.len() - 1 {
        assert(s.remove(i) =~= s.drop_last());
    } else {
        lemma_count_remove(s.drop_last(), i, x);
        assert(s.remove(i).drop_last() =~= s.drop_last().remove(i));
        assert(s.remove(i).last() == s.last());
    }
}

/// A row has a last position where it occurs at all.
pub proof fn lemma_occurs(s: Seq<Row>, x: Row)
    ensures
        (last_index_of(s, x) >= 0) == (count_of(s, x) > 0),
    decreases s.len(),
{
    if s.len() > 0 && s.last() != x {
        lemma_occurs(s.drop_last(), x);
    }
}

/// The rows that `a` has more of than `b`: of each row, as many as `a` has more.
pub proof fn lemma_surplus_count(a: Seq<Row>, b: Seq<Row>, x: Row)
    ensures
        count_of(surplus(a, b), x) == if count_of(a, x) > count_of(b, x) {
            count_of(a, x) - count_of(b, x)
        } else {
            0
        },
    decreases a.len(),
{
    if a.len() > 0 {
        lemma_surplus_count(a.drop_last(), b, x);
        if count_of(a, a.last()) > count_of(b, a.last()) {
            assert(surplus(a, b).drop_last() =~= surplus(a.drop_last(), b));
        }
    }
}

/// The state `m` after the rows `rows` have been inserted, in order.
pub open spec fn insert_all(m: Materialized, rows: Seq<Row>) -> Materialized
    decreases rows.len(),
{
    if rows.len() == 0 {
        m
    } else {
        insert_all(m, rows.drop_last()).insert(rows.last())
    }
}

/// The state `m` after the rows `rows` have been deleted, in order.
pub open spec fn remove_all(m: Materialized, rows: Seq<Row>) -> Materialized
    decreases rows.len(),
{
    if rows.len() == 0 {
        m
    } else {
        remove_all(m, rows.drop_last()).remove(rows.last())
    }
}

/// Applying the deletion of some rows and the insertion of others inserts the ones, and then
/// deletes the others.
pub proof fn lemma_apply_signed(m: Materialized, gone: Seq<Row>, come: Seq<Row>)
    ensures
        m.apply(signed(false, gone) + signed(true, come)) == remove_all(insert_all(m, come), gone),
{
    lemma_positives_of(m, gone, come);
    lemma_negatives_of(insert_all(m, come), gone, come);
}

/// The insertions of such a delta.
pub proof fn lemma_positives_of(m: Materialized, gone: Seq<Row>, come: Seq<Row>)
    ensures
        m.apply_positives(signed(false, gone) + signed(true, come)) == insert_all(m, come),
    decreases come.len(), gone.len(),
{
    let delta = signed(false, gone) + signed(true, come);
    if come.len() > 0 {
        lemma_positives_of(m, gone, come.drop_last());
        assert(delta.drop_last() =~= signed(false, gone) + signed(true, come.drop_last()));
        assert(delta.last() == SignedRow { positive: true, row: come.last() });
    } else if gone.len() > 0 {
        lemma_positives_of(m, gone.drop_last(), come);
        assert(delta.drop_last() =~= signed(false, gone.drop_last()) + signed(true, come));
        assert(delta.last() == SignedRow { positive: false, row: gone.last() });
    } else {
        assert(delta =~= Seq::<SignedRow>::empty());
    }
}

/// The deletions of such a delta.
pub proof fn lemma_negatives_of(m: Materialized, gone: Seq<Row>, come: Seq<Row>)
    ensures
        m.apply_negatives(signed(false, gone) + signed(true, come)) == remove_all(m, gone),
    decreases come.len(), gone.len(),
{
    let delta = signed(false, gone) + signed(true, come);
    if come.len() > 0 {
        lemma_negatives_of(m, gone, come.drop_last());
        assert(delta.drop_last() =~= signed(false, gone) + signed(true, come.drop_last()));
        assert(delta.last() == SignedRow { positive: true, row: come.last() });
    } else if gone.len() > 0 {
        lemma_negatives_of(m, gone.drop_last(), come);
        assert(delta.drop_last() =~= signed(false, gone.drop_last()) + signed(true, come));
        assert(delta.last() == SignedRow { positive: false, row: gone.last() });
    } else {
        assert(delta =~= Seq::<SignedRow>::empty());
    }
}

/// Whether every one of `rows` has the key `g` in the columns `key`.
pub open spec fn all_under(rows: Seq<Row>, key: Seq<usize>, g: Row) -> bool {
    forall|i: int| 0 <= i < rows.len() ==> project(#[trigger] rows[i], key) == g
}

/// What a full state holds of a row under a key after rows of that key have been inserted:
/// what it held, and the inserted occurrences.
pub proof fn lemma_insert_all_count(m: Materialized, rows: Seq<Row>, g: Row, x: Row)
    requires
        !m.partial,
        all_under(rows, m.key, g),
    ensures
        !insert_all(m, rows).partial,
        insert_all(m, rows).key == m.key,
        insert_all(m, rows).lookup(g).is_some(),
        count_of(insert_all(m, rows).lookup(g).unwrap(), x) == count_of(m.lookup(g).unwrap(), x)
            + count_of(rows, x),
    decreases rows.len(),
{
    if rows.len() > 0 {
        assert(all_under(rows.drop_last(), m.key, g)) by {
            assert forall|i: int| 0 <= i < rows.drop_last().len() implies project(
                #[trigger] rows.drop_last()[i],
                m.key,
            ) == g by {
                assert(rows.drop_last()[i] == rows[i]);
            }
        }
        lemma_insert_all_count(m, rows.drop_last(), g, x);
        let before = insert_all(m, rows.drop_last());
        let row = rows.last();
        assert(project(row, m.key) == g);
        if before.rows.dom().contains(g) {
            assert(before.rows[g].push(row).drop_last() =~= before.rows[g]);
        } else {
            assert(seq![row].drop_last() =~= Seq::<Row>::empty());
        }
    }
}

/// What a full state holds of a row under a key after rows of that key have been deleted,
/// where it held each of them as often as it is deleted: what it held, less the deleted
/// occurrences.
pub proof fn lemma_remove_all_count(m: Materialized, rows: Seq<Row>, g: Row, x: Row)
    requires
        !m.partial,
        all_under(rows, m.key, g),
        forall|y: Row| count_of(m.lookup(g).unwrap(), y) >= count_of(rows, y),
    ensures
        !remove_all(m, rows).partial,
        remove_all(m, rows).key == m.key,
        remove_all(m, rows).lookup(g).is_some(),
        count_of(remove_all(m, rows).lookup(g).unwrap(), x) + count_of(rows, x) == count_of(
            m.lookup(g).unwrap(),
            x,
        ),
    decreases rows.len(),
{
    if rows.len() > 0 {
        let init = rows.drop_last();
        let row = rows.last();
        assert(all_under(init, m.key, g)) by {
            assert forall|i: int| 0 <= i < init.len() implies project(#[trigger] init[i], m.key)
                == g by {
                assert(init[i] == rows[i]);
            }
        }
        assert forall|y: Row| count_of(m.lookup(g).unwrap(), y) >= count_of(init, y) by {
            assert(count_of(m.lookup(g).unwrap(), y) >= count_of(rows, y));
        }
        lemma_remove_all_count(m, init, g, x);
        lemma_remove_all_count(m, init, g, row);
        let before = remove_all(m, init);
        let held = before.lookup(g).unwrap();
        assert(project(row, m.key) == g);
        assert(count_of(m.lookup(g).unwrap(), row) >= count_of(rows, row));
        assert(count_of(held, row) >= 1);
        lemma_occurs(held, row);
        assert(before.rows.dom().contains(g)) by {
            if !before.rows.dom().contains(g) {
                assert(held =~= Seq::<Row>::empty());
            }
        }
        lemma_last_index_in_range(held, row);
        let at = last_index_of(held, row);
        lemma_count_remove(held, at, x);
        let rest = held.remove(at);
        if rest.len() == 0 {
            assert(count_of(rest, x) == 0);
        }
    }
}

/// Whether a record of `delta` has the key `g` in the columns `key`.
pub open spec fn touches(delta: Delta, key: Seq<usize>, g: Row) -> bool {
    exists|i: int| 0 <= i < delta.len() && project((#[trigger] delta[i]).row, key) == g
}

/// A batch leaves the keys alone that none of its records has: the insertions.
pub proof fn lemma_positives_elsewhere(m: Materialized, delta: Delta, g: Row)
    requires
        !touches(delta, m.key, g),
    ensures
        m.apply_positives(delta).lookup(g) == m.lookup(g),
        m.apply_positives(delta).key == m.key,
        m.apply_positives(delta).partial == m.partial,
    decreases delta.len(),
{
    if delta.len() > 0 {
        assert(!touches(delta.drop_last(), m.key, g)) by {
            if touches(delta.drop_last(), m.key, g) {
                let i = choose|i: int|
                    0 <= i < delta.drop_last().len() && project(
                        (#[trigger] delta.drop_last()[i]).row,
                        m.key,
                    ) == g;
                assert(delta[i] == delta.drop_last()[i]);
            }
        }
        lemma_positives_elsewhere(m, delta.drop_last(), g);
        assert(project(delta[delta.len() - 1].row, m.key) != g);
    }
}

/// A batch leaves the keys alone that none of its records has: the deletions.
pub proof fn lemma_negatives_elsewhere(m: Materialized, delta: Delta, g: Row)
    requires
        !touches(delta, m.key, g),
    ensures
        m.apply_negatives(delta).lookup(g) == m.lookup(g),
        m.apply_negatives(delta).key == m.key,
        m.apply_negatives(delta).partial == m.partial,
    decreases delta.len(),
{
    if delta.len() > 0 {
        assert(!touches(delta.drop_last(), m.key, g)) by {
            if touches(delta.drop_last(), m.key, g) {
                let i = choose|i: int|
                    0 <= i < delta.drop_last().len() && project(
                        (#[trigger] delta.drop_last()[i]).row,
                        m.key,
                    ) == g;
                assert(delta[i] == delta.drop_last()[i]);
            }
        }
        lemma_negatives_elsewhere(m, delta.drop_last(), g);
        assert(project(delta[delta.len() - 1].row, m.key) != g);
    }
}

/// A batch leaves the keys alone that none of its records has.
pub proof fn lemma_apply_elsewhere(m: Materialized, delta: Delta, g: Row)
    requires
        !touches(delta, m.key, g),
    ensures
        m.apply(delta).lookup(g) == m.lookup(g),
        m.apply(delta).key == m.key,
        m.apply(delta).partial == m.partial,
{
    lemma_positives_elsewhere(m, delta, g);
    lemma_negatives_elsewhere(m.apply_positives(delta), delta, g);
}

/// How many insertions of the row `x` the batch `delta` holds, where `x` has the key `k` in
/// the columns `key`; none where it has another key.
pub open spec fn come(delta: Delta, key: Seq<usize>, k: Row, x: Row) -> nat
    decreases delta.len(),
{
    if delta.len() == 0 {
        0
    } else {
        come(delta.drop_last(), key, k, x) + if delta.last().positive && delta.last().row == x
            && project(x, key) == k {
            1nat
        } else {
            0nat
        }
    }
}

/// How many deletions of the row `x` the batch `delta` holds, where `x` has the key `k` in
/// the columns `key`; none where it has another key.
pub open spec fn gone(delta: Delta, key: Seq<usize>, k: Row, x: Row) -> nat
    decreases delta.len(),
{
    if delta.len() == 0 {
        0
    } else {
        gone(delta.drop_last(), key, k, x) + if !delta.last().positive && delta.last().row == x
            && project(x, key) == k {
            1nat
        } else {
            0nat
        }
    }
}

/// What a full state holds of a row under a key after the insertions of a batch: what it
/// held, and the insertions of the row.
pub proof fn lemma_come_count(m: Materialized, delta: Delta, k: Row, x: Row)
    requires
        !m.partial,
    ensures
        !m.apply_positives(delta).partial,
        m.apply_positives(delta).key == m.key,
        m.apply_positives(delta).lookup(k).is_some(),
        count_of(m.apply_positives(delta).lookup(k).unwrap(), x) == count_of(
            m.lookup(k).unwrap(),
            x,
        ) + come(delta, m.key, k, x),
    decreases delta.len(),
{
    if delta.len() > 0 {
        lemma_come_count(m, delta.drop_last(), k, x);
        if delta.last().positive {
            let before = m.apply_positives(delta.drop_last());
            let row = delta.last().row;
            crate::state::lemma_lookup_after_insert(before, row, k);
            if project(row, m.key) == k {
                let held = before.lookup(k).unwrap();
                assert(held.push(row).drop_last() =~= held);
            }
        }
    }
}

/// What a full state holds under a key after the deletion of a row that it holds under
/// the key of the row: one occurrence of the row less, and everything else as it was.
pub proof fn lemma_remove_count(m: Materialized, row: Row, k: Row, x: Row)
    requires
        !m.partial,
        count_of(m.lookup(project(row, m.key)).unwrap(), row) >= 1,
    ensures
        !m.remove(row).partial,
        m.remove(row).key == m.key,
        m.remove(row).lookup(k).is_some(),
        count_of(m.remove(row).lookup(k).unwrap(), x) + (if row == x && project(row, m.key) == k {
            1nat
        } else {
            0nat
        }) == count_of(m.lookup(k).unwrap(), x),
{
    let kr = project(row, m.key);
    let held = m.lookup(kr).unwrap();
    lemma_occurs(held, row);
    assert(m.rows.dom().contains(kr)) by {
        if !m.rows.dom().contains(kr) {
            assert(held =~= Seq::<Row>::empty());
        }
    }
    lemma_last_index_in_range(held, row);
    let at = last_index_of(held, row);
    lemma_count_remove(held, at, x);
    let rest = held.remove(at);
    if rest.len() == 0 {
        assert(count_of(rest, x) == 0);
    }
}

/// What a full state holds of a row under a key after the deletions of a batch, where it
/// holds every row as often as the batch deletes it: what it held, less the deletions of
/// the row.
pub proof fn lemma_gone_count(m: Materialized, delta: Delta, k: Row, x: Row)
    requires
        !m.partial,
        forall|h: Row, y: Row| count_of(m.lookup(h).unwrap(), y) >= #[trigger] gone(
            delta,
            m.key,
            h,
            y,
        ),
    ensures
        !m.apply_negatives(delta).partial,
        m.apply_negatives(delta).key == m.key,
        m.apply_negatives(delta).lookup(k).is_some(),
        count_of(m.apply_negatives(delta).lookup(k).unwrap(), x) + gone(delta, m.key, k, x)
            == count_of(m.lookup(k).unwrap(), x),
    decreases delta.len(),
{
    if delta.len() > 0 {
        let init = delta.drop_last();
        assert forall|h: Row, y: Row| count_of(m.lookup(h).unwrap(), y) >= #[trigger] gone(
            init,
            m.key,
            h,
            y,
        ) by {
            assert(count_of(m.lookup(h).unwrap(), y) >= gone(delta, m.key, h, y));
        }
        lemma_gone_count(m, init, k, x);
        if !delta.last().positive {
            let row = delta.last().row;
            let kr = project(row, m.key);
            lemma_gone_count(m, init, kr, row);
            let before = m.apply_negatives(init);
            assert(count_of(m.lookup(kr).unwrap(), row) >= gone(delta, m.key, kr, row));
            assert(count_of(before.lookup(kr).unwrap(), row) >= 1);
            lemma_remove_count(before, row, k, x);
        }
    }
}

/// What a full state holds of a row under a key after a batch, where it holds, with the
/// insertions of the batch, every row as often as the batch deletes it: what it held, and
/// the insertions of the row, less its deletions.
pub proof fn lemma_apply_count(m: Materialized, delta: Delta, k: Row, x: Row)
    requires
        !m.partial,
        forall|h: Row, y: Row|
            count_of(m.lookup(h).unwrap(), y) + come(delta, m.key, h, y) >= #[trigger] gone(
                delta,
                m.key,
                h,
                y,
            ),
    ensures
        m.apply(delta).lookup(k).is_some(),
        count_of(m.apply(delta).lookup(k).unwrap(), x) + gone(delta, m.key, k, x) == count_of(
            m.lookup(k).unwrap(),
            x,
        ) + come(delta, m.key, k, x),
{
    let grown = m.apply_positives(delta);
    lemma_come_count(m, delta, k, x);
    assert forall|h: Row, y: Row| count_of(grown.lookup(h).unwrap(), y) >= #[trigger] gone(
        delta,
        grown.key,
        h,
        y,
    ) by {
        lemma_come_count(m, delta, h, y);
    }
    lemma_gone_count(grown, delta, k, x);
}

/// The insertions and deletions of two batches, one after the other, add up.
pub proof fn lemma_counts_add(a: Delta, b: Delta, key: Seq<usize>, k: Row, x: Row)
    ensures
        come(a + b, key, k, x) == come(a, key, k, x) + come(b, key, k, x),
        gone(a + b, key, k, x) == gone(a, key, k, x) + gone(b, key, k, x),
    decreases b.len(),
{
    if b.len() == 0 {
        assert(a + b =~= a);
    } else {
        lemma_counts_add(a, b.drop_last(), key, k, x);
        assert((a + b).drop_last() =~= a + b.drop_last());
        assert((a + b).last() == b.last());
    }
}

/// The deletions of rows, as records.
pub proof fn lemma_signed_counts(positive: bool, rows: Seq<Row>, key: Seq<usize>, k: Row, x: Row)
    requires
        all_under(rows, key, k),
    ensures
        come(signed(positive, rows), key, k, x) == if positive {
            count_of(rows, x)
        } else {
            0
        },
        gone(signed(positive, rows), key, k, x) == if positive {
            0
        } else {
            count_of(rows, x)
        },
    decreases rows.len(),
{
    let d = signed(positive, rows);
    if rows.len() > 0 {
        assert(all_under(rows.drop_last(), key, k)) by {
            assert forall|i: int| 0 <= i < rows.drop_last().len() implies project(
                #[trigger] rows.drop_last()[i],
                key,
            ) == k by {
                assert(rows.drop_last()[i] == rows[i]);
            }
        }
        lemma_signed_counts(positive, rows.drop_last(), key, k, x);
        assert(d.drop_last() =~= signed(positive, rows.drop_last()));
        assert(d.last() == SignedRow { positive, row: rows.last() });
        assert(project(rows[rows.len() - 1], key) == k);
    }
}

/// Records of rows of another key insert and delete nothing under a key.
pub proof fn lemma_signed_elsewhere(
    positive: bool,
    rows: Seq<Row>,
    key: Seq<usize>,
    h: Row,
    k: Row,
    x: Row,
)
    requires
        all_under(rows, key, h),
        h != k,
    ensures
        come(signed(positive, rows), key, k, x) == 0,
        gone(signed(positive, rows), key, k, x) == 0,
    decreases rows.len(),
{
    let d = signed(positive, rows);
    if rows.len() > 0 {
        assert(all_under(rows.drop_last(), key, h)) by {
            assert forall|i: int| 0 <= i < rows.drop_last().len() implies project(
                #[trigger] rows.drop_last()[i],
                key,
            ) == h by {
                assert(rows.drop_last()[i] == rows[i]);
            }
        }
        lemma_signed_elsewhere(positive, rows.drop_last(), key, h, k, x);
        assert(d.drop_last() =~= signed(positive, rows.drop_last()));
        assert(d.last() == SignedRow { positive, row: rows.last() });
        assert(project(rows[rows.len() - 1], key) == h);
    }
}

impl TopK {
    /// A reader below a top-k operator holds the best rows of each group: where a full
    /// state `below`, keyed on the group, holds under a group the rows that the operator
    /// has kept of it, as a multiset, and takes in what the operator emits for a record of
    /// the group, it holds the rows that the operator keeps from then on: the best of the
    /// group as the parent has it, as many as the limit, or as the group has if those are
    /// fewer.
    pub proof fn lemma_reader_keeps_the_best(
        self,
        us: LocalNodeIndex,
        above: LocalNodeIndex,
        own: Materialized,
        parent: Materialized,
        r: SignedRow,
        below: Materialized,
    )
        requires
            own.wf(),
            parent.wf(),
            own.key == self.group(),
            parent.key == self.group(),
            own.lookup(project(r.row, self.group())).is_some(),
            parent.lookup(project(r.row, self.group())).is_some(),
            !below.partial,
            below.key == self.group(),
            below.lookup(project(r.row, self.group())).unwrap().to_multiset() == own.lookup(
                project(r.row, self.group()),
            ).unwrap().to_multiset(),
        ensures
            ({
                let g = project(r.row, self.group());
                let all = parent.lookup(g).unwrap();
                let best = top_k(self.ordering(), self.limit() as nat, all);
                let held = below.apply(self.step(us, above, own, parent, r).out).lookup(g);
                &&& held.is_some()
                &&& held.unwrap().to_multiset() == best.to_multiset()
                &&& held.unwrap().len() == if all.len() < self.limit() {
                    all.len()
                } else {
                    self.limit() as nat
                }
            }),
    {
        let g = project(r.row, self.group());
        let all = parent.lookup(g).unwrap();
        let before = own.lookup(g).unwrap();
        let best = top_k(self.ordering(), self.limit() as nat, all);
        let gone = surplus(before, best);
        let come = surplus(best, before);
        assert(self.step(us, above, own, parent, r).out == change(before, best));
        lemma_apply_signed(below, gone, come);
        lemma_top_k_members(self.ordering(), self.limit() as nat, all);
        lemma_top_k_sorted(self.ordering(), self.limit() as nat, all);
        // the rows of the group have its key
        assert(all_under(best, below.key, g)) by {
            assert forall|i: int| 0 <= i < best.len() implies project(
                #[trigger] best[i],
                below.key,
            ) == g by {
                assert(all.contains(best[i]));
                let j = choose|j: int| 0 <= j < all.len() && all[j] == best[i];
                if parent.rows.dom().contains(g) {
                    assert(project(parent.rows[g][j], parent.key) == g);
                }
            }
        }
        assert(all_under(before, below.key, g)) by {
            assert forall|i: int| 0 <= i < before.len() implies project(
                #[trigger] before[i],
                below.key,
            ) == g by {
                if own.rows.dom().contains(g) {
                    assert(project(own.rows[g][i], own.key) == g);
                }
            }
        }
        Self::lemma_surplus_under(best, before, below.key, g);
        Self::lemma_surplus_under(before, best, below.key, g);
        let grown = insert_all(below, come);
        let held = below.lookup(g).unwrap();
        assert forall|y: Row| count_of(grown.lookup(g).unwrap(), y) >= count_of(gone, y) by {
            lemma_insert_all_count(below, come, g, y);
            lemma_surplus_count(before, best, y);
            lemma_count_is_multiset_count(held, y);
            lemma_count_is_multiset_count(before, y);
        }
        lemma_insert_all_count(below, come, g, r.row);
        let after = remove_all(grown, gone).lookup(g).unwrap();
        assert forall|x: Row| after.to_multiset().count(x) == best.to_multiset().count(x) by {
            lemma_insert_all_count(below, come, g, x);
            lemma_remove_all_count(grown, gone, g, x);
            lemma_surplus_count(before, best, x);
            lemma_surplus_count(best, before, x);
            lemma_count_is_multiset_count(held, x);
            lemma_count_is_multiset_count(before, x);
            lemma_count_is_multiset_count(after, x);
            lemma_count_is_multiset_count(best, x);
        }
        lemma_remove_all_count(grown, gone, g, r.row);
        assert(after.to_multiset() =~= best.to_multiset());
        after.to_multiset_ensures();
        best.to_multiset_ensures();
    }

    /// The rows that a list has more of than another are rows of the list.
    pub proof fn lemma_surplus_under(a: Seq<Row>, b: Seq<Row>, key: Seq<usize>, g: Row)
        requires
            all_under(a, key, g),
        ensures
            all_under(surplus(a, b), key, g),
        decreases a.len(),
    {
        if a.len() > 0 {
            assert(all_under(a.drop_last(), key, g)) by {
                assert forall|i: int| 0 <= i < a.drop_last().len() implies project(
                    #[trigger] a.drop_last()[i],
                    key,
                ) == g by {
                    assert(a.drop_last()[i] == a[i]);
                }
            }
            Self::lemma_surplus_under(a.drop_last(), b, key, g);
            let s = surplus(a, b);
            assert forall|i: int| 0 <= i < s.len() implies project(#[trigger] s[i], key) == g by {
                if count_of(a, a.last()) > count_of(b, a.last()) {
                    if i < s.len() - 1 {
                        assert(s[i] == surplus(a.drop_last(), b)[i]);
                    } else {
                        assert(s[i] == a.last());
                        assert(a[a.len() - 1] == a.last());
                    }
                }
            }
        }
    }

    /// Whether the operator's state `own` holds, of every group, the best rows of the group
    /// as the parent's state `parent` has it; both states are full.
    pub open spec fn keeps_the_best(self, own: Materialized, parent: Materialized) -> bool {
        &&& !own.partial
        &&& !parent.partial
        &&& forall|g: Row| #[trigger]
            own.lookup(g) == Some(
                top_k(self.ordering(), self.limit() as nat, parent.lookup(g).unwrap()),
            )
    }

    /// What a batch leaves of a group in the operator's state, where the operator's state
    /// and its parent's are full: the best rows of the group as the parent has it, where
    /// the batch has a record of the group; what was there, where it has none.
    pub proof fn lemma_run_best(
        self,
        us: LocalNodeIndex,
        above: LocalNodeIndex,
        own: Materialized,
        parent: Materialized,
        delta: Delta,
        g: Row,
    )
        requires
            !own.partial,
            !parent.partial,
        ensures
            !self.run(us, above, own, parent, delta).state.partial,
            self.run(us, above, own, parent, delta).state.lookup(g) == if touches(
                delta,
                self.group(),
                g,
            ) {
                Some(top_k(self.ordering(), self.limit() as nat, parent.lookup(g).unwrap()))
            } else {
                own.lookup(g)
            },
        decreases delta.len(),
    {
        if delta.len() > 0 {
            let init = delta.drop_last();
            self.lemma_run_best(us, above, own, parent, init, g);
            let before = self.run(us, above, own, parent, init).state;
            let h = project(delta.last().row, self.group());
            let best = top_k(self.ordering(), self.limit() as nat, parent.lookup(h).unwrap());
            assert(self.step(us, above, before, parent, delta.last()).state == before.put(h, best));
            if h == g {
                assert(touches(delta, self.group(), g)) by {
                    assert(project(delta[delta.len() - 1].row, self.group()) == g);
                }
                if best.len() == 0 {
                    assert(before.put(h, best).lookup(g).unwrap() =~= best);
                }
            } else {
                assert(before.put(h, best).lookup(g) == before.lookup(g));
                assert(touches(delta, self.group(), g) == touches(init, self.group(), g)) by {
                    if touches(init, self.group(), g) {
                        let i = choose|i: int|
                            0 <= i < init.len() && project((#[trigger] init[i]).row, self.group())
                                == g;
                        assert(delta[i] == init[i]);
                    }
                    if touches(delta, self.group(), g) {
                        let i = choose|i: int|
                            0 <= i < delta.len() && project(
                                (#[trigger] delta[i]).row,
                                self.group(),
                            ) == g;
                        assert(i < init.len());
                        assert(init[i] == delta[i]);
                    }
                }
            }
        } else {
            assert(!touches(delta, self.group(), g));
        }
    }

    /// The top-k invariant holds over any history of writes: where the operator's state
    /// holds the best rows of every group as the parent had it, the parent takes in a
    /// batch, and the operator then takes in the same batch, the operator's state holds
    /// the best rows of every group as the parent has it now: as many as the limit, or as
    /// the group has if those are fewer.
    pub proof fn lemma_history_step(
        self,
        us: LocalNodeIndex,
        above: LocalNodeIndex,
        own: Materialized,
        before: Materialized,
        delta: Delta,
    )
        requires
            self.keeps_the_best(own, before),
            before.key == self.group(),
        ensures
            self.keeps_the_best(
                self.run(us, above, own, before.apply(delta), delta).state,
                before.apply(delta),
            ),
            forall|g: Row|
                (#[trigger] self.run(us, above, own, before.apply(delta), delta).state.lookup(
                    g,
                )).unwrap().len() == if before.apply(delta).lookup(g).unwrap().len()
                    < self.limit() {
                    before.apply(delta).lookup(g).unwrap().len()
                } else {
                    self.limit() as nat
                },
    {
        let parent = before.apply(delta);
        let after = self.run(us, above, own, parent, delta).state;
        Self::lemma_apply_full(before, delta);
        assert forall|g: Row| #[trigger]
            after.lookup(g) == Some(
                top_k(self.ordering(), self.limit() as nat, parent.lookup(g).unwrap()),
            ) by {
            self.lemma_run_best(us, above, own, parent, delta, g);
            if !touches(delta, self.group(), g) {
                lemma_apply_elsewhere(before, delta, g);
                assert(own.lookup(g) == Some(
                    top_k(self.ordering(), self.limit() as nat, before.lookup(g).unwrap()),
                ));
            }
        }
        // the state stays full
        self.lemma_run_best(us, above, own, parent, delta, Seq::empty());
        assert forall|g: Row|
            (#[trigger] after.lookup(g)).unwrap().len() == if parent.lookup(g).unwrap().len()
                < self.limit() {
                parent.lookup(g).unwrap().len()
            } else {
                self.limit() as nat
            } by {
            lemma_top_k_sorted(self.ordering(), self.limit() as nat, parent.lookup(g).unwrap());
        }
    }

    /// A full state stays full, and keyed as it is, when it takes in a batch.
    pub proof fn lemma_apply_full(m: Materialized, delta: Delta)
        ensures
            m.apply(delta).partial == m.partial,
            m.apply(delta).key == m.key,
    {
        Self::lemma_positives_full(m, delta);
        Self::lemma_negatives_full(m.apply_positives(delta), delta);
    }

    /// The insertions of a batch leave a state full or partial, and keyed, as it is.
    pub proof fn lemma_positives_full(m: Materialized, delta: Delta)
        ensures
            m.apply_positives(delta).partial == m.partial,
            m.apply_positives(delta).key == m.key,
        decreases delta.len(),
    {
        if delta.len() > 0 {
            Self::lemma_positives_full(m, delta.drop_last());
        }
    }

    /// The deletions of a batch leave a state full or partial, and keyed, as it is.
    pub proof fn lemma_negatives_full(m: Materialized, delta: Delta)
        ensures
            m.apply_negatives(delta).partial == m.partial,
            m.apply_negatives(delta).key == m.key,
        decreases delta.len(),
    {
        if delta.len() > 0 {
            Self::lemma_negatives_full(m, delta.drop_last());
        }
    }

    /// The top-k invariant holds at the start: an operator and a parent without rows.
    pub proof fn lemma_history_start(self)
        ensures
            self.keeps_the_best(
                Materialized::empty(self.group(), false),
                Materialized::empty(self.group(), false),
            ),
    {
        let none = Materialized::empty(self.group(), false);
        assert forall|g: Row| #[trigger]
            none.lookup(g) == Some(
                top_k(self.ordering(), self.limit() as nat, none.lookup(g).unwrap()),
            ) by {
            assert(top_k(self.ordering(), self.limit() as nat, Seq::<Row>::empty())
                =~= Seq::<Row>::empty());
        }
    }

    /// What a batch emits balances what the operator's state holds before and after it:
    /// for every group and row, the occurrences of the row in the state before and its
    /// insertions among the emitted records are as many as its occurrences in the state
    /// after and its deletions among the emitted records.
    pub proof fn lemma_run_balance(
        self,
        us: LocalNodeIndex,
        above: LocalNodeIndex,
        own: Materialized,
        parent: Materialized,
        delta: Delta,
        g: Row,
        x: Row,
    )
        requires
            own.wf(),
            parent.wf(),
            !own.partial,
            !parent.partial,
            own.key == self.group(),
            parent.key == self.group(),
        ensures
            self.run(us, above, own, parent, delta).state.wf(),
            !self.run(us, above, own, parent, delta).state.partial,
            self.run(us, above, own, parent, delta).state.key == self.group(),
            count_of(own.lookup(g).unwrap(), x) + come(
                self.run(us, above, own, parent, delta).out,
                self.group(),
                g,
                x,
            ) == count_of(self.run(us, above, own, parent, delta).state.lookup(g).unwrap(), x)
                + gone(self.run(us, above, own, parent, delta).out, self.group(), g, x),
        decreases delta.len(),
    {
        if delta.len() > 0 {
            let init = delta.drop_last();
            self.lemma_run_balance(us, above, own, parent, init, g, x);
            let before = self.run(us, above, own, parent, init);
            let h = project(delta.last().row, self.group());
            let held = before.state.lookup(h).unwrap();
            let all = parent.lookup(h).unwrap();
            let best = top_k(self.ordering(), self.limit() as nat, all);
            let step = self.step(us, above, before.state, parent, delta.last());
            assert(step.state == before.state.put(h, best));
            assert(step.out == change(held, best));
            lemma_top_k_members(self.ordering(), self.limit() as nat, all);
            assert(all_under(best, self.group(), h)) by {
                assert forall|i: int| 0 <= i < best.len() implies project(
                    #[trigger] best[i],
                    self.group(),
                ) == h by {
                    assert(all.contains(best[i]));
                    let j = choose|j: int| 0 <= j < all.len() && all[j] == best[i];
                    if parent.rows.dom().contains(h) {
                        assert(project(parent.rows[h][j], parent.key) == h);
                    }
                }
            }
            assert(all_under(held, self.group(), h)) by {
                assert forall|i: int| 0 <= i < held.len() implies project(
                    #[trigger] held[i],
                    self.group(),
                ) == h by {
                    if before.state.rows.dom().contains(h) {
                        assert(project(before.state.rows[h][i], before.state.key) == h);
                    }
                }
            }
            // the state stays sound
            assert(before.state.put(h, best).wf()) by {
                let after = before.state.put(h, best);
                assert forall|k: Row| #[trigger] after.rows.dom().contains(k) implies {
                    &&& k.len() == after.key.len()
                    &&& !after.partial ==> after.rows[k].len() > 0
                    &&& forall|i: int|
                        0 <= i < after.rows[k].len() ==> {
                            &&& columns_within(after.key, (#[trigger] after.rows[k][i]).len())
                            &&& project(after.rows[k][i], after.key) == k
                        }
                } by {
                    if k == h {
                        assert forall|i: int| 0 <= i < best.len() implies columns_within(
                            after.key,
                            (#[trigger] best[i]).len(),
                        ) && project(best[i], after.key) == k by {
                            assert(all.contains(best[i]));
                            let j = choose|j: int| 0 <= j < all.len() && all[j] == best[i];
                            assert(parent.rows.dom().contains(h));
                            assert(columns_within(parent.key, parent.rows[h][j].len()));
                        }
                        assert(h.len() == self.group().len()) by {
                            assert(parent.rows.dom().contains(h)) by {
                                if !parent.rows.dom().contains(h) {
                                    assert(all =~= Seq::<Row>::empty());
                                    assert(best =~= Seq::<Row>::empty());
                                }
                            }
                        }
                    } else {
                        assert(before.state.rows.dom().contains(k));
                    }
                }
            }
            Self::lemma_surplus_under(held, best, self.group(), h);
            Self::lemma_surplus_under(best, held, self.group(), h);
            let taken = signed(false, surplus(held, best));
            let given = signed(true, surplus(best, held));
            lemma_counts_add(taken, given, self.group(), g, x);
            lemma_counts_add(before.out, step.out, self.group(), g, x);
            if h == g {
                lemma_signed_counts(false, surplus(held, best), self.group(), g, x);
                lemma_signed_counts(true, surplus(best, held), self.group(), g, x);
                lemma_surplus_count(held, best, x);
                lemma_surplus_count(best, held, x);
                if best.len() == 0 {
                    assert(before.state.put(h, best).lookup(g).unwrap() =~= best);
                }
            } else {
                lemma_signed_elsewhere(false, surplus(held, best), self.group(), h, g, x);
                lemma_signed_elsewhere(true, surplus(best, held), self.group(), h, g, x);
                assert(before.state.put(h, best).lookup(g) == before.state.lookup(g));
            }
        }
    }

    /// A reader below a top-k operator follows it over any history of writes: where a full
    /// state `below`, keyed on the group, holds under every group the rows that the
    /// operator's state holds under it, as a multiset, and takes in what the operator
    /// emits for a batch, it holds under every group the rows that the operator's state
    /// holds under it after the batch. With [`Self::lemma_history_step`], these are the
    /// best rows of the group, as many as the limit, or as the group has if those are fewer.
    pub proof fn lemma_reader_follows(
        self,
        us: LocalNodeIndex,
        above: LocalNodeIndex,
        own: Materialized,
        parent: Materialized,
        delta: Delta,
        below: Materialized,
        g: Row,
    )
        requires
            own.wf(),
            parent.wf(),
            !own.partial,
            !parent.partial,
            own.key == self.group(),
            parent.key == self.group(),
            !below.partial,
            below.key == self.group(),
            forall|h: Row| (#[trigger] below.lookup(h)).unwrap().to_multiset() == own.lookup(
                h,
            ).unwrap().to_multiset(),
        ensures
            below.apply(self.run(us, above, own, parent, delta).out).lookup(g).is_some(),
            below.apply(self.run(us, above, own, parent, delta).out).lookup(g).unwrap().to_multiset()
                == self.run(us, above, own, parent, delta).state.lookup(g).unwrap().to_multiset(),
            below.apply(self.run(us, above, own, parent, delta).out).lookup(g).unwrap().len()
                == self.run(us, above, own, parent, delta).state.lookup(g).unwrap().len(),
    {
        let ran = self.run(us, above, own, parent, delta);
        assert forall|h: Row, y: Row|
            count_of(below.lookup(h).unwrap(), y) + come(ran.out, below.key, h, y)
                >= #[trigger] gone(ran.out, below.key, h, y) by {
            self.lemma_run_balance(us, above, own, parent, delta, h, y);
            lemma_count_is_multiset_count(below.lookup(h).unwrap(), y);
            lemma_count_is_multiset_count(own.lookup(h).unwrap(), y);
        }
        let after = below.apply(ran.out).lookup(g).unwrap();
        let kept = ran.state.lookup(g).unwrap();
        assert forall|x: Row| after.to_multiset().count(x) == kept.to_multiset().count(x) by {
            lemma_apply_count(below, ran.out, g, x);
            self.lemma_run_balance(us, above, own, parent, delta, g, x);
            lemma_count_is_multiset_count(below.lookup(g).unwrap(), x);
            lemma_count_is_multiset_count(own.lookup(g).unwrap(), x);
            lemma_count_is_multiset_count(after, x);
            lemma_count_is_multiset_count(kept, x);
        }
        lemma_apply_count(below, ran.out, g, Seq::empty());
        assert(after.to_multiset() =~= kept.to_multiset());
        after.to_multiset_ensures();
        kept.to_multiset_ensures();
    }
}

} // verus!
