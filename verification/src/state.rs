//! Materialized state: the rows that a node has seen, indexed by the values of their key
//! columns. A full state knows every key; a partial state has holes, and a lookup in a hole is
//! a miss.

use crate::assoc::{
    assoc_map, distinct_keys, has_key, lemma_assoc_absent, lemma_assoc_at, lemma_assoc_empty,
    lemma_assoc_len, lemma_assoc_push, lemma_assoc_remove, lemma_assoc_update,
};
use crate::data::{
    clone_row, columns_within, project, project_row, rows_equal, DataType, Delta, Record, Row,
    SignedRow,
};
use vstd::prelude::*;

verus! {

/// The last position of `s` that holds `x`, or -1 where none does.
pub open spec fn last_index_of(s: Seq<Row>, x: Row) -> int
    decreases s.len(),
{
    if s.len() == 0 {
        -1
    } else if s.last() == x {
        s.len() - 1
    } else {
        last_index_of(s.drop_last(), x)
    }
}

/// `last_index_of` finds the position after which `x` does not occur again.
pub proof fn lemma_last_index_of(s: Seq<Row>, x: Row, j: int)
    requires
        -1 <= j < s.len(),
        j >= 0 ==> s[j] == x,
        forall|i: int| j < i < s.len() ==> s[i] != x,
    ensures
        last_index_of(s, x) == j,
    decreases s.len(),
{
    if s.len() > 0 && j != s.len() - 1 {
        lemma_last_index_of(s.drop_last(), x, j);
    }
}

/// The mathematical model of a state: its key columns, whether it is partial, and the rows
/// that it holds under each key that it knows, in the order in which they arrived.
pub struct Materialized {
    /// The columns that the state is keyed on.
    pub key: Seq<usize>,
    /// Whether the state may have holes.
    pub partial: bool,
    /// The rows under each known key.
    pub rows: Map<Row, Seq<Row>>,
}

/// What adds to a number the number of rows that `rows` holds under a key.
pub open spec fn counting(rows: Map<Row, Seq<Row>>) -> spec_fn(nat, Row) -> nat {
    |n: nat, k: Row| n + rows[k].len()
}

/// The number of rows that `rows` holds, over all its keys.
pub open spec fn total(rows: Map<Row, Seq<Row>>) -> nat {
    rows.dom().fold(0nat, counting(rows))
}

/// Counting rows does not depend on the order of the keys.
pub proof fn lemma_counting_commutes(rows: Map<Row, Seq<Row>>)
    ensures
        vstd::set::fold::is_fun_commutative(counting(rows)),
{
    let f = counting(rows);
    assert forall|a1: Row, a2: Row, b: nat| #[trigger] f(f(b, a2), a1) == f(f(b, a1), a2) by {}
}

/// Two maps that agree on the keys `keys` hold the same number of rows under them.
pub proof fn lemma_count_agrees(keys: Set<Row>, a: Map<Row, Seq<Row>>, b: Map<Row, Seq<Row>>)
    requires
        keys.finite(),
        forall|k: Row| keys.contains(k) ==> a[k] == b[k],
    ensures
        keys.fold(0nat, counting(a)) == keys.fold(0nat, counting(b)),
    decreases keys.len(),
{
    lemma_counting_commutes(a);
    lemma_counting_commutes(b);
    if keys.len() == 0 {
        assert(keys =~= Set::<Row>::empty());
        vstd::set::fold::lemma_fold_empty::<Row, nat>(0nat, counting(a));
        vstd::set::fold::lemma_fold_empty::<Row, nat>(0nat, counting(b));
    } else {
        let k = keys.choose();
        let rest = keys.remove(k);
        lemma_count_agrees(rest, a, b);
        assert(rest.insert(k) =~= keys);
        vstd::set::fold::lemma_fold_insert(rest, 0nat, counting(a), k);
        vstd::set::fold::lemma_fold_insert(rest, 0nat, counting(b), k);
    }
}

/// A new key adds its rows to the number of rows.
pub proof fn lemma_total_insert_new(rows: Map<Row, Seq<Row>>, k: Row, v: Seq<Row>)
    requires
        rows.dom().finite(),
        !rows.dom().contains(k),
    ensures
        total(rows.insert(k, v)) == total(rows) + v.len(),
{
    let after = rows.insert(k, v);
    lemma_counting_commutes(after);
    assert(after.dom() =~= rows.dom().insert(k));
    vstd::set::fold::lemma_fold_insert(rows.dom(), 0nat, counting(after), k);
    lemma_count_agrees(rows.dom(), after, rows);
}

/// A key that leaves takes its rows from the number of rows.
pub proof fn lemma_total_remove(rows: Map<Row, Seq<Row>>, k: Row)
    requires
        rows.dom().finite(),
        rows.dom().contains(k),
    ensures
        total(rows.remove(k)) + rows[k].len() == total(rows),
{
    let rest = rows.remove(k);
    assert(rest.insert(k, rows[k]) =~= rows);
    lemma_total_insert_new(rest, k, rows[k]);
}

/// New rows under a known key take the place of the old ones in the number of rows.
pub proof fn lemma_total_update(rows: Map<Row, Seq<Row>>, k: Row, v: Seq<Row>)
    requires
        rows.dom().finite(),
        rows.dom().contains(k),
    ensures
        total(rows.insert(k, v)) + rows[k].len() == total(rows) + v.len(),
{
    let rest = rows.remove(k);
    lemma_total_remove(rows, k);
    assert(rest.insert(k, v) =~= rows.insert(k, v));
    lemma_total_insert_new(rest, k, v);
}

impl Materialized {
    /// A state without rows.
    pub open spec fn empty(key: Seq<usize>, partial: bool) -> Materialized {
        Materialized { key, partial, rows: Map::empty() }
    }

    /// Every row is filed under the values of its key columns, and a full state holds no key
    /// without rows.
    pub open spec fn wf(self) -> bool {
        forall|k: Row| #[trigger]
            self.rows.dom().contains(k) ==> {
                &&& k.len() == self.key.len()
                &&& !self.partial ==> self.rows[k].len() > 0
                &&& forall|i: int|
                    0 <= i < self.rows[k].len() ==> {
                        &&& columns_within(self.key, (#[trigger] self.rows[k][i]).len())
                        &&& project(self.rows[k][i], self.key) == k
                    }
            }
    }

    /// The number of rows that the state holds, over all the keys that it knows.
    pub open spec fn size(self) -> nat {
        total(self.rows)
    }

    /// An insertion that the state takes adds one row; one that falls into a hole adds
    /// none.
    pub proof fn lemma_size_insert(self, row: Row)
        requires
            self.rows.dom().finite(),
        ensures
            self.insert(row).size() == if self.lookup(project(row, self.key)).is_some() {
                self.size() + 1
            } else {
                self.size()
            },
    {
        let k = project(row, self.key);
        if self.rows.dom().contains(k) {
            lemma_total_update(self.rows, k, self.rows[k].push(row));
        } else if !self.partial {
            lemma_total_insert_new(self.rows, k, seq![row]);
        }
    }

    /// A deletion of a row that the state holds takes one row away; any other changes
    /// nothing.
    pub proof fn lemma_size_remove(self, row: Row)
        requires
            self.rows.dom().finite(),
        ensures
            self.remove(row).size() == if self.rows.dom().contains(project(row, self.key))
                && last_index_of(self.rows[project(row, self.key)], row) >= 0 {
                (self.size() - 1) as nat
            } else {
                self.size()
            },
            self.rows.dom().contains(project(row, self.key)) && last_index_of(
                self.rows[project(row, self.key)],
                row,
            ) >= 0 ==> self.size() >= 1,
    {
        let k = project(row, self.key);
        if self.rows.dom().contains(k) && last_index_of(self.rows[k], row) >= 0 {
            lemma_last_index_in_range(self.rows[k], row);
            let rest = self.rows[k].remove(last_index_of(self.rows[k], row));
            if rest.len() == 0 && !self.partial {
                lemma_total_remove(self.rows, k);
            } else {
                lemma_total_update(self.rows, k, rest);
            }
        }
    }

    /// An eviction takes the rows of the key away.
    pub proof fn lemma_size_evict(self, k: Row)
        requires
            self.rows.dom().finite(),
        ensures
            self.evict(k).size() + (if self.partial && self.rows.dom().contains(k) {
                self.rows[k].len()
            } else {
                0nat
            }) == self.size(),
    {
        if self.partial {
            if self.rows.dom().contains(k) {
                lemma_total_remove(self.rows, k);
            } else {
                assert(self.rows.remove(k) =~= self.rows);
            }
        }
    }

    /// What a lookup of `k` gives: the rows under `k`, or `None` for a miss. A full state
    /// never misses: a key that it does not know has no rows.
    pub open spec fn lookup(self, k: Row) -> Option<Seq<Row>> {
        if self.rows.dom().contains(k) {
            Some(self.rows[k])
        } else if self.partial {
            None
        } else {
            Some(Seq::empty())
        }
    }

    /// The state after `row` has been inserted. A row whose key is a hole is dropped.
    pub open spec fn insert(self, row: Row) -> Materialized {
        let k = project(row, self.key);
        if self.rows.dom().contains(k) {
            Materialized { rows: self.rows.insert(k, self.rows[k].push(row)), ..self }
        } else if self.partial {
            self
        } else {
            Materialized { rows: self.rows.insert(k, seq![row]), ..self }
        }
    }

    /// The state after one occurrence of `row`, the last, has been deleted. Deleting a row
    /// that the state does not hold changes nothing.
    pub open spec fn remove(self, row: Row) -> Materialized {
        let k = project(row, self.key);
        if self.rows.dom().contains(k) && last_index_of(self.rows[k], row) >= 0 {
            let rest = self.rows[k].remove(last_index_of(self.rows[k], row));
            if rest.len() == 0 && !self.partial {
                Materialized { rows: self.rows.remove(k), ..self }
            } else {
                Materialized { rows: self.rows.insert(k, rest), ..self }
            }
        } else {
            self
        }
    }

    /// The state after the key `k` has been marked as filled.
    pub open spec fn fill(self, k: Row) -> Materialized {
        if self.partial && !self.rows.dom().contains(k) {
            Materialized { rows: self.rows.insert(k, Seq::empty()), ..self }
        } else {
            self
        }
    }

    /// The state after the key `k` has been evicted: a partial state forgets the key and its
    /// rows, a full state cannot evict.
    pub open spec fn evict(self, k: Row) -> Materialized {
        if self.partial {
            Materialized { rows: self.rows.remove(k), ..self }
        } else {
            self
        }
    }

    /// The state after the positive records of `delta` have been inserted, in order.
    pub open spec fn apply_positives(self, delta: Delta) -> Materialized
        decreases delta.len(),
    {
        if delta.len() == 0 {
            self
        } else if delta.last().positive {
            self.apply_positives(delta.drop_last()).insert(delta.last().row)
        } else {
            self.apply_positives(delta.drop_last())
        }
    }

    /// The state after the negative records of `delta` have been deleted, in order.
    pub open spec fn apply_negatives(self, delta: Delta) -> Materialized
        decreases delta.len(),
    {
        if delta.len() == 0 {
            self
        } else if !delta.last().positive {
            self.apply_negatives(delta.drop_last()).remove(delta.last().row)
        } else {
            self.apply_negatives(delta.drop_last())
        }
    }

    /// The state after `delta` has been applied: each positive record, then each negative.
    pub open spec fn apply(self, delta: Delta) -> Materialized {
        self.apply_positives(delta).apply_negatives(delta)
    }

    /// Whether every row of `delta` is wide enough for the key columns.
    pub open spec fn accepts(self, delta: Delta) -> bool {
        forall|i: int|
            0 <= i < delta.len() ==> columns_within(self.key, (#[trigger] delta[i]).row.len())
    }

    /// Inserting keeps the state well formed.
    pub proof fn lemma_insert_wf(self, row: Row)
        requires
            self.wf(),
            columns_within(self.key, row.len()),
        ensures
            self.insert(row).wf(),
    {
        let k = project(row, self.key);
        let after = self.insert(row);
        assert forall|h: Row| #[trigger] after.rows.dom().contains(h) implies {
            &&& h.len() == after.key.len()
            &&& !after.partial ==> after.rows[h].len() > 0
            &&& forall|i: int|
                0 <= i < after.rows[h].len() ==> {
                    &&& columns_within(after.key, (#[trigger] after.rows[h][i]).len())
                    &&& project(after.rows[h][i], after.key) == h
                }
        } by {
            if h != k {
                assert(self.rows.dom().contains(h));
            } else if self.rows.dom().contains(k) {
                assert forall|i: int| 0 <= i < after.rows[h].len() implies {
                    &&& columns_within(after.key, (#[trigger] after.rows[h][i]).len())
                    &&& project(after.rows[h][i], after.key) == h
                } by {
                    if i < self.rows[k].len() {
                        assert(after.rows[h][i] == self.rows[k][i]);
                    }
                }
            }
        }
    }

    /// Deleting keeps the state well formed.
    pub proof fn lemma_remove_wf(self, row: Row)
        requires
            self.wf(),
        ensures
            self.remove(row).wf(),
    {
        let k = project(row, self.key);
        let after = self.remove(row);
        assert forall|h: Row| #[trigger] after.rows.dom().contains(h) implies {
            &&& h.len() == after.key.len()
            &&& !after.partial ==> after.rows[h].len() > 0
            &&& forall|i: int|
                0 <= i < after.rows[h].len() ==> {
                    &&& columns_within(after.key, (#[trigger] after.rows[h][i]).len())
                    &&& project(after.rows[h][i], after.key) == h
                }
        } by {
            assert(self.rows.dom().contains(h));
            if h == k && last_index_of(self.rows[k], row) >= 0 {
                let j = last_index_of(self.rows[k], row);
                lemma_last_index_in_range(self.rows[k], row);
                assert forall|i: int| 0 <= i < after.rows[h].len() implies {
                    &&& columns_within(after.key, (#[trigger] after.rows[h][i]).len())
                    &&& project(after.rows[h][i], after.key) == h
                } by {
                    if i < j {
                        assert(after.rows[h][i] == self.rows[k][i]);
                    } else {
                        assert(after.rows[h][i] == self.rows[k][i + 1]);
                    }
                }
            }
        }
    }

    /// Applying a delta keeps the state well formed.
    pub proof fn lemma_apply_wf(self, delta: Delta)
        requires
            self.wf(),
            self.accepts(delta),
        ensures
            self.apply_positives(delta).wf(),
            self.apply_negatives(delta).wf(),
            self.apply(delta).wf(),
            self.apply_positives(delta).key == self.key,
            self.apply_negatives(delta).key == self.key,
            self.apply_positives(delta).partial == self.partial,
            self.apply_negatives(delta).partial == self.partial,
            self.apply(delta).key == self.key,
            self.apply(delta).partial == self.partial,
        decreases delta.len(),
    {
        if delta.len() > 0 {
            let rest = delta.drop_last();
            assert(self.accepts(rest)) by {
                assert forall|i: int| 0 <= i < rest.len() implies columns_within(
                    self.key,
                    (#[trigger] rest[i]).row.len(),
                ) by {
                    assert(rest[i] == delta[i]);
                }
            }
            self.lemma_apply_wf(rest);
            assert(columns_within(self.key, delta[delta.len() - 1].row.len()));
            self.apply_positives(rest).lemma_insert_wf(delta.last().row);
            self.apply_negatives(rest).lemma_remove_wf(delta.last().row);
        }
        let p = self.apply_positives(delta);
        p.lemma_apply_negatives_wf(delta);
    }

    /// Deleting the negative records of a delta keeps the state well formed.
    pub proof fn lemma_apply_negatives_wf(self, delta: Delta)
        requires
            self.wf(),
        ensures
            self.apply_negatives(delta).wf(),
            self.apply_negatives(delta).key == self.key,
            self.apply_negatives(delta).partial == self.partial,
        decreases delta.len(),
    {
        if delta.len() > 0 {
            self.lemma_apply_negatives_wf(delta.drop_last());
            self.apply_negatives(delta.drop_last()).lemma_remove_wf(delta.last().row);
        }
    }

    /// Whether `rows` may stand under the key `k`: each is wide enough and has `k` in its
    /// key columns.
    pub open spec fn files_under(self, k: Row, rows: Seq<Row>) -> bool {
        &&& k.len() == self.key.len()
        &&& forall|i: int|
            0 <= i < rows.len() ==> {
                &&& columns_within(self.key, (#[trigger] rows[i]).len())
                &&& project(rows[i], self.key) == k
            }
    }

    /// The state after the rows under the key `k` have been replaced by `rows`. A hole stays
    /// a hole, and a full state forgets a key that is left without rows.
    pub open spec fn put(self, k: Row, rows: Seq<Row>) -> Materialized {
        if self.partial && !self.rows.dom().contains(k) {
            self
        } else if rows.len() == 0 && !self.partial {
            Materialized { rows: self.rows.remove(k), ..self }
        } else {
            Materialized { rows: self.rows.insert(k, rows), ..self }
        }
    }

    /// The state after a replay has brought the rows `rows` of the key `k`: the key is
    /// filled, and holds these rows.
    pub open spec fn install(self, k: Row, rows: Seq<Row>) -> Materialized {
        self.fill(k).put(k, rows)
    }

    /// A partial state agrees with a full state `full` on the same key columns: under every
    /// key that it knows it holds the rows that `full` holds.
    pub open spec fn agrees_with(self, full: Materialized) -> bool {
        &&& self.partial
        &&& !full.partial
        &&& self.key == full.key
        &&& forall|k: Row| #[trigger]
            self.rows.dom().contains(k) ==> Some(self.rows[k]) == full.lookup(k)
    }

    /// A partial state that agrees with a full state still agrees with it after both have
    /// taken in the same row.
    pub proof fn lemma_agrees_insert(self, full: Materialized, row: Row)
        requires
            self.agrees_with(full),
            full.wf(),
        ensures
            self.insert(row).agrees_with(full.insert(row)),
    {
        let k = project(row, self.key);
        let p = self.insert(row);
        let f = full.insert(row);
        assert forall|h: Row| #[trigger] p.rows.dom().contains(h) implies Some(p.rows[h])
            == f.lookup(h) by {
            assert(self.rows.dom().contains(h));
            if h == k && !full.rows.dom().contains(k) {
                assert(self.rows[k] =~= Seq::<Row>::empty());
                assert(self.rows[k].push(row) =~= seq![row]);
            }
        }
    }

    /// A partial state that agrees with a full state still agrees with it after both have
    /// deleted the same row.
    pub proof fn lemma_agrees_remove(self, full: Materialized, row: Row)
        requires
            self.agrees_with(full),
            full.wf(),
        ensures
            self.remove(row).agrees_with(full.remove(row)),
    {
        let k = project(row, self.key);
        let p = self.remove(row);
        let f = full.remove(row);
        assert forall|h: Row| #[trigger] p.rows.dom().contains(h) implies Some(p.rows[h])
            == f.lookup(h) by {
            assert(self.rows.dom().contains(h));
            if h == k {
                if !full.rows.dom().contains(k) {
                    assert(self.rows[k] =~= Seq::<Row>::empty());
                    assert(last_index_of(self.rows[k], row) == -1);
                } else {
                    assert(self.rows[k] == full.rows[k]);
                    if last_index_of(self.rows[k], row) >= 0 {
                        lemma_last_index_in_range(self.rows[k], row);
                        let rest = self.rows[k].remove(last_index_of(self.rows[k], row));
                        if rest.len() == 0 {
                            assert(rest =~= Seq::<Row>::empty());
                        }
                    }
                }
            }
        }
    }

    /// A partial state that agrees with a full state still agrees with it after both have
    /// applied the same delta.
    pub proof fn lemma_agrees_apply(self, full: Materialized, delta: Delta)
        requires
            self.agrees_with(full),
            full.wf(),
            full.accepts(delta),
        ensures
            self.apply(delta).agrees_with(full.apply(delta)),
            full.apply(delta).wf(),
    {
        self.lemma_agrees_positives(full, delta);
        full.lemma_apply_wf(delta);
        self.apply_positives(delta).lemma_agrees_negatives(full.apply_positives(delta), delta);
    }

    /// Agreement is kept while the positive records of a delta are inserted.
    pub proof fn lemma_agrees_positives(self, full: Materialized, delta: Delta)
        requires
            self.agrees_with(full),
            full.wf(),
            full.accepts(delta),
        ensures
            self.apply_positives(delta).agrees_with(full.apply_positives(delta)),
        decreases delta.len(),
    {
        if delta.len() > 0 {
            let rest = delta.drop_last();
            assert(full.accepts(rest)) by {
                assert forall|i: int| 0 <= i < rest.len() implies columns_within(
                    full.key,
                    (#[trigger] rest[i]).row.len(),
                ) by {
                    assert(rest[i] == delta[i]);
                }
            }
            self.lemma_agrees_positives(full, rest);
            full.lemma_apply_wf(rest);
            if delta.last().positive {
                self.apply_positives(rest).lemma_agrees_insert(
                    full.apply_positives(rest),
                    delta.last().row,
                );
            }
        }
    }

    /// Agreement is kept while the negative records of a delta are deleted.
    pub proof fn lemma_agrees_negatives(self, full: Materialized, delta: Delta)
        requires
            self.agrees_with(full),
            full.wf(),
        ensures
            self.apply_negatives(delta).agrees_with(full.apply_negatives(delta)),
        decreases delta.len(),
    {
        if delta.len() > 0 {
            let rest = delta.drop_last();
            self.lemma_agrees_negatives(full, rest);
            full.lemma_apply_negatives_wf(rest);
            if !delta.last().positive {
                self.apply_negatives(rest).lemma_agrees_remove(
                    full.apply_negatives(rest),
                    delta.last().row,
                );
            }
        }
    }

    /// When a replay brings a partial state the rows that the full state holds under a key,
    /// a lookup of the key gives all the rows that the full state has for it, and the two
    /// states still agree.
    pub proof fn lemma_replay_complete(self, full: Materialized, k: Row)
        requires
            self.agrees_with(full),
        ensures
            self.install(k, full.lookup(k).unwrap()).lookup(k) == full.lookup(k),
            self.install(k, full.lookup(k).unwrap()).agrees_with(full),
    {
    }

    /// Whether every row of the state has exactly `width` values.
    pub open spec fn uniform(self, width: nat) -> bool {
        forall|k: Row, i: int|
            self.rows.dom().contains(k) && 0 <= i < self.rows[k].len() ==> (
            #[trigger] self.rows[k][i]).len() == width
    }

    /// Inserting a row of the width keeps the width of the rows.
    pub proof fn lemma_uniform_insert(self, row: Row, width: nat)
        requires
            self.uniform(width),
            row.len() == width,
        ensures
            self.insert(row).uniform(width),
    {
        let after = self.insert(row);
        let key = project(row, self.key);
        assert forall|k: Row, i: int|
            after.rows.dom().contains(k) && 0 <= i < after.rows[k].len() implies (
        #[trigger] after.rows[k][i]).len() == width by {
            if k == key && self.rows.dom().contains(k) {
                if i < self.rows[k].len() {
                    assert(after.rows[k][i] == self.rows[k][i]);
                }
            } else if k != key {
                assert(after.rows[k][i] == self.rows[k][i]);
            }
        }
    }

    /// Deleting a row keeps the width of the rows.
    pub proof fn lemma_uniform_remove(self, row: Row, width: nat)
        requires
            self.uniform(width),
        ensures
            self.remove(row).uniform(width),
    {
        let after = self.remove(row);
        let key = project(row, self.key);
        assert forall|k: Row, i: int|
            after.rows.dom().contains(k) && 0 <= i < after.rows[k].len() implies (
        #[trigger] after.rows[k][i]).len() == width by {
            if k == key && after != self {
                let j = last_index_of(self.rows[k], row);
                lemma_last_index_in_range(self.rows[k], row);
                if i < j {
                    assert(after.rows[k][i] == self.rows[k][i]);
                } else {
                    assert(after.rows[k][i] == self.rows[k][i + 1]);
                }
            } else {
                assert(after.rows[k][i] == self.rows[k][i]);
            }
        }
    }

    /// Replacing the rows under a key by rows of the width keeps the width of the rows.
    pub proof fn lemma_uniform_put(self, k: Row, rows: Seq<Row>, width: nat)
        requires
            self.uniform(width),
            forall|i: int| 0 <= i < rows.len() ==> (#[trigger] rows[i]).len() == width,
        ensures
            self.put(k, rows).uniform(width),
            self.fill(k).uniform(width),
            self.install(k, rows).uniform(width),
            self.evict(k).uniform(width),
    {
        let after = self.put(k, rows);
        assert forall|h: Row, i: int|
            after.rows.dom().contains(h) && 0 <= i < after.rows[h].len() implies (
        #[trigger] after.rows[h][i]).len() == width by {
            if h != k {
                assert(after.rows[h][i] == self.rows[h][i]);
            }
        }
        let filled = self.fill(k);
        assert forall|h: Row, i: int|
            filled.rows.dom().contains(h) && 0 <= i < filled.rows[h].len() implies (
        #[trigger] filled.rows[h][i]).len() == width by {
            if h != k {
                assert(filled.rows[h][i] == self.rows[h][i]);
            }
        }
        let installed = filled.put(k, rows);
        assert forall|h: Row, i: int|
            installed.rows.dom().contains(h) && 0 <= i < installed.rows[h].len() implies (
        #[trigger] installed.rows[h][i]).len() == width by {
            if h != k {
                assert(installed.rows[h][i] == filled.rows[h][i]);
            }
        }
        let evicted = self.evict(k);
        assert forall|h: Row, i: int|
            evicted.rows.dom().contains(h) && 0 <= i < evicted.rows[h].len() implies (
        #[trigger] evicted.rows[h][i]).len() == width by {
            assert(evicted.rows[h][i] == self.rows[h][i]);
        }
    }

    /// Applying a delta of rows of the width keeps the width of the rows.
    pub proof fn lemma_uniform_apply(self, delta: Delta, width: nat)
        requires
            self.uniform(width),
            crate::data::rows_have_width(delta, width),
        ensures
            self.apply_positives(delta).uniform(width),
            self.apply_negatives(delta).uniform(width),
            self.apply(delta).uniform(width),
        decreases delta.len(),
    {
        if delta.len() > 0 {
            let rest = delta.drop_last();
            assert(crate::data::rows_have_width(rest, width)) by {
                assert forall|i: int| 0 <= i < rest.len() implies (#[trigger] rest[i]).row.len()
                    == width by {
                    assert(rest[i] == delta[i]);
                }
            }
            self.lemma_uniform_apply(rest, width);
            assert(delta[delta.len() - 1].row.len() == width);
            self.apply_positives(rest).lemma_uniform_insert(delta.last().row, width);
            self.apply_negatives(rest).lemma_uniform_remove(delta.last().row, width);
        }
        self.apply_positives(delta).lemma_uniform_negatives(delta, width);
    }

    /// Deleting the negative records of a delta keeps the width of the rows.
    pub proof fn lemma_uniform_negatives(self, delta: Delta, width: nat)
        requires
            self.uniform(width),
        ensures
            self.apply_negatives(delta).uniform(width),
        decreases delta.len(),
    {
        if delta.len() > 0 {
            self.lemma_uniform_negatives(delta.drop_last(), width);
            self.apply_negatives(delta.drop_last()).lemma_uniform_remove(delta.last().row, width);
        }
    }

    /// A state that differs from a well-formed one at one key only, and is sound there, is
    /// well formed.
    pub proof fn lemma_wf_but_at(self, after: Materialized, k: Row)
        requires
            self.wf(),
            after.key == self.key,
            after.partial == self.partial,
            forall|h: Row|
                h != k && #[trigger] after.rows.dom().contains(h) ==> self.rows.dom().contains(h)
                    && after.rows[h] == self.rows[h],
            after.rows.dom().contains(k) ==> after.files_under(k, after.rows[k]) && (
            !after.partial ==> after.rows[k].len() > 0),
        ensures
            after.wf(),
    {
        assert forall|h: Row| #[trigger] after.rows.dom().contains(h) implies {
            &&& h.len() == after.key.len()
            &&& !after.partial ==> after.rows[h].len() > 0
            &&& forall|i: int|
                0 <= i < after.rows[h].len() ==> {
                    &&& columns_within(after.key, (#[trigger] after.rows[h][i]).len())
                    &&& project(after.rows[h][i], after.key) == h
                }
        } by {
            if h != k {
                assert(self.rows.dom().contains(h));
            }
        }
    }

    /// Replacing the rows under a key keeps the state well formed.
    pub proof fn lemma_put_wf(self, k: Row, rows: Seq<Row>)
        requires
            self.wf(),
            self.files_under(k, rows),
        ensures
            self.put(k, rows).wf(),
    {
        self.lemma_wf_but_at(self.put(k, rows), k);
    }

    /// Replacing the rows under a key, and then putting back what was there, gives back the
    /// state as it was.
    pub proof fn lemma_put_back(self, k: Row, rows: Seq<Row>)
        requires
            self.wf(),
            self.lookup(k).is_some(),
        ensures
            self.put(k, rows).put(k, self.lookup(k).unwrap()) == self,
    {
        assert(self.put(k, rows).put(k, self.lookup(k).unwrap()).rows =~= self.rows);
    }

    /// The state after `delta` has been applied `n` times over.
    pub open spec fn apply_times(self, delta: Delta, n: nat) -> Materialized
        decreases n,
    {
        if n == 0 {
            self
        } else {
            self.apply_times(delta, (n - 1) as nat).apply(delta)
        }
    }

    /// Applying the insertion of a row together with its deletion leaves the state as it
    /// was.
    pub proof fn lemma_apply_pair(self, row: Row)
        requires
            self.wf(),
        ensures
            self.apply(
                seq![
                    SignedRow { positive: true, row },
                    SignedRow { positive: false, row },
                ],
            ) == self,
    {
        let plus = SignedRow { positive: true, row };
        let minus = SignedRow { positive: false, row };
        let delta = seq![plus, minus];
        assert(delta.drop_last() =~= seq![plus]);
        assert(seq![plus].drop_last() =~= Seq::<SignedRow>::empty());
        assert(delta.last() == minus);
        assert(seq![plus].last() == plus);
        reveal_with_fuel(Materialized::apply_positives, 3);
        reveal_with_fuel(Materialized::apply_negatives, 3);
        assert(self.apply_positives(delta) == self.insert(row));
        assert(self.insert(row).apply_negatives(delta) == self.insert(row).remove(row));
        self.lemma_insert_remove(row);
    }

    /// Applying the exchange of a row for another together with the exchange back leaves
    /// the state as it was: the deletion of `a` with the insertion of `b`, and then the
    /// deletion of `b` with the insertion of `a`.
    pub proof fn lemma_apply_exchange(self, a: Row, b: Row)
        requires
            self.wf(),
            columns_within(self.key, b.len()),
        ensures
            self.apply(
                seq![
                    SignedRow { positive: false, row: a },
                    SignedRow { positive: true, row: b },
                    SignedRow { positive: false, row: b },
                    SignedRow { positive: true, row: a },
                ],
            ) == self,
    {
        let r0 = SignedRow { positive: false, row: a };
        let r1 = SignedRow { positive: true, row: b };
        let r2 = SignedRow { positive: false, row: b };
        let r3 = SignedRow { positive: true, row: a };
        let delta = seq![r0, r1, r2, r3];
        assert(delta.drop_last() =~= seq![r0, r1, r2]);
        assert(seq![r0, r1, r2].drop_last() =~= seq![r0, r1]);
        assert(seq![r0, r1].drop_last() =~= seq![r0]);
        assert(seq![r0].drop_last() =~= Seq::<SignedRow>::empty());
        reveal_with_fuel(Materialized::apply_positives, 5);
        reveal_with_fuel(Materialized::apply_negatives, 5);
        let grown = self.insert(b).insert(a);
        assert(self.apply_positives(delta) == grown);
        assert(grown.apply_negatives(delta) == grown.remove(a).remove(b));
        self.lemma_insert_wf(b);
        self.insert(b).lemma_insert_remove(a);
        self.lemma_insert_remove(b);
    }

    /// However often the insertion of a row together with its deletion is applied, the state
    /// stays as it was.
    pub proof fn lemma_apply_pair_repeated(self, row: Row, n: nat)
        requires
            self.wf(),
        ensures
            self.apply_times(
                seq![
                    SignedRow { positive: true, row },
                    SignedRow { positive: false, row },
                ],
                n,
            ) == self,
        decreases n,
    {
        if n > 0 {
            self.lemma_apply_pair_repeated(row, (n - 1) as nat);
            self.lemma_apply_pair(row);
        }
    }

    /// Inserting a row and then deleting it again gives back the state as it was.
    pub proof fn lemma_insert_remove(self, row: Row)
        requires
            self.wf(),
        ensures
            self.insert(row).remove(row) == self,
    {
        let k = project(row, self.key);
        if self.rows.dom().contains(k) {
            let rows = self.rows[k].push(row);
            lemma_last_index_of(rows, row, rows.len() - 1);
            assert(rows.remove(rows.len() - 1) =~= self.rows[k]);
            assert(self.insert(row).remove(row).rows =~= self.rows);
        } else if !self.partial {
            lemma_last_index_of(seq![row], row, 0);
            assert(seq![row].remove(0) =~= Seq::<Row>::empty());
            assert(self.insert(row).remove(row).rows =~= self.rows);
        }
    }
}

/// Where `last_index_of` is not -1 it is a position of the sequence, and holds `x`.
pub proof fn lemma_last_index_in_range(s: Seq<Row>, x: Row)
    ensures
        -1 <= last_index_of(s, x) < s.len(),
        last_index_of(s, x) >= 0 ==> s[last_index_of(s, x)] == x,
        forall|i: int| last_index_of(s, x) < i < s.len() ==> s[i] != x,
    decreases s.len(),
{
    if s.len() > 0 && s.last() != x {
        lemma_last_index_in_range(s.drop_last(), x);
        assert forall|i: int| last_index_of(s, x) < i < s.len() implies s[i] != x by {
            if i < s.len() - 1 {
                assert(s.drop_last()[i] == s[i]);
            }
        }
    }
}

/// The rows that a state holds under one key.
#[derive(Debug)]
pub struct Entry {
    key: Vec<DataType>,
    rows: Vec<Vec<DataType>>,
}

/// The answer to a lookup.
pub enum LookupResult<'a> {
    /// The state knows the key, and holds these rows under it.
    Hit(&'a Vec<Vec<DataType>>),
    /// The key is a hole of a partial state.
    Miss,
}

impl<'a> LookupResult<'a> {
    /// The rows found, or `None` for a miss.
    pub open spec fn rows(self) -> Option<Seq<Row>> {
        match self {
            LookupResult::Hit(rows) => Some(rows.deep_view()),
            LookupResult::Miss => None,
        }
    }

    /// Whether the lookup missed.
    pub fn is_miss(&self) -> (b: bool)
        ensures
            b == self.rows().is_none(),
    {
        match self {
            LookupResult::Hit(_) => false,
            LookupResult::Miss => true,
        }
    }
}

/// The state of one node: its rows under the values of the key columns.
#[derive(Debug)]
pub struct State {
    key: Vec<usize>,
    partial: bool,
    entries: Vec<Entry>,
    none: Vec<Vec<DataType>>,
}

impl State {
    /// The keys and their rows as a list of pairs.
    pub closed spec fn pairs(self) -> Seq<(Row, Seq<Row>)> {
        Seq::new(
            self.entries@.len(),
            |i: int| (self.entries@[i].key.deep_view(), self.entries@[i].rows.deep_view()),
        )
    }

    /// The model of this state.
    pub closed spec fn view(self) -> Materialized {
        Materialized { key: self.key@, partial: self.partial, rows: assoc_map(self.pairs()) }
    }

    /// The representation is sound: no key is held twice.
    pub closed spec fn inv(self) -> bool {
        &&& distinct_keys(self.pairs())
        &&& self.none@.len() == 0
    }

    /// The state is sound and its model is well formed.
    pub open spec fn wf(self) -> bool {
        self.inv() && self@.wf()
    }

    /// An empty state keyed on the columns `key`.
    pub fn new(key: Vec<usize>, partial: bool) -> (s: State)
        ensures
            s.wf(),
            s@ == Materialized::empty(key@, partial),
    {
        let s = State { key, partial, entries: Vec::new(), none: Vec::new() };
        proof {
            lemma_assoc_empty::<Row, Seq<Row>>();
            assert(s.pairs() =~= Seq::<(Row, Seq<Row>)>::empty());
        }
        s
    }

    /// The columns that the state is keyed on.
    pub fn key_columns(&self) -> (k: &Vec<usize>)
        ensures
            k@ == self@.key,
    {
        &self.key
    }

    /// A state with the same rows under the same keys: a snapshot of this one.
    pub fn copy(&self) -> (c: State)
        requires
            self.wf(),
        ensures
            c.wf(),
            c@ == self@,
    {
        let mut entries: Vec<Entry> = Vec::with_capacity(self.entries.len());
        let mut i: usize = 0;
        while i < self.entries.len()
            invariant
                i <= self.entries@.len(),
                entries@.len() == i,
                forall|j: int|
                    0 <= j < i ==> (#[trigger] entries@[j]).key.deep_view()
                        == self.entries@[j].key.deep_view() && entries@[j].rows.deep_view()
                        == self.entries@[j].rows.deep_view(),
            decreases self.entries@.len() - i,
        {
            entries.push(
                Entry { key: clone_row(&self.entries[i].key), rows: crate::data::clone_rows(&self.entries[i].rows) },
            );
            i += 1;
        }
        let c = State { key: self.key.clone(), partial: self.partial, entries, none: Vec::new() };
        proof {
            assert(c.pairs() =~= self.pairs());
            assert(c.key@ == self.key@);
        }
        c
    }

    /// Whether the state may have holes.
    pub fn is_partial(&self) -> (b: bool)
        ensures
            b == self@.partial,
    {
        self.partial
    }

    /// The number of keys that the state knows.
    pub fn len(&self) -> (n: usize)
        requires
            self.wf(),
        ensures
            self@.rows.dom().finite(),
            n == self@.rows.dom().len(),
    {
        proof {
            lemma_assoc_len(self.pairs());
        }
        self.entries.len()
    }

    /// The number of rows that the state holds, over all the keys that it knows, or the
    /// most that can be counted.
    pub fn size(&self) -> (n: usize)
        requires
            self.wf(),
        ensures
            self@.rows.dom().finite(),
            n == if self@.size() <= usize::MAX {
                self@.size()
            } else {
                usize::MAX as nat
            },
    {
        let ghost pairs = self.pairs();
        let ghost mut sum: nat = 0;
        let mut n: usize = 0;
        let mut i: usize = 0;
        proof {
            lemma_assoc_len(pairs);
            lemma_assoc_empty::<Row, Seq<Row>>();
            assert(pairs.take(0) =~= Seq::<(Row, Seq<Row>)>::empty());
            vstd::set::fold::lemma_fold_empty::<Row, nat>(
                0nat,
                counting(Map::<Row, Seq<Row>>::empty()),
            );
        }
        while i < self.entries.len()
            invariant
                i <= self.entries@.len(),
                pairs == self.pairs(),
                pairs.len() == self.entries@.len(),
                distinct_keys(pairs),
                sum == total(assoc_map(pairs.take(i as int))),
                n == if sum <= usize::MAX {
                    sum
                } else {
                    usize::MAX as nat
                },
            decreases self.entries@.len() - i,
        {
            let more: usize = self.entries[i].rows.len();
            proof {
                let before = pairs.take(i as int);
                let pair = pairs[i as int];
                assert(pairs.take(i + 1) =~= before.push(pair));
                assert(distinct_keys(before)) by {
                    assert forall|a: int, b: int| 0 <= a < b < before.len() implies (
                    #[trigger] before[a]).0 != (#[trigger] before[b]).0 by {
                        assert(before[a] == pairs[a] && before[b] == pairs[b]);
                    }
                }
                assert(!has_key(before, pair.0)) by {
                    if has_key(before, pair.0) {
                        let j = crate::assoc::index_of_key(before, pair.0);
                        assert(before[j] == pairs[j]);
                    }
                }
                lemma_assoc_push(before, pair.0, pair.1);
                lemma_assoc_len(before);
                lemma_total_insert_new(assoc_map(before), pair.0, pair.1);
                assert(pair.1.len() == more);
                sum = sum + more as nat;
            }
            n = n.saturating_add(more);
            i += 1;
        }
        proof {
            assert(pairs.take(self.entries@.len() as int) =~= pairs);
        }
        n
    }

    /// Whether the state knows no key.
    pub fn is_empty(&self) -> (b: bool)
        requires
            self.wf(),
        ensures
            b == (self@.rows == Map::<Row, Seq<Row>>::empty()),
    {
        proof {
            lemma_assoc_len(self.pairs());
            if self.entries@.len() == 0 {
                assert(self@.rows =~= Map::<Row, Seq<Row>>::empty());
            } else {
                lemma_assoc_at(self.pairs(), 0);
            }
        }
        self.entries.len() == 0
    }

    /// The position of the entry for `key`, if there is one.
    fn find(&self, key: &Vec<DataType>) -> (r: Option<usize>)
        requires
            self.inv(),
        ensures
            r.is_some() == self@.rows.dom().contains(key.deep_view()),
            r.is_some() ==> {
                &&& r.unwrap() < self.entries@.len()
                &&& self.pairs()[r.unwrap() as int].0 == key.deep_view()
                &&& self@.rows[key.deep_view()] == self.pairs()[r.unwrap() as int].1
            },
    {
        let mut i: usize = 0;
        while i < self.entries.len()
            invariant
                self.inv(),
                i <= self.entries@.len(),
                forall|j: int| 0 <= j < i ==> (#[trigger] self.pairs()[j]).0 != key.deep_view(),
            decreases self.entries@.len() - i,
        {
            if rows_equal(&self.entries[i].key, key) {
                proof {
                    lemma_assoc_at(self.pairs(), i as int);
                }
                return Some(i);
            }
            i += 1;
        }
        proof {
            lemma_assoc_absent(self.pairs(), key.deep_view());
        }
        None
    }

    /// Looks up the rows under `key`.
    pub fn lookup(&self, key: &Vec<DataType>) -> (r: LookupResult<'_>)
        requires
            self.wf(),
        ensures
            r.rows() == self@.lookup(key.deep_view()),
    {
        match self.find(key) {
            Some(i) => LookupResult::Hit(&self.entries[i].rows),
            None => {
                if self.partial {
                    LookupResult::Miss
                } else {
                    assert(self.none.deep_view() =~= Seq::<Row>::empty());
                    LookupResult::Hit(&self.none)
                }
            },
        }
    }

    /// Whether the state knows `key`: whether a lookup of it would not miss.
    pub fn knows(&self, key: &Vec<DataType>) -> (b: bool)
        requires
            self.wf(),
        ensures
            b == self@.lookup(key.deep_view()).is_some(),
    {
        !self.partial || self.find(key).is_some()
    }

    /// Inserts `row`. Returns whether the state took the row: a partial state drops a row
    /// whose key is a hole.
    pub fn insert(&mut self, row: Vec<DataType>) -> (stored: bool)
        requires
            old(self).wf(),
            columns_within(old(self)@.key, row@.len()),
        ensures
            final(self).wf(),
            final(self)@ == old(self)@.insert(row.deep_view()),
            stored == (old(self)@.lookup(project(row.deep_view(), old(self)@.key)).is_some()),
    {
        let key = project_row(&row, &self.key);
        proof {
            old(self)@.lemma_insert_wf(row.deep_view());
        }
        match self.find(&key) {
            Some(i) => {
                let ghost before = self.pairs();
                let ghost r = row.deep_view();
                self.entries[i].rows.push(row);
                proof {
                    assert(self.entries@[i as int].rows.deep_view() =~= before[i as int].1.push(r));
                    assert(self.pairs() =~= before.update(
                        i as int,
                        (before[i as int].0, before[i as int].1.push(r)),
                    ));
                    lemma_assoc_update(before, i as int, before[i as int].1.push(r));
                }
                true
            },
            None => {
                if self.partial {
                    false
                } else {
                    let ghost before = self.pairs();
                    let ghost r = row.deep_view();
                    let mut rows: Vec<Vec<DataType>> = Vec::new();
                    rows.push(row);
                    self.entries.push(Entry { key, rows });
                    proof {
                        assert(rows.deep_view() =~= seq![r]);
                        assert(self.pairs() =~= before.push((key.deep_view(), seq![r])));
                        lemma_assoc_push(before, key.deep_view(), seq![r]);
                    }
                    true
                }
            },
        }
    }

    /// Deletes the last occurrence of `row`. Returns whether the state held the row.
    pub fn remove(&mut self, row: &Vec<DataType>) -> (found: bool)
        requires
            old(self).wf(),
            columns_within(old(self)@.key, row@.len()),
        ensures
            final(self).wf(),
            final(self)@ == old(self)@.remove(row.deep_view()),
            found == (final(self)@ != old(self)@),
    {
        let key = project_row(row, &self.key);
        proof {
            old(self)@.lemma_remove_wf(row.deep_view());
        }
        let i: usize = match self.find(&key) {
            Some(i) => i,
            None => {
                return false;
            },
        };
        let mut j: usize = self.entries[i].rows.len();
        while j > 0
            invariant
                *self == *old(self),
                self.wf(),
                old(self)@.remove(row.deep_view()).wf(),
                key.deep_view() == project(row.deep_view(), self@.key),
                self@.rows.dom().contains(key.deep_view()),
                self.pairs()[i as int].0 == key.deep_view(),
                self@.rows[key.deep_view()] == self.pairs()[i as int].1,
                i < self.entries@.len(),
                j <= self.entries@[i as int].rows@.len(),
                forall|h: int|
                    j <= h < self.entries@[i as int].rows@.len() ==> (
                    #[trigger] self.entries@[i as int].rows@[h]).deep_view() != row.deep_view(),
            decreases j,
        {
            if rows_equal(&self.entries[i].rows[j - 1], row) {
                let ghost before = self.pairs();
                let ghost held = before[i as int].1;
                proof {
                    assert(held[j - 1] == row.deep_view());
                    lemma_last_index_of(held, row.deep_view(), j - 1);
                }
                self.entries[i].rows.remove(j - 1);
                proof {
                    assert(self.entries@[i as int].rows.deep_view() =~= held.remove(j - 1));
                    assert(held.remove(j - 1).len() == held.len() - 1);
                }
                if self.entries[i].rows.len() == 0 && !self.partial {
                    let ghost mid = self.pairs();
                    self.entries.remove(i);
                    proof {
                        assert(self.pairs() =~= before.remove(i as int));
                        lemma_assoc_remove(before, i as int);
                        lemma_assoc_at(before, i as int);
                    }
                } else {
                    proof {
                        assert(self.pairs() =~= before.update(
                            i as int,
                            (before[i as int].0, held.remove(j - 1)),
                        ));
                        lemma_assoc_update(before, i as int, held.remove(j - 1));
                        lemma_assoc_at(before, i as int);
                        assert(final(self)@.rows[key.deep_view()].len() != old(
                            self,
                        )@.rows[key.deep_view()].len());
                    }
                }
                return true;
            }
            j -= 1;
        }
        proof {
            let held = self.pairs()[i as int].1;
            assert forall|h: int| -1 < h < held.len() implies held[h] != row.deep_view() by {
                assert(self.entries@[i as int].rows@[h].deep_view() != row.deep_view());
            }
            lemma_last_index_of(held, row.deep_view(), -1);
        }
        false
    }

    /// Marks `key` as filled: a partial state then knows the key, with no rows yet.
    pub fn mark_filled(&mut self, key: Vec<DataType>)
        requires
            old(self).wf(),
            key@.len() == old(self)@.key.len(),
        ensures
            final(self).wf(),
            final(self)@ == old(self)@.fill(key.deep_view()),
    {
        if self.partial && self.find(&key).is_none() {
            let ghost before = self.pairs();
            let ghost k = key.deep_view();
            self.entries.push(Entry { key, rows: Vec::new() });
            proof {
                assert(self.entries@[before.len() as int].rows.deep_view() =~= Seq::<Row>::empty());
                assert(self.pairs() =~= before.push((k, Seq::<Row>::empty())));
                lemma_assoc_push(before, k, Seq::<Row>::empty());
                assert(final(self)@.wf()) by {
                    assert forall|h: Row| #[trigger]
                        final(self)@.rows.dom().contains(h) implies {
                        &&& h.len() == final(self)@.key.len()
                        &&& !final(self)@.partial ==> final(self)@.rows[h].len() > 0
                        &&& forall|i: int|
                            0 <= i < final(self)@.rows[h].len() ==> {
                                &&& columns_within(
                                    final(self)@.key,
                                    (#[trigger] final(self)@.rows[h][i]).len(),
                                )
                                &&& project(final(self)@.rows[h][i], final(self)@.key) == h
                            }
                    } by {
                        if h != k {
                            assert(old(self)@.rows.dom().contains(h));
                        }
                    }
                }
            }
        }
    }

    /// Evicts `key`: a partial state forgets the key and its rows. Returns whether the state
    /// knew the key and could evict it.
    pub fn evict(&mut self, key: &Vec<DataType>) -> (evicted: bool)
        requires
            old(self).wf(),
        ensures
            final(self).wf(),
            final(self)@ == old(self)@.evict(key.deep_view()),
            evicted == (old(self)@.partial && old(self)@.rows.dom().contains(key.deep_view())),
    {
        if !self.partial {
            return false;
        }
        match self.find(key) {
            Some(i) => {
                let ghost before = self.pairs();
                self.entries.remove(i);
                proof {
                    assert(self.pairs() =~= before.remove(i as int));
                    lemma_assoc_remove(before, i as int);
                    assert(final(self)@.wf()) by {
                        assert forall|h: Row| #[trigger]
                            final(self)@.rows.dom().contains(h) implies {
                            &&& h.len() == final(self)@.key.len()
                            &&& !final(self)@.partial ==> final(self)@.rows[h].len() > 0
                            &&& forall|i: int|
                                0 <= i < final(self)@.rows[h].len() ==> {
                                    &&& columns_within(
                                        final(self)@.key,
                                        (#[trigger] final(self)@.rows[h][i]).len(),
                                    )
                                    &&& project(final(self)@.rows[h][i], final(self)@.key) == h
                                }
                        } by {
                            assert(old(self)@.rows.dom().contains(h));
                        }
                    }
                }
                true
            },
            None => {
                assert(self@.rows.remove(key.deep_view()) =~= self@.rows);
                false
            },
        }
    }

    /// Replaces the rows under `key` by `rows`. A hole of a partial state stays a hole, and
    /// `false` is returned.
    pub fn put(&mut self, key: &Vec<DataType>, rows: Vec<Vec<DataType>>) -> (known: bool)
        requires
            old(self).wf(),
            old(self)@.files_under(key.deep_view(), rows.deep_view()),
        ensures
            final(self).wf(),
            final(self)@ == old(self)@.put(key.deep_view(), rows.deep_view()),
            known == old(self)@.lookup(key.deep_view()).is_some(),
    {
        proof {
            old(self)@.lemma_put_wf(key.deep_view(), rows.deep_view());
            assert(rows.deep_view().len() == rows@.len());
        }
        let ghost before = self.pairs();
        match self.find(key) {
            Some(i) => {
                if rows.len() == 0 && !self.partial {
                    self.entries.remove(i);
                    proof {
                        assert(self.pairs() =~= before.remove(i as int));
                        lemma_assoc_remove(before, i as int);
                    }
                } else {
                    let ghost r = rows.deep_view();
                    self.entries[i].rows = rows;
                    proof {
                        assert(self.pairs() =~= before.update(i as int, (before[i as int].0, r)));
                        lemma_assoc_update(before, i as int, r);
                    }
                }
                true
            },
            None => {
                if self.partial {
                    false
                } else {
                    if rows.len() > 0 {
                        let ghost r = rows.deep_view();
                        let k = clone_row(key);
                        self.entries.push(Entry { key: k, rows });
                        proof {
                            assert(self.pairs() =~= before.push((key.deep_view(), r)));
                            lemma_assoc_push(before, key.deep_view(), r);
                        }
                    } else {
                        assert(self@.rows.remove(key.deep_view()) =~= self@.rows);
                    }
                    true
                }
            },
        }
    }

    /// Installs what a replay has brought for `key`: the key is filled and holds `rows`.
    pub fn install(&mut self, key: &Vec<DataType>, rows: Vec<Vec<DataType>>)
        requires
            old(self).wf(),
            old(self)@.files_under(key.deep_view(), rows.deep_view()),
        ensures
            final(self).wf(),
            final(self)@ == old(self)@.install(key.deep_view(), rows.deep_view()),
    {
        assert(key@.len() == key.deep_view().len());
        self.mark_filled(clone_row(key));
        self.put(key, rows);
    }

    /// Applies a batch of records: inserts the row of each positive record, in order, then
    /// deletes the row of each negative record, in order.
    pub fn apply(&mut self, records: &Vec<Record>)
        requires
            old(self).wf(),
            old(self)@.accepts(records.deep_view()),
        ensures
            final(self).wf(),
            final(self)@ == old(self)@.apply(records.deep_view()),
    {
        let ghost delta = records.deep_view();
        let mut i: usize = 0;
        while i < records.len()
            invariant
                i <= records@.len(),
                delta == records.deep_view(),
                old(self)@.accepts(delta),
                self.wf(),
                self@.key == old(self)@.key,
                self@ == old(self)@.apply_positives(delta.take(i as int)),
            decreases records@.len() - i,
        {
            proof {
                assert(delta.take(i + 1).drop_last() =~= delta.take(i as int));
                assert(delta.take(i + 1).last() == delta[i as int]);
                assert(delta[i as int] == records@[i as int]@);
                assert(columns_within(self@.key, delta[i as int].row.len()));
            }
            if records[i].is_positive() {
                let row = clone_row(records[i].row());
                assert(row@.len() == row.deep_view().len());
                self.insert(row);
            }
            i += 1;
        }
        assert(delta.take(records@.len() as int) =~= delta);
        let ghost mid = self@;
        let mut i: usize = 0;
        while i < records.len()
            invariant
                i <= records@.len(),
                delta == records.deep_view(),
                old(self)@.accepts(delta),
                self.wf(),
                self@.key == old(self)@.key,
                self@ == mid.apply_negatives(delta.take(i as int)),
            decreases records@.len() - i,
        {
            proof {
                assert(delta.take(i + 1).drop_last() =~= delta.take(i as int));
                assert(delta.take(i + 1).last() == delta[i as int]);
                assert(delta[i as int] == records@[i as int]@);
                assert(columns_within(self@.key, delta[i as int].row.len()));
            }
            if !records[i].is_positive() {
                let row = records[i].row();
                assert(row@.len() == row.deep_view().len());
                self.remove(row);
            }
            i += 1;
        }
        assert(delta.take(records@.len() as int) =~= delta);
    }

    /// Whether `rows` may stand under `key`: the key has as many values as the state has key
    /// columns, and each row is wide enough and has the key in its key columns.
    pub fn check_files_under(&self, key: &Vec<DataType>, rows: &Vec<Vec<DataType>>) -> (b: bool)
        ensures
            b == self@.files_under(key.deep_view(), rows.deep_view()),
    {
        assert(key.deep_view().len() == key@.len());
        assert(rows.deep_view().len() == rows@.len());
        if key.len() != self.key.len() {
            return false;
        }
        let mut i: usize = 0;
        while i < rows.len()
            invariant
                i <= rows@.len(),
                rows.deep_view().len() == rows@.len(),
                forall|j: int|
                    0 <= j < i ==> {
                        &&& columns_within(self@.key, (#[trigger] rows.deep_view()[j]).len())
                        &&& project(rows.deep_view()[j], self@.key) == key.deep_view()
                    },
            decreases rows@.len() - i,
        {
            let row = &rows[i];
            proof {
                assert(rows.deep_view()[i as int] == row.deep_view());
                assert(row.deep_view().len() == row@.len());
            }
            if !crate::data::check_columns_within(&self.key, row.len()) {
                return false;
            }
            let k = project_row(row, &self.key);
            if !rows_equal(&k, key) {
                return false;
            }
            i += 1;
        }
        true
    }
}

/// What a full state holds under a key after a row has been inserted: the rows that it held,
/// and the row after them if the row has that key.
pub proof fn lemma_lookup_after_insert(m: Materialized, row: Row, k: Row)
    requires
        !m.partial,
    ensures
        m.insert(row).lookup(k) == Some(
            if project(row, m.key) == k {
                m.lookup(k).unwrap().push(row)
            } else {
                m.lookup(k).unwrap()
            },
        ),
{
    if project(row, m.key) == k {
        if !m.rows.dom().contains(k) {
            assert(Seq::<Row>::empty().push(row) =~= seq![row]);
        }
    }
}

} // verus!
