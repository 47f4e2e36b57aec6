//! The sharder: routes each record to the shard that the hash of one of its columns selects.

use crate::addressing::{IndexPair, LocalNodeIndex, NodeIndex, Remap};
use crate::data::{project, Delta, Record, Row, SignedRow};
use crate::ops::topk::count_of;
use crate::ops::join_laws::{all_positive, lemma_size_after_inserts};
use crate::sharding::{shard_by, shard_of};
use crate::state::Materialized;
use vstd::prelude::*;

verus! {

/// Divides the records of its parent among the shards of its child.
#[derive(Clone, Copy, Debug)]
pub struct Sharder {
    src: IndexPair,
    column: usize,
    shards: usize,
}

impl Sharder {
    /// The parent.
    pub closed spec fn source(self) -> IndexPair {
        self.src
    }

    /// The column whose value selects the shard.
    pub closed spec fn sharded_by(self) -> usize {
        self.column
    }

    /// The number of shards.
    pub closed spec fn fan_out(self) -> usize {
        self.shards
    }

    /// The records of `delta` that go to the shard `shard`, in order.
    pub open spec fn share(self, delta: Delta, shard: nat) -> Delta {
        delta.filter(
            |r: SignedRow| shard_of(r.row[self.sharded_by() as int], self.fan_out() as nat) == shard,
        )
    }

    /// The shard that the record `r` goes to.
    pub open spec fn shard_taking(self, r: SignedRow) -> nat {
        shard_of(r.row[self.sharded_by() as int], self.fan_out() as nat)
    }

    /// How many records of `delta` go to the shard `shard`.
    pub open spec fn going_to(self, delta: Delta, shard: nat) -> nat
        decreases delta.len(),
    {
        if delta.len() == 0 {
            0
        } else {
            self.going_to(delta.drop_last(), shard) + if self.shard_taking(delta.last()) == shard {
                1nat
            } else {
                0nat
            }
        }
    }

    /// How many records of `delta` go to one of the first `n` shards.
    pub open spec fn going_below(self, delta: Delta, n: nat) -> nat
        decreases delta.len(),
    {
        if delta.len() == 0 {
            0
        } else {
            self.going_below(delta.drop_last(), n) + if self.shard_taking(delta.last()) < n {
                1nat
            } else {
                0nat
            }
        }
    }

    /// The number of records that the first `n` shards get of `delta`, together.
    pub open spec fn shared_upto(self, delta: Delta, n: nat) -> nat
        decreases n,
    {
        if n == 0 {
            0
        } else {
            self.shared_upto(delta, (n - 1) as nat) + self.share(delta, (n - 1) as nat).len()
        }
    }

    /// The batch of a shard holds the records that go to the shard.
    pub proof fn lemma_share_len(self, delta: Delta, shard: nat)
        ensures
            self.share(delta, shard).len() == self.going_to(delta, shard),
        decreases delta.len(),
    {
        reveal(Seq::filter);
        if delta.len() > 0 {
            self.lemma_share_len(delta.drop_last(), shard);
        }
    }

    /// The records that go to one of the first shards or to the next one.
    pub proof fn lemma_going_below(self, delta: Delta, n: nat)
        ensures
            self.going_below(delta, n + 1) == self.going_below(delta, n) + self.going_to(delta, n),
        decreases delta.len(),
    {
        if delta.len() > 0 {
            self.lemma_going_below(delta.drop_last(), n);
        }
    }

    /// The first shards get, together, the records that go to one of them.
    pub proof fn lemma_shared_upto(self, delta: Delta, n: nat)
        ensures
            self.shared_upto(delta, n) == self.going_below(delta, n),
        decreases n,
    {
        if n == 0 {
            self.lemma_none_below(delta);
        } else {
            self.lemma_shared_upto(delta, (n - 1) as nat);
            self.lemma_share_len(delta, (n - 1) as nat);
            self.lemma_going_below(delta, (n - 1) as nat);
        }
    }

    /// No record goes to a shard before the first.
    pub proof fn lemma_none_below(self, delta: Delta)
        ensures
            self.going_below(delta, 0) == 0,
        decreases delta.len(),
    {
        if delta.len() > 0 {
            self.lemma_none_below(delta.drop_last());
        }
    }

    /// Every record goes to exactly one shard: the batches of the shards hold, together,
    /// as many records as the batch that was divided.
    pub proof fn lemma_shares_cover(self, delta: Delta)
        requires
            self.wf(),
        ensures
            self.shared_upto(delta, self.fan_out() as nat) == delta.len(),
    {
        self.lemma_shared_upto(delta, self.fan_out() as nat);
        self.lemma_all_below(delta);
    }

    /// Every record goes to one of the shards.
    pub proof fn lemma_all_below(self, delta: Delta)
        requires
            self.wf(),
        ensures
            self.going_below(delta, self.fan_out() as nat) == delta.len(),
        decreases delta.len(),
    {
        if delta.len() > 0 {
            self.lemma_all_below(delta.drop_last());
            assert(self.shard_taking(delta.last()) < self.fan_out());
        }
    }

    /// The state `below` after it has taken in the batches of the first `n` shards, one
    /// after the other.
    pub open spec fn fed(self, below: Materialized, delta: Delta, n: nat) -> Materialized
        decreases n,
    {
        if n == 0 {
            below
        } else {
            self.fed(below, delta, (n - 1) as nat).apply(self.share(delta, (n - 1) as nat))
        }
    }

    /// A reader that is not sharded, below a sharded node, counts every write once: a full
    /// state that takes in the batches of all the shards of a batch of insertions holds as
    /// many rows more as the batch has records.
    pub proof fn lemma_reader_counts_every_write(self, below: Materialized, delta: Delta)
        requires
            self.wf(),
            !below.partial,
            below.rows.dom().finite(),
            all_positive(delta),
        ensures
            self.fed(below, delta, self.fan_out() as nat).size() == below.size() + delta.len(),
    {
        self.lemma_fed_size(below, delta, self.fan_out() as nat);
        self.lemma_shares_cover(delta);
    }

    /// A full state that takes in the batches of the first shards holds their records more.
    pub proof fn lemma_fed_size(self, below: Materialized, delta: Delta, n: nat)
        requires
            !below.partial,
            below.rows.dom().finite(),
            all_positive(delta),
        ensures
            !self.fed(below, delta, n).partial,
            self.fed(below, delta, n).rows.dom().finite(),
            self.fed(below, delta, n).size() == below.size() + self.shared_upto(delta, n),
        decreases n,
    {
        if n > 0 {
            self.lemma_fed_size(below, delta, (n - 1) as nat);
            let share = self.share(delta, (n - 1) as nat);
            assert(all_positive(share)) by {
                assert forall|i: int| 0 <= i < share.len() implies (#[trigger] share[i]).positive by {
                    delta.lemma_filter_contains_rev(
                        |r: SignedRow|
                            shard_of(r.row[self.sharded_by() as int], self.fan_out() as nat) == (n
                                - 1) as nat,
                        share[i],
                    );
                }
            }
            lemma_size_after_inserts(self.fed(below, delta, (n - 1) as nat), share);
        }
    }

    /// How many records of `delta` hold the row `x`, where `x` has the key `k` in the
    /// columns `key`; none where it has another key.
    pub open spec fn hits(delta: Delta, key: Seq<usize>, k: Row, x: Row) -> nat
        decreases delta.len(),
    {
        if delta.len() == 0 {
            0
        } else {
            Self::hits(delta.drop_last(), key, k, x) + if delta.last().row == x && project(
                x,
                key,
            ) == k {
                1nat
            } else {
                0nat
            }
        }
    }

    /// How many of such records go to one of the first `n` shards.
    pub open spec fn hits_below(self, delta: Delta, n: nat, key: Seq<usize>, k: Row, x: Row) -> nat
        decreases delta.len(),
    {
        if delta.len() == 0 {
            0
        } else {
            self.hits_below(delta.drop_last(), n, key, k, x) + if delta.last().row == x
                && project(x, key) == k && self.shard_taking(delta.last()) < n {
                1nat
            } else {
                0nat
            }
        }
    }

    /// The batch of a shard holds a row as often as records with the row go to the shard.
    pub proof fn lemma_share_hits(self, delta: Delta, n: nat, key: Seq<usize>, k: Row, x: Row)
        ensures
            self.hits_below(delta, n + 1, key, k, x) == self.hits_below(delta, n, key, k, x)
                + Self::hits(self.share(delta, n), key, k, x),
        decreases delta.len(),
    {
        reveal(Seq::filter);
        if delta.len() > 0 {
            self.lemma_share_hits(delta.drop_last(), n, key, k, x);
            if self.shard_taking(delta.last()) == n {
                assert(self.share(delta, n).drop_last() =~= self.share(delta.drop_last(), n));
            }
        }
    }

    /// Every such record goes to one of the shards.
    pub proof fn lemma_hits_all_below(self, delta: Delta, key: Seq<usize>, k: Row, x: Row)
        requires
            self.wf(),
        ensures
            self.hits_below(delta, self.fan_out() as nat, key, k, x) == Self::hits(
                delta,
                key,
                k,
                x,
            ),
        decreases delta.len(),
    {
        if delta.len() > 0 {
            self.lemma_hits_all_below(delta.drop_last(), key, k, x);
            assert(self.shard_taking(delta.last()) < self.fan_out());
        }
    }

    /// What a full state holds of a row under a key after a batch of insertions: what it
    /// held, and the occurrences of the row in the batch.
    pub proof fn lemma_apply_hits(m: Materialized, delta: Delta, k: Row, x: Row)
        requires
            !m.partial,
            all_positive(delta),
        ensures
            !m.apply(delta).partial,
            m.apply(delta).key == m.key,
            m.apply(delta).lookup(k).is_some(),
            count_of(m.apply(delta).lookup(k).unwrap(), x) == count_of(m.lookup(k).unwrap(), x)
                + Self::hits(delta, m.key, k, x),
        decreases delta.len(),
    {
        crate::ops::join_laws::lemma_no_negatives(m.apply_positives(delta), delta);
        Self::lemma_positives_hits(m, delta, k, x);
    }

    /// The insertions of a batch add the occurrences of a row to what a full state holds.
    pub proof fn lemma_positives_hits(m: Materialized, delta: Delta, k: Row, x: Row)
        requires
            !m.partial,
            all_positive(delta),
        ensures
            !m.apply_positives(delta).partial,
            m.apply_positives(delta).key == m.key,
            m.apply_positives(delta).lookup(k).is_some(),
            count_of(m.apply_positives(delta).lookup(k).unwrap(), x) == count_of(
                m.lookup(k).unwrap(),
                x,
            ) + Self::hits(delta, m.key, k, x),
        decreases delta.len(),
    {
        if delta.len() > 0 {
            assert(all_positive(delta.drop_last())) by {
                assert forall|i: int| 0 <= i < delta.drop_last().len() implies (
                #[trigger] delta.drop_last()[i]).positive by {
                    assert(delta.drop_last()[i] == delta[i]);
                }
            }
            Self::lemma_positives_hits(m, delta.drop_last(), k, x);
            assert(delta[delta.len() - 1].positive);
            let before = m.apply_positives(delta.drop_last());
            let row = delta.last().row;
            crate::state::lemma_lookup_after_insert(before, row, k);
            if project(row, m.key) == k {
                let held = before.lookup(k).unwrap();
                assert(held.push(row).drop_last() =~= held);
                if row == x {
                    assert(project(x, m.key) == k);
                }
            } else if row == x {
                assert(project(x, m.key) != k);
            }
        }
    }

    /// A reader that is not sharded, below a sharded node, holds every write under its key:
    /// a full state that takes in the batches of all the shards of a batch of insertions
    /// holds each row under each key as often as it held it, and as the batch holds it with
    /// that key: none is lost, none is doubled, and none comes under another key.
    pub proof fn lemma_reader_holds_every_write(
        self,
        below: Materialized,
        delta: Delta,
        k: Row,
        x: Row,
    )
        requires
            self.wf(),
            !below.partial,
            all_positive(delta),
        ensures
            self.fed(below, delta, self.fan_out() as nat).lookup(k).is_some(),
            count_of(self.fed(below, delta, self.fan_out() as nat).lookup(k).unwrap(), x)
                == count_of(below.lookup(k).unwrap(), x) + Self::hits(delta, below.key, k, x),
    {
        self.lemma_fed_hits(below, delta, self.fan_out() as nat, k, x);
        self.lemma_hits_all_below(delta, below.key, k, x);
    }

    /// What a full state holds of a row after it has taken in the batches of the first
    /// shards.
    pub proof fn lemma_fed_hits(self, below: Materialized, delta: Delta, n: nat, k: Row, x: Row)
        requires
            !below.partial,
            all_positive(delta),
        ensures
            !self.fed(below, delta, n).partial,
            self.fed(below, delta, n).key == below.key,
            self.fed(below, delta, n).lookup(k).is_some(),
            count_of(self.fed(below, delta, n).lookup(k).unwrap(), x) == count_of(
                below.lookup(k).unwrap(),
                x,
            ) + self.hits_below(delta, n, below.key, k, x),
        decreases n,
    {
        if n == 0 {
            self.lemma_no_hits_below(delta, below.key, k, x);
        } else {
            self.lemma_fed_hits(below, delta, (n - 1) as nat, k, x);
            let share = self.share(delta, (n - 1) as nat);
            assert(all_positive(share)) by {
                assert forall|i: int| 0 <= i < share.len() implies (#[trigger] share[i]).positive by {
                    delta.lemma_filter_contains_rev(
                        |r: SignedRow|
                            shard_of(r.row[self.sharded_by() as int], self.fan_out() as nat) == (n
                                - 1) as nat,
                        share[i],
                    );
                }
            }
            Self::lemma_apply_hits(self.fed(below, delta, (n - 1) as nat), share, k, x);
            self.lemma_share_hits(delta, (n - 1) as nat, below.key, k, x);
        }
    }

    /// No such record goes to a shard before the first.
    pub proof fn lemma_no_hits_below(self, delta: Delta, key: Seq<usize>, k: Row, x: Row)
        ensures
            self.hits_below(delta, 0, key, k, x) == 0,
        decreases delta.len(),
    {
        if delta.len() > 0 {
            self.lemma_no_hits_below(delta.drop_last(), key, k, x);
        }
    }

    /// Whether every row of `delta` has the column that selects the shard.
    pub open spec fn accepts(self, delta: Delta) -> bool {
        forall|i: int| 0 <= i < delta.len() ==> self.sharded_by() < (#[trigger] delta[i]).row.len()
    }

    /// A sharder below `src` that divides by the column `column` among `shards` shards, or
    /// `None` where `shards` is zero.
    pub fn new(src: NodeIndex, column: usize, shards: usize) -> (s: Option<Sharder>)
        ensures
            s.is_some() == (shards > 0),
            s.is_some() ==> {
                &&& s.unwrap().source().spec_global() == src
                &&& s.unwrap().source().spec_local().is_none()
                &&& s.unwrap().sharded_by() == column
                &&& s.unwrap().fan_out() == shards
                &&& s.unwrap().wf()
            },
    {
        if shards == 0 {
            None
        } else {
            Some(Sharder { src: IndexPair::new(src), column, shards })
        }
    }

    /// There is at least one shard.
    pub closed spec fn wf(self) -> bool {
        self.shards > 0
    }

    /// The parents of this operator: the one that it was made with.
    pub fn ancestors(&self) -> (a: Vec<NodeIndex>)
        ensures
            a@ == seq![self.source().spec_global()],
    {
        let mut a: Vec<NodeIndex> = Vec::new();
        a.push(self.src.as_global());
        assert(a@ =~= seq![self.source().spec_global()]);
        a
    }

    /// Localizes the reference to the parent.
    pub fn on_commit(&mut self, _us: NodeIndex, remap: &Remap)
        requires
            remap.wf(),
        ensures
            final(self).source() == if remap@.dom().contains(old(self).source().spec_global()) {
                remap@[old(self).source().spec_global()]
            } else {
                old(self).source()
            },
            final(self).sharded_by() == old(self).sharded_by(),
            final(self).fan_out() == old(self).fan_out(),
            final(self).wf() == old(self).wf(),
    {
        self.src.remap(remap);
    }

    /// The shard that a record goes to.
    pub fn shard_for(&self, record: &Record) -> (s: usize)
        requires
            self.wf(),
            self.sharded_by() < record@.row.len(),
        ensures
            s == shard_of(record@.row[self.sharded_by() as int], self.fan_out() as nat),
            s < self.fan_out(),
    {
        let row = record.row();
        assert(row@.len() == row.deep_view().len());
        assert(row.deep_view()[self.column as int] == row@[self.column as int]@);
        shard_by(&row[self.column], self.shards)
    }

    /// Divides a batch among the shards: the result has one batch for each shard, which
    /// holds, in order, the records whose sharding column hashes to that shard. Every record
    /// goes to exactly one shard.
    pub fn on_input(&self, _from: LocalNodeIndex, rs: Vec<Record>) -> (out: Vec<Vec<Record>>)
        requires
            self.wf(),
            self.accepts(rs.deep_view()),
        ensures
            out@.len() == self.fan_out(),
            forall|s: int|
                0 <= s < self.fan_out() ==> (#[trigger] out@[s]).deep_view() == self.share(
                    rs.deep_view(),
                    s as nat,
                ),
    {
        let ghost delta = rs.deep_view();
        let mut out: Vec<Vec<Record>> = Vec::new();
        let mut s: usize = 0;
        proof {
            reveal(Seq::filter);
            assert(delta.take(0) =~= Seq::<SignedRow>::empty());
        }
        while s < self.shards
            invariant
                s <= self.shards,
                out@.len() == s,
                delta.take(0) == Seq::<SignedRow>::empty(),
                forall|t: int|
                    0 <= t < s ==> (#[trigger] out@[t]).deep_view() == self.share(
                        delta.take(0),
                        t as nat,
                    ),
            decreases self.shards - s,
        {
            let batch: Vec<Record> = Vec::new();
            proof {
                reveal(Seq::filter);
                assert(batch.deep_view() =~= self.share(delta.take(0), s as nat));
            }
            out.push(batch);
            s += 1;
        }
        let mut i: usize = 0;
        while i < rs.len()
            invariant
                self.wf(),
                self.accepts(delta),
                delta == rs.deep_view(),
                i <= rs@.len(),
                out@.len() == self.fan_out(),
                forall|t: int|
                    0 <= t < self.fan_out() ==> (#[trigger] out@[t]).deep_view() == self.share(
                        delta.take(i as int),
                        t as nat,
                    ),
            decreases rs@.len() - i,
        {
            proof {
                assert(delta[i as int] == rs@[i as int]@);
                assert(delta.take(i + 1) =~= delta.take(i as int).push(delta[i as int]));
            }
            let shard: usize = self.shard_for(&rs[i]);
            let ghost before = out@;
            let ghost held = out@[shard as int].deep_view();
            out[shard].push(rs[i].deep_clone());
            proof {
                assert(out@[shard as int].deep_view() =~= held.push(delta[i as int]));
                assert forall|t: int| 0 <= t < self.fan_out() implies (
                #[trigger] out@[t]).deep_view() == self.share(delta.take(i + 1), t as nat) by {
                    let pred = |r: SignedRow|
                        shard_of(r.row[self.sharded_by() as int], self.fan_out() as nat)
                            == t as nat;
                    delta.take(i as int).lemma_filter_push(delta[i as int], pred);
                    if t != shard {
                        assert(out@[t] == before[t]);
                    }
                }
            }
            i += 1;
        }
        assert(delta.take(rs@.len() as int) =~= delta);
        out
    }

    /// Where column `col` of the output comes from: the same column of the parent.
    pub fn resolve(&self, col: usize) -> (r: Option<Vec<(NodeIndex, usize)>>)
        ensures
            r.is_some(),
            r.unwrap()@ == seq![(self.source().spec_global(), col)],
    {
        let mut v: Vec<(NodeIndex, usize)> = Vec::new();
        v.push((self.src.as_global(), col));
        assert(v@ =~= seq![(self.source().spec_global(), col)]);
        Some(v)
    }

    /// A short description of the operator.
    pub fn description(&self) -> (s: String)
        ensures
            s@ == "shard"@,
    {
        String::from_str("shard")
    }

    /// Where column `column` of the output comes from: the same column of the parent.
    pub fn parent_columns(&self, column: usize) -> (r: Vec<(NodeIndex, Option<usize>)>)
        ensures
            r@ == seq![(self.source().spec_global(), Some(column))],
    {
        let mut v: Vec<(NodeIndex, Option<usize>)> = Vec::new();
        v.push((self.src.as_global(), Some(column)));
        assert(v@ =~= seq![(self.source().spec_global(), Some(column))]);
        v
    }

    /// Whether the sharder is sound and rows of `width` values have the column that selects
    /// the shard.
    pub fn check_width(&self, width: usize) -> (b: bool)
        ensures
            b == (self.wf() && self.sharded_by() < width),
    {
        self.shards > 0 && self.column < width
    }
}

} // verus!
