//! The reader: the materialization at the end of the graph that callers look keys up in.

use crate::addressing::{IndexPair, NodeIndex, Remap};
use crate::data::{clone_rows, rows_equal, DataType, Delta, Record, Row};
use crate::state::{LookupResult, Materialized, State};
use crate::getter::SingleReadHandle;
use vstd::prelude::*;

verus! {

/// Why a read gave no rows.
#[derive(Clone, Copy, Debug, PartialEq, Eq, Structural)]
pub enum ReadError {
    /// The reader has not been primed yet.
    NotReady,
    /// The key is a hole of the partial state; a replay is needed.
    Missing,
    /// The reader shut down while the caller waited.
    Cancelled,
}

/// What a read leads to.
#[derive(Debug)]
pub enum ReadOutcome {
    /// The rows under the key.
    Rows(Vec<Vec<DataType>>),
    /// The read failed.
    Failed(ReadError),
    /// The key is missing and the caller has been put on the list of those who wait for
    /// it; the caller reads again when woken.
    Parked,
}

/// A caller that waits for a key.
#[derive(Debug)]
pub struct Waiter {
    key: Vec<DataType>,
    id: u64,
}

/// The model of a reader.
pub struct ReaderView {
    /// The state, once the reader is primed.
    pub state: Option<Materialized>,
    /// Who waits for which key, in the order of arrival.
    pub waiters: Seq<(Row, u64)>,
}

/// The callers among `waiters` that wait for `k`, in the order of arrival.
pub open spec fn callers_for(waiters: Seq<(Row, u64)>, k: Row) -> Seq<u64>
    decreases waiters.len(),
{
    if waiters.len() == 0 {
        Seq::empty()
    } else if waiters.last().0 == k {
        callers_for(waiters.drop_last(), k).push(waiters.last().1)
    } else {
        callers_for(waiters.drop_last(), k)
    }
}

/// Those of `waiters` that wait for a key other than `k`, in the order of arrival.
pub open spec fn waiters_but(waiters: Seq<(Row, u64)>, k: Row) -> Seq<(Row, u64)>
    decreases waiters.len(),
{
    if waiters.len() == 0 {
        Seq::empty()
    } else if waiters.last().0 != k {
        waiters_but(waiters.drop_last(), k).push(waiters.last())
    } else {
        waiters_but(waiters.drop_last(), k)
    }
}

/// Every caller that waits for a key is woken exactly once when the replay of the key has
/// arrived: each waiter is either woken or stays on the list; those that are woken waited
/// for the key, in the order of their arrival; and none of them is left to be woken again.
pub proof fn lemma_woken_once(waiters: Seq<(Row, u64)>, k: Row)
    ensures
        callers_for(waiters, k).len() + waiters_but(waiters, k).len() == waiters.len(),
        callers_for(waiters_but(waiters, k), k).len() == 0,
        forall|i: int|
            0 <= i < waiters_but(waiters, k).len() ==> (#[trigger] waiters_but(waiters, k)[i]).0
                != k,
    decreases waiters.len(),
{
    if waiters.len() > 0 {
        lemma_woken_once(waiters.drop_last(), k);
        if waiters.last().0 != k {
            let rest = waiters_but(waiters.drop_last(), k);
            let all = rest.push(waiters.last());
            assert(all.drop_last() =~= rest);
        }
    }
}

/// A caller that parks for a key is woken with the others that wait for it, after them.
pub proof fn lemma_parked_is_woken(waiters: Seq<(Row, u64)>, k: Row, caller: u64)
    ensures
        callers_for(waiters.push((k, caller)), k) == callers_for(waiters, k).push(caller),
{
    assert(waiters.push((k, caller)).drop_last() =~= waiters);
}

impl ReaderView {
    /// The callers that wait for `k`, in the order of arrival.
    pub open spec fn waiting_for(self, k: Row) -> Seq<u64> {
        callers_for(self.waiters, k)
    }

    /// The waiters for keys other than `k`.
    pub open spec fn others(self, k: Row) -> Seq<(Row, u64)> {
        waiters_but(self.waiters, k)
    }

    /// All callers that wait, in the order of arrival.
    pub open spec fn callers(self) -> Seq<u64> {
        Seq::new(self.waiters.len(), |i: int| self.waiters[i].1)
    }
}

/// The last node of a path through the graph. It keeps the rows that reach it under the
/// values of its key columns, and answers lookups. It has no children.
#[derive(Debug)]
pub struct Reader {
    src: IndexPair,
    key: Vec<usize>,
    state: Option<State>,
    waiters: Vec<Waiter>,
}

impl Reader {
    /// The parent.
    pub closed spec fn source(self) -> IndexPair {
        self.src
    }

    /// The key columns.
    pub closed spec fn key_columns(self) -> Seq<usize> {
        self.key@
    }

    /// The model of the reader.
    pub closed spec fn view(self) -> ReaderView {
        ReaderView {
            state: match self.state {
                Some(s) => Some(s@),
                None => None,
            },
            waiters: Seq::new(
                self.waiters@.len(),
                |i: int| (self.waiters@[i].key.deep_view(), self.waiters@[i].id),
            ),
        }
    }

    /// The state, where there is one, is sound and keyed on the key columns.
    pub closed spec fn wf(self) -> bool {
        match self.state {
            Some(s) => s.wf() && s@.key == self.key@,
            None => true,
        }
    }

    /// A sound reader has a well-formed state on its key columns.
    pub proof fn lemma_wf(self)
        requires
            self.wf(),
        ensures
            self@.state.is_some() ==> self@.state.unwrap().wf() && self@.state.unwrap().key
                == self.key_columns(),
    {
    }

    /// A reader below `src` keyed on the columns `key`. It is not ready until it is primed.
    pub fn new(src: NodeIndex, key: Vec<usize>) -> (r: Reader)
        ensures
            r.wf(),
            r.source().spec_global() == src,
            r.source().spec_local().is_none(),
            r.key_columns() == key@,
            r@.state.is_none(),
            r@.waiters.len() == 0,
    {
        Reader { src: IndexPair::new(src), key, state: None, waiters: Vec::new() }
    }

    /// The parents of this node: the one that it was made with.
    pub fn ancestors(&self) -> (a: Vec<NodeIndex>)
        ensures
            a@ == seq![self.source().spec_global()],
    {
        let mut a: Vec<NodeIndex> = Vec::new();
        a.push(self.src.as_global());
        assert(a@ =~= seq![self.source().spec_global()]);
        a
    }

    /// Localizes the reference to the parent.
    pub fn on_commit(&mut self, _us: NodeIndex, remap: &Remap)
        requires
            remap.wf(),
            old(self).wf(),
        ensures
            final(self).wf(),
            final(self).source() == if remap@.dom().contains(old(self).source().spec_global()) {
                remap@[old(self).source().spec_global()]
            } else {
                old(self).source()
            },
            final(self).key_columns() == old(self).key_columns(),
            final(self)@ == old(self)@,
    {
        self.src.remap(remap);
    }

    /// Gives the reader an empty state, partial or full: the reader is ready from then on.
    /// A reader that is ready stays as it is.
    pub fn prime(&mut self, partial: bool)
        requires
            old(self).wf(),
        ensures
            final(self).wf(),
            final(self).source() == old(self).source(),
            final(self).key_columns() == old(self).key_columns(),
            final(self)@.waiters == old(self)@.waiters,
            final(self)@.state == if old(self)@.state.is_some() {
                old(self)@.state
            } else {
                Some(Materialized::empty(old(self).key_columns(), partial))
            },
    {
        if self.state.is_none() {
            let key = self.key.clone();
            assert(key@ =~= self.key@);
            self.state = Some(State::new(key, partial));
        }
    }

    /// The columns that the reader is keyed on.
    pub fn key(&self) -> (k: &Vec<usize>)
        ensures
            k@ == self.key_columns(),
    {
        &self.key
    }

    /// Publishes what the reader holds, as of the time `ts`: a snapshot of its state, which
    /// those who read from outside the domain look up in. `None` while the reader is not
    /// ready.
    pub fn publish(&self, ts: i64) -> (h: Option<SingleReadHandle>)
        requires
            self.wf(),
        ensures
            h.is_some() == self@.state.is_some(),
            h.is_some() ==> h.unwrap().ts == ts && h.unwrap().state.wf() && Some(
                h.unwrap().state@,
            ) == self@.state,
    {
        match &self.state {
            Some(s) => Some(SingleReadHandle { state: s.copy(), ts }),
            None => None,
        }
    }

    /// Whether the reader has been primed.
    pub fn is_ready(&self) -> (b: bool)
        ensures
            b == self@.state.is_some(),
    {
        self.state.is_some()
    }

    /// The number of rows that the reader holds, over all the keys that it knows, or the
    /// most that can be counted; zero while it is not ready.
    pub fn len(&self) -> (n: usize)
        requires
            self.wf(),
        ensures
            n == match self@.state {
                Some(m) => if m.size() <= usize::MAX {
                    m.size()
                } else {
                    usize::MAX as nat
                },
                None => 0nat,
            },
    {
        match &self.state {
            Some(s) => s.size(),
            None => 0,
        }
    }

    /// Applies a batch of records from the parent to the state. A reader that is not ready
    /// ignores the batch.
    pub fn on_input(&mut self, rs: &Vec<Record>)
        requires
            old(self).wf(),
            old(self)@.state.is_some() ==> old(self)@.state.unwrap().accepts(rs.deep_view()),
        ensures
            final(self).wf(),
            final(self).source() == old(self).source(),
            final(self).key_columns() == old(self).key_columns(),
            final(self)@.waiters == old(self)@.waiters,
            final(self)@.state == match old(self)@.state {
                Some(m) => Some(m.apply(rs.deep_view())),
                None => None,
            },
    {
        let ghost key = self.key@;
        match self.state.take() {
            Some(mut s) => {
                proof {
                    s@.lemma_apply_wf(rs.deep_view());
                }
                s.apply(rs);
                self.state = Some(s);
            },
            None => {},
        }
    }

    /// Looks up the rows under `key`, without waiting.
    pub fn lookup(&self, key: &Vec<DataType>) -> (r: Result<Vec<Vec<DataType>>, ReadError>)
        requires
            self.wf(),
        ensures
            match self@.state {
                None => r == Err::<Vec<Vec<DataType>>, ReadError>(ReadError::NotReady),
                Some(m) => match m.lookup(key.deep_view()) {
                    None => r == Err::<Vec<Vec<DataType>>, ReadError>(ReadError::Missing),
                    Some(rows) => r.is_ok() && r.unwrap().deep_view() == rows,
                },
            },
    {
        match &self.state {
            None => Err(ReadError::NotReady),
            Some(s) => match s.lookup(key) {
                LookupResult::Miss => Err(ReadError::Missing),
                LookupResult::Hit(rows) => Ok(clone_rows(rows)),
            },
        }
    }

    /// Reads the rows under `key` for the caller `caller`. Where the key is missing and
    /// `block` is set, the caller is put on the list of those who wait for the key; where
    /// `block` is not set the read fails as missing. Either way the miss is the signal to
    /// ask for a replay. The state does not change.
    pub fn read(&mut self, key: &Vec<DataType>, block: bool, caller: u64) -> (r: ReadOutcome)
        requires
            old(self).wf(),
        ensures
            final(self).wf(),
            final(self).source() == old(self).source(),
            final(self).key_columns() == old(self).key_columns(),
            final(self)@.state == old(self)@.state,
            match old(self)@.state {
                None => r matches ReadOutcome::Failed(e) && e == ReadError::NotReady && final(self)@.waiters == old(self)@.waiters,
                Some(m) => match m.lookup(key.deep_view()) {
                    Some(rows) => r matches ReadOutcome::Rows(found) && found.deep_view() == rows
                        && final(self)@.waiters == old(self)@.waiters,
                    None => if block {
                        r is Parked && final(self)@.waiters == old(self)@.waiters.push(
                            (key.deep_view(), caller),
                        )
                    } else {
                        r matches ReadOutcome::Failed(e) && e == ReadError::Missing && final(self)@.waiters == old(self)@.waiters
                    },
                },
            },
    {
        match self.lookup(key) {
            Ok(rows) => ReadOutcome::Rows(rows),
            Err(ReadError::Missing) => {
                if block {
                    let ghost before = self@.waiters;
                    self.waiters.push(Waiter { key: crate::data::clone_row(key), id: caller });
                    assert(self@.waiters =~= before.push((key.deep_view(), caller)));
                    ReadOutcome::Parked
                } else {
                    ReadOutcome::Failed(ReadError::Missing)
                }
            },
            Err(e) => ReadOutcome::Failed(e),
        }
    }

    /// Takes the callers that wait for `key` off the list and hands them back, in the order
    /// in which they came: each is to be woken once.
    pub fn wake(&mut self, key: &Vec<DataType>) -> (woken: Vec<u64>)
        ensures
            final(self).source() == old(self).source(),
            final(self).key_columns() == old(self).key_columns(),
            final(self)@.state == old(self)@.state,
            final(self).wf() == old(self).wf(),
            woken@ == old(self)@.waiting_for(key.deep_view()),
            final(self)@.waiters == old(self)@.others(key.deep_view()),
    {
        let ghost all = self@.waiters;
        let ghost k = key.deep_view();
        let mut woken: Vec<u64> = Vec::new();
        let mut kept: Vec<Waiter> = Vec::new();
        let mut rest: Vec<Waiter> = Vec::new();
        core::mem::swap(&mut self.waiters, &mut rest);
        let ghost kept_view = Seq::<(Row, u64)>::empty();
        let mut i: usize = 0;
        let n: usize = rest.len();
        proof {
            assert(all.take(0) =~= Seq::<(Row, u64)>::empty());
        }
        while i < n
            invariant
                n == all.len(),
                i <= n,
                k == key.deep_view(),
                rest@.len() == n - i,
                forall|j: int|
                    0 <= j < rest@.len() ==> ((#[trigger] rest@[j]).key.deep_view(), rest@[j].id)
                        == all[j + i],
                woken@ == callers_for(all.take(i as int), k),
                kept_view == waiters_but(all.take(i as int), k),
                kept_view.len() == kept@.len(),
                forall|j: int|
                    0 <= j < kept@.len() ==> ((#[trigger] kept@[j]).key.deep_view(), kept@[j].id)
                        == kept_view[j],
            decreases n - i,
        {
            proof {
                assert(all.take(i + 1).drop_last() =~= all.take(i as int));
                assert(all.take(i + 1).last() == all[i as int]);
            }
            let w = rest.remove(0);
            if rows_equal(&w.key, key) {
                woken.push(w.id);
            } else {
                proof {
                    kept_view = kept_view.push(all[i as int]);
                }
                kept.push(w);
            }
            i += 1;
        }
        self.waiters = kept;
        proof {
            assert(all.take(n as int) =~= all);
            assert(self@.waiters =~= kept_view);
        }
        woken
    }

    /// Installs what a replay has brought for `key`: the key is filled and holds `rows`.
    /// The callers that wait for the key are taken off the list and handed back, each to be
    /// woken once. A reader that is not ready only hands back the callers.
    pub fn on_replay(&mut self, key: &Vec<DataType>, rows: Vec<Vec<DataType>>) -> (woken: Vec<
        u64,
    >)
        requires
            old(self).wf(),
            old(self)@.state.is_some() ==> old(self)@.state.unwrap().files_under(
                key.deep_view(),
                rows.deep_view(),
            ),
        ensures
            final(self).wf(),
            final(self).source() == old(self).source(),
            final(self).key_columns() == old(self).key_columns(),
            final(self)@.state == match old(self)@.state {
                Some(m) => Some(m.install(key.deep_view(), rows.deep_view())),
                None => None,
            },
            woken@ == old(self)@.waiting_for(key.deep_view()),
            final(self)@.waiters == old(self)@.others(key.deep_view()),
    {
        match self.state.take() {
            Some(mut s) => {
                s.install(key, rows);
                self.state = Some(s);
            },
            None => {},
        }
        self.wake(key)
    }

    /// Evicts `key` from a partial state. Returns whether the reader knew the key and
    /// could evict it.
    pub fn evict(&mut self, key: &Vec<DataType>) -> (evicted: bool)
        requires
            old(self).wf(),
        ensures
            final(self).wf(),
            final(self).source() == old(self).source(),
            final(self).key_columns() == old(self).key_columns(),
            final(self)@.waiters == old(self)@.waiters,
            final(self)@.state == match old(self)@.state {
                Some(m) => Some(m.evict(key.deep_view())),
                None => None,
            },
            evicted == match old(self)@.state {
                Some(m) => m.partial && m.rows.dom().contains(key.deep_view()),
                None => false,
            },
    {
        match self.state.take() {
            Some(mut s) => {
                let evicted = s.evict(key);
                self.state = Some(s);
                evicted
            },
            None => false,
        }
    }

    /// Shuts the reader down for those who wait: every caller on the list is taken off and
    /// handed back, to be released with [`ReadError::Cancelled`].
    pub fn cancel(&mut self) -> (released: Vec<u64>)
        ensures
            final(self).source() == old(self).source(),
            final(self).key_columns() == old(self).key_columns(),
            final(self)@.state == old(self)@.state,
            final(self).wf() == old(self).wf(),
            final(self)@.waiters.len() == 0,
            released@ == old(self)@.callers(),
    {
        let ghost all = self@.waiters;
        let mut released: Vec<u64> = Vec::new();
        let mut i: usize = 0;
        while i < self.waiters.len()
            invariant
                i <= self.waiters@.len(),
                *self == *old(self),
                all == self@.waiters,
                released@.len() == i,
                forall|j: int| 0 <= j < i ==> released@[j] == all[j].1,
            decreases self.waiters@.len() - i,
        {
            released.push(self.waiters[i].id);
            i += 1;
        }
        self.waiters = Vec::new();
        assert(released@ =~= old(self)@.callers());
        released
    }

    /// Where column `column` of the output comes from: the same column of the parent.
    pub fn parent_columns(&self, column: usize) -> (r: Vec<(NodeIndex, Option<usize>)>)
        ensures
            r@ == seq![(self.source().spec_global(), Some(column))],
    {
        let mut v: Vec<(NodeIndex, Option<usize>)> = Vec::new();
        v.push((self.src.as_global(), Some(column)));
        assert(v@ =~= seq![(self.source().spec_global(), Some(column))]);
        v
    }

    /// Whether rows of `width` values have the key columns.
    pub fn check_width(&self, width: usize) -> (b: bool)
        ensures
            b == crate::data::columns_within(self.key_columns(), width as nat),
    {
        crate::data::check_columns_within(&self.key, width)
    }

    /// Whether `rows` may be installed under `key`: the reader is ready, and the rows belong
    /// under the key in its state.
    pub fn check_replay(&self, key: &Vec<DataType>, rows: &Vec<Vec<DataType>>) -> (b: bool)
        requires
            self.wf(),
        ensures
            b == (self@.state.is_some() && self@.state.unwrap().files_under(
                key.deep_view(),
                rows.deep_view(),
            )),
    {
        match &self.state {
            Some(s) => s.check_files_under(key, rows),
            None => false,
        }
    }
}

} // verus!
