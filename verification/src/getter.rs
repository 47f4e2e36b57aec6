//! Handles for looking up results in a materialized view, in this process or in another.

use crate::addressing::NodeIndex;
use crate::data::{clone_rows, DataType, Row, Value};
use crate::rpc::RpcClient;
use crate::sharding::{shard_by, shard_of};
use crate::state::{LookupResult, Materialized, State};
use vstd::prelude::*;

verus! {

/// The rows of a result.
pub type Datas = Vec<Vec<DataType>>;

/// A request to read specific keys.
#[derive(Debug)]
pub enum ReadQuery {
    /// Read normally.
    Normal {
        /// Where to read from: the reader node and its shard.
        target: (NodeIndex, usize),
        /// Keys to read with.
        keys: Vec<DataType>,
        /// Whether to block if a partial replay is triggered.
        block: bool,
    },
    /// Read and also get a token for each key.
    WithToken {
        /// Where to read from: the reader node and its shard.
        target: (NodeIndex, usize),
        /// Keys to read with.
        keys: Vec<DataType>,
    },
}

/// The proof of what a read has seen: the time of the state that was read, and the key.
#[derive(Debug)]
pub struct Token {
    /// The time of the state that was read.
    pub ts: i64,
    /// The key that was read.
    pub key: DataType,
}

/// Makes the tokens of the reads of one view.
#[derive(Clone, Copy, Debug, PartialEq, Eq, Structural)]
pub struct TokenGenerator {
    /// The reader node that the tokens are for.
    pub node: NodeIndex,
}

impl TokenGenerator {
    /// The token of a read of `key` at the time `ts`.
    pub fn generate(&self, ts: i64, key: DataType) -> (t: Token)
        ensures
            t.ts == ts,
            t.key == key,
    {
        Token { ts, key }
    }
}

/// The contents of specific keys.
#[derive(Debug)]
pub enum ReadReply {
    /// Read normally: for each key its rows, or the failure of the read.
    Normal(Vec<Result<Datas, ()>>),
    /// Read and got tokens.
    WithToken(Vec<Result<(Datas, Token), ()>>),
}

/// A value together with whether it stays in this process, where it need not be written
/// out as bytes.
#[derive(Debug)]
pub enum LocalOrNot<T> {
    /// The value stays in this process.
    Local(T),
    /// The value leaves the process.
    Not(T),
}

impl<T> LocalOrNot<T> {
    /// Whether the value stays in this process.
    pub fn is_local(&self) -> (b: bool)
        ensures
            b == (self is Local),
    {
        match self {
            LocalOrNot::Local(_) => true,
            LocalOrNot::Not(_) => false,
        }
    }

    /// The value `t`, marked as local or not.
    pub fn make(t: T, local: bool) -> (r: Self)
        ensures
            r == if local {
                LocalOrNot::Local(t)
            } else {
                LocalOrNot::Not(t)
            },
    {
        if local {
            LocalOrNot::Local(t)
        } else {
            LocalOrNot::Not(t)
        }
    }

    /// The value.
    pub fn take(self) -> (t: T)
        ensures
            t == match self {
                LocalOrNot::Local(v) => v,
                LocalOrNot::Not(v) => v,
            },
    {
        match self {
            LocalOrNot::Local(t) => t,
            LocalOrNot::Not(t) => t,
        }
    }
}

/// What a reader has published: its state, and the time of that state.
#[derive(Debug)]
pub struct SingleReadHandle {
    /// The state.
    pub state: State,
    /// The time of the state.
    pub ts: i64,
}

/// The published states of the shards of a reader; a shard that has published nothing yet
/// is missing.
#[derive(Debug)]
pub struct ReadHandle {
    /// The shards; one for a reader that is not sharded.
    pub shards: Vec<Option<SingleReadHandle>>,
}

/// What a lookup finds.
pub enum Found {
    /// The shard has published nothing yet.
    NotReady,
    /// The key is a hole of the shard's state: a replay is needed.
    Miss(i64),
    /// The rows under the key, and the time of the state.
    Rows(Seq<Row>, i64),
}

impl ReadHandle {
    /// Every published state is sound and keyed on one column.
    pub open spec fn wf(self) -> bool {
        &&& self.shards@.len() > 0
        &&& forall|i: int|
            0 <= i < self.shards@.len() && (#[trigger] self.shards@[i]).is_some() ==> {
                &&& self.shards@[i].unwrap().state.wf()
                &&& self.shards@[i].unwrap().state@.key.len() == 1
            }
    }

    /// The shard that holds the key `q`.
    pub open spec fn shard_for(self, q: Value) -> int {
        shard_of(q, self.shards@.len()) as int
    }

    /// What a lookup of `q` finds.
    pub open spec fn find(self, q: Value) -> Found {
        match self.shards@[self.shard_for(q)] {
            None => Found::NotReady,
            Some(h) => match h.state@.lookup(seq![q]) {
                None => Found::Miss(h.ts),
                Some(rows) => Found::Rows(rows, h.ts),
            },
        }
    }

    /// The number of rows that the first `n` shards hold.
    pub open spec fn rows_upto(self, n: int) -> nat
        decreases n,
    {
        if n <= 0 {
            0
        } else {
            self.rows_upto(n - 1) + match self.shards@[n - 1] {
                Some(h) => h.state@.size(),
                None => 0nat,
            }
        }
    }

    /// The number of rows that the shards hold together.
    pub open spec fn rows_held(self) -> nat {
        self.rows_upto(self.shards@.len() as int)
    }

    /// The number of rows that the shards hold together, or the most that can be counted.
    /// A shard that has published nothing holds none.
    pub fn len(&self) -> (n: usize)
        requires
            self.wf(),
        ensures
            n == if self.rows_held() <= usize::MAX {
                self.rows_held()
            } else {
                usize::MAX as nat
            },
    {
        let mut total: usize = 0;
        let mut i: usize = 0;
        while i < self.shards.len()
            invariant
                i <= self.shards@.len(),
                self.wf(),
                total == if self.rows_upto(i as int) <= usize::MAX {
                    self.rows_upto(i as int)
                } else {
                    usize::MAX as nat
                },
            decreases self.shards@.len() - i,
        {
            match &self.shards[i] {
                Some(h) => {
                    let k: usize = h.state.size();
                    total = total.saturating_add(k);
                },
                None => {},
            }
            i += 1;
        }
        total
    }

    /// Looks `q` up in the shard that holds it.
    pub fn find_shard(&self, q: &DataType) -> (h: Option<&SingleReadHandle>)
        requires
            self.wf(),
        ensures
            h.is_some() == self.shards@[self.shard_for(q@)].is_some(),
            h.is_some() ==> *h.unwrap() == self.shards@[self.shard_for(q@)].unwrap(),
    {
        let shard: usize = shard_by(q, self.shards.len());
        self.shards[shard].as_ref()
    }
}

/// What a read of one key gives.
#[derive(Debug, PartialEq)]
pub enum Looked<T> {
    /// The key is known: what was made of its rows.
    Found(T),
    /// The key is a hole, and the read does not wait: it has no rows. The replay of the key
    /// `replay` is to be asked for, so that a later read may hit.
    Missing { replay: Vec<DataType> },
    /// The key is a hole, and the read waits: the replay of the key `replay` is to be
    /// asked for, and the read is to be made again when the replay has arrived.
    Parked { replay: Vec<DataType> },
}

impl<T> Looked<T> {
    /// Whether this is the miss of the key value `q` in a read that blocks, or does not.
    pub open spec fn misses(self, q: Value, block: bool) -> bool {
        if block {
            self matches Looked::Parked { replay } && replay.deep_view() == seq![q]
        } else {
            self matches Looked::Missing { replay } && replay.deep_view() == seq![q]
        }
    }

    /// The miss of the key `key` in a read that blocks, or does not.
    pub fn missed(key: Vec<DataType>, block: bool) -> (l: Self)
        ensures
            l == if block {
                Looked::<T>::Parked { replay: key }
            } else {
                Looked::<T>::Missing { replay: key }
            },
    {
        if block {
            Looked::Parked { replay: key }
        } else {
            Looked::Missing { replay: key }
        }
    }

    /// Whether the read was a miss, so that a replay is to be asked for.
    pub fn is_miss(&self) -> (b: bool)
        ensures
            b == !(self is Found),
    {
        match self {
            Looked::Found(_) => false,
            _ => true,
        }
    }
}

impl Looked<Datas> {
    /// The rows that the read has: those that were found; none after a miss that does
    /// not wait; and no answer yet, `None`, after a miss that waits.
    pub fn rows(self) -> (r: Option<Datas>)
        ensures
            match self {
                Looked::Found(rows) => r == Some(rows),
                Looked::Missing { .. } => r.is_some() && r.unwrap()@.len() == 0,
                Looked::Parked { .. } => r.is_none(),
            },
    {
        match self {
            Looked::Found(rows) => Some(rows),
            Looked::Missing { .. } => Some(Vec::new()),
            Looked::Parked { .. } => None,
        }
    }
}

/// A view that is not sharded is read as it was published: a lookup finds what the one
/// published state holds under the key, or misses where the key is a hole of it.
pub proof fn lemma_reads_what_is_published(handle: ReadHandle, q: Value)
    requires
        handle.shards@.len() == 1,
        handle.shards@[0].is_some(),
    ensures
        handle.find(q) == match handle.shards@[0].unwrap().state@.lookup(seq![q]) {
            None => Found::Miss(handle.shards@[0].unwrap().ts),
            Some(rows) => Found::Rows(rows, handle.shards@[0].unwrap().ts),
        },
{
    assert(handle.shard_for(q) == 0);
}

/// The key row of a lookup by one value.
fn key_of(q: &DataType) -> (key: Vec<DataType>)
    ensures
        key.deep_view() == seq![q@],
{
    let mut key: Vec<DataType> = Vec::new();
    key.push(q.deep_clone());
    assert(key.deep_view() =~= seq![q@]);
    key
}

/// A handle for looking up results in a materialized view.
#[derive(Debug)]
pub struct Getter {
    /// What makes the tokens of transactional reads, if the view has such reads.
    pub generator: Option<TokenGenerator>,
    /// The published states of the reader.
    pub handle: ReadHandle,
    /// The time of the state that the last transactional read saw.
    pub last_ts: i64,
}

impl Getter {
    /// A handle on what the reader has published.
    pub fn new(handle: ReadHandle, generator: Option<TokenGenerator>) -> (g: Getter)
        ensures
            g.handle == handle,
            g.generator == generator,
            g.last_ts == i64::MIN,
    {
        Getter { generator, handle, last_ts: i64::MIN }
    }

    /// A handle on what the shards of a reader have published, where every shard has
    /// published something; `None` where a shard has not, or where there is no shard.
    pub fn from_shards(shards: Vec<Option<SingleReadHandle>>, generator: Option<TokenGenerator>) -> (g:
        Option<Getter>)
        ensures
            g.is_some() == (shards@.len() > 0 && forall|i: int|
                0 <= i < shards@.len() ==> (#[trigger] shards@[i]).is_some()),
            g.is_some() ==> g.unwrap().handle.shards == shards && g.unwrap().generator == generator
                && g.unwrap().last_ts == i64::MIN,
    {
        if shards.len() == 0 {
            return None;
        }
        let mut i: usize = 0;
        while i < shards.len()
            invariant
                i <= shards@.len(),
                forall|j: int| 0 <= j < i ==> (#[trigger] shards@[j]).is_some(),
            decreases shards@.len() - i,
        {
            if shards[i].is_none() {
                return None;
            }
            i += 1;
        }
        Some(Getter { generator, handle: ReadHandle { shards }, last_ts: i64::MIN })
    }

    /// Returns the number of rows in the view, over all its keys, or the most that can be
    /// counted.
    pub fn len(&self) -> (n: usize)
        requires
            self.handle.wf(),
        ensures
            n == if self.handle.rows_held() <= usize::MAX {
                self.handle.rows_held()
            } else {
                usize::MAX as nat
            },
    {
        self.handle.len()
    }

    /// Returns true if this getter supports transactional reads.
    pub fn supports_transactions(&self) -> (b: bool)
        ensures
            b == self.generator.is_some(),
    {
        self.generator.is_some()
    }

    /// Query for the results for the given key, and apply the given callback to matching
    /// rows. A key that is a hole is a miss, and the callback is not applied: the replay of
    /// the key is to be asked for. A read that does not block has no rows then; one that
    /// blocks is to be made again when the replay has arrived. A reader that has published
    /// nothing yet gives an error.
    pub fn lookup_map<F, T>(&self, q: &DataType, f: F, block: bool) -> (r: Result<Looked<T>, ()>)
        where F: Fn(&Vec<Vec<DataType>>) -> T
        requires
            self.handle.wf(),
            forall|rows: &Vec<Vec<DataType>>| f.requires((rows,)),
        ensures
            match self.handle.find(q@) {
                Found::NotReady => r.is_err(),
                Found::Miss(_) => r.is_ok() && r.unwrap().misses(q@, block),
                Found::Rows(rows, _) => r.is_ok() && (r.unwrap() matches Looked::Found(t)
                    && exists|found: &Vec<Vec<DataType>>|
                    found.deep_view() == rows && f.ensures((found,), t)),
            },
    {
        match self.handle.find_shard(q) {
            None => Err(()),
            Some(h) => {
                let key = key_of(q);
                match h.state.lookup(&key) {
                    LookupResult::Miss => Ok(Looked::missed(key, block)),
                    LookupResult::Hit(rows) => Ok(Looked::Found(f(rows))),
                }
            },
        }
    }

    /// Query for the results for the given key. A key that is a hole is a miss: the replay
    /// of the key is to be asked for. A read that does not block has no rows then; one that
    /// blocks is to be made again when the replay has arrived. A reader that has published
    /// nothing yet gives an error.
    pub fn lookup(&self, q: &DataType, block: bool) -> (r: Result<Looked<Datas>, ()>)
        requires
            self.handle.wf(),
        ensures
            match self.handle.find(q@) {
                Found::NotReady => r.is_err(),
                Found::Miss(_) => r.is_ok() && r.unwrap().misses(q@, block),
                Found::Rows(rows, _) => r.is_ok() && (r.unwrap() matches Looked::Found(found)
                    && found.deep_view() == rows),
            },
    {
        match self.handle.find_shard(q) {
            None => Err(()),
            Some(h) => {
                let key = key_of(q);
                match h.state.lookup(&key) {
                    LookupResult::Miss => Ok(Looked::missed(key, block)),
                    LookupResult::Hit(rows) => Ok(Looked::Found(clone_rows(rows))),
                }
            },
        }
    }

    /// Transactionally query for the given key: the rows come with a token that says what
    /// was read and when. Such a read blocks: on a hole it is a miss that parks the
    /// caller, and it leaves no token. A view without transactional reads gives an error,
    /// and so does a reader that has published nothing. A state that is older than the one
    /// that the last such read saw is not read: the result is `None`, and the caller reads
    /// again.
    pub fn transactional_lookup(&mut self, q: &DataType) -> (r: Result<
        Option<Looked<(Datas, Token)>>,
        (),
    >)
        requires
            old(self).handle.wf(),
        ensures
            final(self).handle == old(self).handle,
            final(self).generator == old(self).generator,
            old(self).generator.is_none() ==> r.is_err() && final(self).last_ts == old(self).last_ts,
            old(self).generator.is_some() ==> match old(self).handle.find(q@) {
                Found::NotReady => r.is_err() && final(self).last_ts == old(self).last_ts,
                Found::Miss(ts) => final(self).last_ts == old(self).last_ts && if ts < old(self).last_ts {
                    r == Ok::<Option<Looked<(Datas, Token)>>, ()>(None)
                } else {
                    r.is_ok() && r.unwrap().is_some() && r.unwrap().unwrap().misses(q@, true)
                },
                Found::Rows(rows, ts) => if ts < old(self).last_ts {
                    r == Ok::<Option<Looked<(Datas, Token)>>, ()>(None) && final(self).last_ts
                        == old(self).last_ts
                } else {
                    r.is_ok() && r.unwrap().is_some() && (
                    r.unwrap().unwrap() matches Looked::Found(found) && found.0.deep_view() == rows
                        && found.1.ts == ts && found.1.key@ == q@) && final(self).last_ts == ts
                },
            },
    {
        let generator = match self.generator {
            None => {
                return Err(());
            },
            Some(g) => g,
        };
        let (rows, ts): (Datas, i64) = match self.handle.find_shard(q) {
            None => {
                return Err(());
            },
            Some(h) => {
                if h.ts < self.last_ts {
                    return Ok(None);
                }
                let key = key_of(q);
                match h.state.lookup(&key) {
                    LookupResult::Miss => {
                        return Ok(Some(Looked::missed(key, true)));
                    },
                    LookupResult::Hit(rows) => (clone_rows(rows), h.ts),
                }
            },
        };
        self.last_ts = ts;
        let token = generator.generate(ts, q.deep_clone());
        Ok(Some(Looked::Found((rows, token))))
    }
}

/// The keys of `keys` that belong to the shard `shard` of `shards`, in order.
pub open spec fn keys_of_shard(keys: Seq<Value>, shards: nat, shard: nat) -> Seq<Value> {
    keys.filter(|k: Value| shard_of(k, shards) == shard)
}

/// The queries for the keys `keys` to the first `upto` shards: for each shard, in order, the
/// keys that belong to it; a shard without keys is left out if `skip_empty` is set.
pub open spec fn planned(keys: Seq<Value>, shards: nat, upto: nat, skip_empty: bool) -> Seq<
    (nat, Seq<Value>),
>
    decreases upto,
{
    if upto == 0 {
        Seq::empty()
    } else {
        let before = planned(keys, shards, (upto - 1) as nat, skip_empty);
        let mine = keys_of_shard(keys, shards, (upto - 1) as nat);
        if skip_empty && mine.len() == 0 {
            before
        } else {
            before.push(((upto - 1) as nat, mine))
        }
    }
}

/// The queries for a lookup of the keys `keys` at a reader with `shards` shards: to a reader
/// with one shard, one query with all the keys; else as [`planned`] says.
pub open spec fn planned_for(keys: Seq<Value>, shards: nat, skip_empty: bool) -> Seq<
    (nat, Seq<Value>),
> {
    if shards == 1 {
        seq![(0nat, keys)]
    } else {
        planned(keys, shards, shards, skip_empty)
    }
}

/// The shard that the key `k` is looked up in, at a reader with `shards` shards.
pub open spec fn shard_for(k: Value, shards: nat) -> nat {
    if shards == 1 {
        0
    } else {
        shard_of(k, shards)
    }
}

/// The rank of the `i`-th of `keys` among the keys that go to its shard: how many keys
/// before it go there too.
pub open spec fn rank_of(keys: Seq<Value>, shards: nat, i: int) -> nat {
    if shards == 1 {
        i as nat
    } else {
        keys_of_shard(keys.take(i), shards, shard_of(keys[i], shards)).len()
    }
}

/// Whether `places` tells, for each of `keys`, where its answer is found among the replies
/// to the queries `plan`: the position of the query to the key's shard, and the rank of the
/// key among the keys of that query, which holds the key at that rank.
pub open spec fn well_placed(
    keys: Seq<Value>,
    shards: nat,
    plan: Seq<(nat, Seq<Value>)>,
    places: Seq<(usize, usize)>,
) -> bool {
    &&& places.len() == keys.len()
    &&& forall|i: int|
        0 <= i < keys.len() ==> {
            let place = #[trigger] places[i];
            &&& place.0 < plan.len()
            &&& plan[place.0 as int].0 == shard_for(keys[i], shards)
            &&& place.1 == rank_of(keys, shards, i)
            &&& place.1 < plan[place.0 as int].1.len()
            &&& plan[place.0 as int].1[place.1 as int] == keys[i]
        }
}

/// Whether two answers to a read are the same: both fail, or both hold the same rows.
pub open spec fn same_answer(a: Result<Datas, ()>, b: Result<Datas, ()>) -> bool {
    match (a, b) {
        (Ok(x), Ok(y)) => x.deep_view() == y.deep_view(),
        (Err(_), Err(_)) => true,
        _ => false,
    }
}

/// Whether the replies `replies` hold an answer at each of `places`: every reply is one to
/// a normal read, and each place names a reply and an answer that it has.
pub open spec fn placeable(places: Seq<(usize, usize)>, replies: Seq<ReadReply>) -> bool {
    &&& forall|j: int| 0 <= j < replies.len() ==> (#[trigger] replies[j]) is Normal
    &&& forall|i: int|
        0 <= i < places.len() ==> (#[trigger] places[i]).0 < replies.len() && places[i].1
            < replies[places[i].0 as int]->Normal_0@.len()
}

/// The queries of a lookup, and where the answer for each key is found in the replies.
#[derive(Debug)]
pub struct ReadPlan {
    /// The queries to send, each with the shard that it goes to.
    pub queries: Vec<(usize, ReadQuery)>,
    /// For each key of the lookup, in order: the position of the query that holds it, and
    /// its rank among the keys of that query. The reply to the query holds the answer for
    /// the key at that rank.
    pub places: Vec<(usize, usize)>,
}

/// Where a view that lives in another process is read: its reader node, and for each
/// shard of the reader the address of the shard and whether it lives in this process.
#[derive(Debug)]
pub struct RemoteGetterBuilder {
    /// The reader node.
    pub node: NodeIndex,
    /// The shards.
    pub shards: Vec<(String, bool)>,
}

impl RemoteGetterBuilder {
    /// Build a `RemoteGetter` out of a `RemoteGetterBuilder`: one connection for each shard,
    /// none of them used yet.
    pub fn build(self) -> (g: RemoteGetter)
        ensures
            g.node == self.node,
            g.shards@.len() == self.shards@.len(),
            forall|i: int|
                0 <= i < g.shards@.len() ==> !(#[trigger] g.shards@[i]).spec_poisoned()
                    && g.shards@[i].spec_local() == self.shards@[i].1,
    {
        let mut shards: Vec<RpcClient> = Vec::new();
        let mut i: usize = 0;
        while i < self.shards.len()
            invariant
                i <= self.shards@.len(),
                shards@.len() == i,
                forall|j: int|
                    0 <= j < i ==> !(#[trigger] shards@[j]).spec_poisoned()
                        && shards@[j].spec_local() == self.shards@[j].1,
            decreases self.shards@.len() - i,
        {
            shards.push(RpcClient::new(self.shards[i].1));
            i += 1;
        }
        RemoteGetter { node: self.node, shards }
    }
}

/// Struct to query the contents of a materialized view that lives in another process.
#[derive(Debug)]
pub struct RemoteGetter {
    /// The reader node.
    pub node: NodeIndex,
    /// The connection to each shard of the reader.
    pub shards: Vec<RpcClient>,
}

impl RemoteGetter {
    /// The keys of `keys` that belong to `shard`.
    fn keys_for(&self, keys: &Vec<DataType>, shard: usize) -> (mine: Vec<DataType>)
        requires
            shard < self.shards@.len(),
        ensures
            mine.deep_view() == keys_of_shard(
                keys.deep_view(),
                self.shards@.len(),
                shard as nat,
            ),
    {
        let ghost all = keys.deep_view();
        let ghost pred = |k: Value| shard_of(k, self.shards@.len()) == shard as nat;
        let mut mine: Vec<DataType> = Vec::new();
        let mut i: usize = 0;
        proof {
            reveal(Seq::filter);
            assert(all.take(0) =~= Seq::<Value>::empty());
            assert(mine.deep_view() =~= all.take(0).filter(pred));
        }
        while i < keys.len()
            invariant
                i <= keys@.len(),
                shard < self.shards@.len(),
                all == keys.deep_view(),
                pred == |k: Value| shard_of(k, self.shards@.len()) == shard as nat,
                mine.deep_view() == all.take(i as int).filter(pred),
            decreases keys@.len() - i,
        {
            proof {
                assert(all.take(i + 1) =~= all.take(i as int).push(all[i as int]));
                all.take(i as int).lemma_filter_push(all[i as int], pred);
                assert(all[i as int] == keys@[i as int]@);
            }
            if shard_by(&keys[i], self.shards.len()) == shard {
                let ghost held = mine.deep_view();
                mine.push(keys[i].deep_clone());
                assert(mine.deep_view() =~= held.push(all[i as int]));
            }
            i += 1;
        }
        assert(all.take(keys@.len() as int) =~= all);
        mine
    }

    /// The keys that go to each shard in a lookup of `keys`, and the places of the answers:
    /// see [`planned_for`] and [`well_placed`].
    fn plan(&self, keys: Vec<DataType>, skip_empty: bool) -> (r: (
        Vec<(usize, Vec<DataType>)>,
        Vec<(usize, usize)>,
    ))
        requires
            self.shards@.len() > 0,
        ensures
            ({
                let plan = planned_for(keys.deep_view(), self.shards@.len(), skip_empty);
                &&& r.0@.len() == plan.len()
                &&& forall|i: int|
                    0 <= i < r.0@.len() ==> (#[trigger] r.0@[i]).0 == plan[i].0
                        && r.0@[i].1.deep_view() == plan[i].1
                &&& well_placed(keys.deep_view(), self.shards@.len(), plan, r.1@)
            }),
    {
        let ghost all = keys.deep_view();
        let n: usize = self.shards.len();
        let mut parts: Vec<(usize, Vec<DataType>)> = Vec::new();
        let mut places: Vec<(usize, usize)> = Vec::new();
        assert(all.len() == keys@.len());
        if n == 1 {
            let mut i: usize = 0;
            while i < keys.len()
                invariant
                    i <= keys@.len(),
                    places@.len() == i,
                    forall|j: int| 0 <= j < i ==> (#[trigger] places@[j]) == (0usize, j as usize),
                decreases keys@.len() - i,
            {
                places.push((0, i));
                i += 1;
            }
            parts.push((0, keys));
            return (parts, places);
        }
        let mut positions: Vec<usize> = Vec::new();
        let mut shard: usize = 0;
        while shard < n
            invariant
                shard <= n,
                n == self.shards@.len(),
                n > 1,
                all == keys.deep_view(),
                positions@.len() == shard,
                parts@.len() == planned(all, n as nat, shard as nat, skip_empty).len(),
                forall|i: int|
                    0 <= i < parts@.len() ==> (#[trigger] parts@[i]).0 == planned(
                        all,
                        n as nat,
                        shard as nat,
                        skip_empty,
                    )[i].0 && parts@[i].1.deep_view() == planned(
                        all,
                        n as nat,
                        shard as nat,
                        skip_empty,
                    )[i].1,
                forall|t: nat|
                    t < shard && (#[trigger] keys_of_shard(all, n as nat, t)).len() > 0 ==> {
                        let q = positions@[t as int];
                        &&& q < parts@.len()
                        &&& parts@[q as int].0 == t
                        &&& parts@[q as int].1.deep_view() == keys_of_shard(all, n as nat, t)
                    },
            decreases n - shard,
        {
            let mine = self.keys_for(&keys, shard);
            assert(mine.deep_view().len() == mine@.len());
            positions.push(parts.len());
            if !skip_empty || mine.len() > 0 {
                parts.push((shard, mine));
            }
            shard += 1;
        }
        let mut counts: Vec<usize> = Vec::new();
        let mut c: usize = 0;
        while c < n
            invariant
                c <= n,
                counts@.len() == c,
                forall|t: int| 0 <= t < c ==> #[trigger] counts@[t] == 0,
            decreases n - c,
        {
            counts.push(0);
            c += 1;
        }
        let ghost plan = planned(all, n as nat, n as nat, skip_empty);
        let mut i: usize = 0;
        proof {
            assert(all.take(0) =~= Seq::<Value>::empty());
            assert forall|t: nat| t < n implies (#[trigger] keys_of_shard(
                all.take(0),
                n as nat,
                t,
            )).len() == 0 by {
                reveal(Seq::filter);
            }
        }
        while i < keys.len()
            invariant
                i <= keys@.len(),
                n == self.shards@.len(),
                n > 1,
                all == keys.deep_view(),
                all.len() == keys@.len(),
                plan == planned(all, n as nat, n as nat, skip_empty),
                parts@.len() == plan.len(),
                forall|j: int|
                    0 <= j < parts@.len() ==> (#[trigger] parts@[j]).0 == plan[j].0
                        && parts@[j].1.deep_view() == plan[j].1,
                positions@.len() == n,
                forall|t: nat|
                    t < n && (#[trigger] keys_of_shard(all, n as nat, t)).len() > 0 ==> {
                        let q = positions@[t as int];
                        &&& q < parts@.len()
                        &&& parts@[q as int].0 == t
                        &&& parts@[q as int].1.deep_view() == keys_of_shard(all, n as nat, t)
                    },
                counts@.len() == n,
                forall|t: nat|
                    t < n ==> counts@[t as int] == (#[trigger] keys_of_shard(
                        all.take(i as int),
                        n as nat,
                        t,
                    )).len(),
                places@.len() == i,
                forall|j: int|
                    0 <= j < i ==> {
                        let place = #[trigger] places@[j];
                        &&& place.0 < plan.len()
                        &&& plan[place.0 as int].0 == shard_of(all[j], n as nat)
                        &&& place.1 == rank_of(all, n as nat, j)
                        &&& place.1 < plan[place.0 as int].1.len()
                        &&& plan[place.0 as int].1[place.1 as int] == all[j]
                    },
            decreases keys@.len() - i,
        {
            let s: usize = shard_by(&keys[i], n);
            let rank: usize = counts[s];
            let q: usize = positions[s];
            proof {
                let k = all[i as int];
                assert(k == keys@[i as int]@);
                assert(all.take(i + 1) =~= all.take(i as int).push(k));
                assert(all =~= all.take(i + 1) + all.skip(i + 1));
                assert forall|t: nat| t < n implies #[trigger] keys_of_shard(
                    all.take(i + 1),
                    n as nat,
                    t,
                ) == if t == s {
                    keys_of_shard(all.take(i as int), n as nat, t).push(k)
                } else {
                    keys_of_shard(all.take(i as int), n as nat, t)
                } by {
                    let pred = |v: Value| shard_of(v, n as nat) == t;
                    all.take(i as int).lemma_filter_push(k, pred);
                }
                let mine = |v: Value| shard_of(v, n as nat) == s as nat;
                Seq::filter_distributes_over_add(all.take(i + 1), all.skip(i + 1), mine);
                let held = keys_of_shard(all.take(i as int), n as nat, s as nat);
                assert(shard_of(k, n as nat) == s);
                assert(keys_of_shard(all.take(i + 1), n as nat, s as nat) == held.push(k));
                assert(keys_of_shard(all.take(i + 1), n as nat, s as nat) == all.take(
                    i + 1,
                ).filter(mine));
                assert(keys_of_shard(all, n as nat, s as nat) == all.filter(mine));
                assert(all.filter(mine) == (all.take(i + 1) + all.skip(i + 1)).filter(mine));
                assert(keys_of_shard(all, n as nat, s as nat) == held.push(k) + all.skip(
                    i + 1,
                ).filter(mine));
                assert(keys_of_shard(all, n as nat, s as nat)[rank as int] == k);
                all.take(i as int).lemma_filter_len(mine);
            }
            places.push((q, rank));
            counts[s] = rank + 1;
            i += 1;
        }
        proof {
            assert(well_placed(all, n as nat, plan, places@));
        }
        (parts, places)
    }

    /// The queries to send for a lookup of `keys`: to a reader with one shard, one query
    /// with all the keys; to a sharded reader, for each shard that some key belongs to, a
    /// query with the keys of that shard, in the order of the shards. With the queries come
    /// the places of the answers: for each key, which reply answers it and at which rank.
    /// [`Self::collect`] puts the replies together by them.
    pub fn multi_lookup(&self, keys: Vec<DataType>, block: bool) -> (plan: ReadPlan)
        requires
            self.shards@.len() > 0,
        ensures
            ({
                let parts = planned_for(keys.deep_view(), self.shards@.len(), true);
                &&& plan.queries@.len() == parts.len()
                &&& forall|i: int|
                    0 <= i < plan.queries@.len() ==> {
                        &&& (#[trigger] plan.queries@[i]).0 == parts[i].0
                        &&& plan.queries@[i].1 is Normal
                        &&& plan.queries@[i].1->Normal_target == (self.node, plan.queries@[i].0)
                        &&& plan.queries@[i].1->Normal_keys.deep_view() == parts[i].1
                        &&& plan.queries@[i].1->Normal_block == block
                    }
                &&& well_placed(keys.deep_view(), self.shards@.len(), parts, plan.places@)
            }),
    {
        let (mut parts, places) = self.plan(keys, true);
        let ghost all = parts@;
        let mut queries: Vec<(usize, ReadQuery)> = Vec::new();
        let n: usize = parts.len();
        let mut i: usize = 0;
        while i < n
            invariant
                i <= n,
                n == all.len(),
                parts@.len() == n - i,
                forall|j: int| 0 <= j < parts@.len() ==> parts@[j] == all[j + i],
                queries@.len() == i,
                forall|j: int|
                    0 <= j < i ==> {
                        &&& (#[trigger] queries@[j]).0 == all[j].0
                        &&& queries@[j].1 is Normal
                        &&& queries@[j].1->Normal_target == (self.node, queries@[j].0)
                        &&& queries@[j].1->Normal_keys.deep_view() == all[j].1.deep_view()
                        &&& queries@[j].1->Normal_block == block
                    },
            decreases n - i,
        {
            let (shard, mine) = parts.remove(0);
            queries.push((shard, ReadQuery::Normal { target: (self.node, shard), keys: mine, block }));
            i += 1;
        }
        ReadPlan { queries, places }
    }

    /// The queries to send for a transactional lookup of `keys`: to a reader with one
    /// shard, one query with all the keys; to a sharded reader, a query to each shard with
    /// the keys of that shard, in the order of the shards. With the queries come the places
    /// of the answers: for each key, which reply answers it and at which rank.
    pub fn transactional_multi_lookup(&self, keys: Vec<DataType>) -> (plan: ReadPlan)
        requires
            self.shards@.len() > 0,
        ensures
            ({
                let parts = planned_for(keys.deep_view(), self.shards@.len(), false);
                &&& plan.queries@.len() == parts.len()
                &&& forall|i: int|
                    0 <= i < plan.queries@.len() ==> {
                        &&& (#[trigger] plan.queries@[i]).0 == parts[i].0
                        &&& plan.queries@[i].1 is WithToken
                        &&& plan.queries@[i].1->WithToken_target == (self.node, plan.queries@[i].0)
                        &&& plan.queries@[i].1->WithToken_keys.deep_view() == parts[i].1
                    }
                &&& well_placed(keys.deep_view(), self.shards@.len(), parts, plan.places@)
            }),
    {
        let (mut parts, places) = self.plan(keys, false);
        let ghost all = parts@;
        let mut queries: Vec<(usize, ReadQuery)> = Vec::new();
        let n: usize = parts.len();
        let mut i: usize = 0;
        while i < n
            invariant
                i <= n,
                n == all.len(),
                parts@.len() == n - i,
                forall|j: int| 0 <= j < parts@.len() ==> parts@[j] == all[j + i],
                queries@.len() == i,
                forall|j: int|
                    0 <= j < i ==> {
                        &&& (#[trigger] queries@[j]).0 == all[j].0
                        &&& queries@[j].1 is WithToken
                        &&& queries@[j].1->WithToken_target == (self.node, queries@[j].0)
                        &&& queries@[j].1->WithToken_keys.deep_view() == all[j].1.deep_view()
                    },
            decreases n - i,
        {
            let (shard, mine) = parts.remove(0);
            queries.push((shard, ReadQuery::WithToken { target: (self.node, shard), keys: mine }));
            i += 1;
        }
        ReadPlan { queries, places }
    }

    /// The query to send for a lookup of a single key, and the shard to send it to.
    pub fn lookup(&self, key: &DataType, block: bool) -> (query: (usize, ReadQuery))
        requires
            self.shards@.len() > 0,
        ensures
            query.0 == if self.shards@.len() == 1 {
                0nat
            } else {
                shard_of(key@, self.shards@.len())
            },
            query.1 is Normal,
            query.1->Normal_target == (self.node, query.0),
            query.1->Normal_keys.deep_view() == seq![key@],
            query.1->Normal_block == block,
    {
        let shard: usize = if self.shards.len() == 1 {
            0
        } else {
            shard_by(key, self.shards.len())
        };
        let mut keys: Vec<DataType> = Vec::new();
        keys.push(key.deep_clone());
        assert(keys.deep_view() =~= seq![key@]);
        (shard, ReadQuery::Normal { target: (self.node, shard), keys, block })
    }

    /// The query to send for a transactional lookup of a single key, and the shard to send
    /// it to.
    pub fn transactional_lookup(&self, key: &DataType) -> (query: (usize, ReadQuery))
        requires
            self.shards@.len() > 0,
        ensures
            query.0 == if self.shards@.len() == 1 {
                0nat
            } else {
                shard_of(key@, self.shards@.len())
            },
            query.1 is WithToken,
            query.1->WithToken_target == (self.node, query.0),
            query.1->WithToken_keys.deep_view() == seq![key@],
    {
        let shard: usize = if self.shards.len() == 1 {
            0
        } else {
            shard_by(key, self.shards.len())
        };
        let mut keys: Vec<DataType> = Vec::new();
        keys.push(key.deep_clone());
        assert(keys.deep_view() =~= seq![key@]);
        (shard, ReadQuery::WithToken { target: (self.node, shard), keys })
    }

    /// Puts the answers of the replies to the queries of a lookup together, one for each
    /// key of the lookup, in the order of the keys: the answer for a key is the one at its
    /// place, as [`Self::multi_lookup`] gave it. `None` where a reply is not one to a
    /// normal read, or lacks the answer of a place.
    pub fn collect(places: &Vec<(usize, usize)>, replies: &Vec<ReadReply>) -> (rows: Option<
        Vec<Result<Datas, ()>>,
    >)
        ensures
            rows.is_some() == placeable(places@, replies@),
            rows.is_some() ==> rows.unwrap()@.len() == places@.len() && forall|i: int|
                0 <= i < places@.len() ==> same_answer(
                    #[trigger] rows.unwrap()@[i],
                    replies@[places@[i].0 as int]->Normal_0@[places@[i].1 as int],
                ),
    {
        let mut j: usize = 0;
        while j < replies.len()
            invariant
                j <= replies@.len(),
                forall|h: int| 0 <= h < j ==> (#[trigger] replies@[h]) is Normal,
            decreases replies@.len() - j,
        {
            match &replies[j] {
                ReadReply::Normal(_) => {},
                ReadReply::WithToken(_) => {
                    return None;
                },
            }
            j += 1;
        }
        let mut rows: Vec<Result<Datas, ()>> = Vec::new();
        let mut i: usize = 0;
        while i < places.len()
            invariant
                i <= places@.len(),
                forall|h: int| 0 <= h < replies@.len() ==> (#[trigger] replies@[h]) is Normal,
                forall|h: int|
                    0 <= h < i ==> (#[trigger] places@[h]).0 < replies@.len() && places@[h].1
                        < replies@[places@[h].0 as int]->Normal_0@.len(),
                rows@.len() == i,
                forall|h: int|
                    0 <= h < i ==> same_answer(
                        #[trigger] rows@[h],
                        replies@[places@[h].0 as int]->Normal_0@[places@[h].1 as int],
                    ),
            decreases places@.len() - i,
        {
            let (q, r) = places[i];
            if q >= replies.len() {
                return None;
            }
            match &replies[q] {
                ReadReply::Normal(answers) => {
                    if r >= answers.len() {
                        return None;
                    }
                    match &answers[r] {
                        Ok(found) => {
                            rows.push(Ok(clone_rows(found)));
                        },
                        Err(_) => {
                            rows.push(Err(()));
                        },
                    }
                },
                ReadReply::WithToken(_) => {
                    return None;
                },
            }
            i += 1;
        }
        Some(rows)
    }
}

} // verus!
