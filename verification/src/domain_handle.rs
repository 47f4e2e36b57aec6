//! The controller's handle on a domain: which shards it has, what goes to each of them,
//! and what their answers add up to.

use crate::addressing::{DomainIndex, Sharding};
use crate::data::{project, rows_equal, DataType, Record, Row, Value};
use crate::payload::{ControlReplyPacket, Packet, PacketView};
use crate::sharding::{shard_by, shard_of};
use vstd::prelude::*;

verus! {

/// The number of shards of a sharded domain.
pub const SHARDS: usize = 2;

/// Why waiting for the shards' answers failed.
#[derive(Clone, Copy, Debug, PartialEq, Eq, Structural)]
pub enum WaitError {
    /// A shard gave another answer than was waited for.
    WrongReply(ControlReplyPacket),
    /// A shard gave no answer.
    Missing,
    /// The answers add up to more than can be counted.
    Overflow,
}

/// Why a batch of writes cannot be routed to a shard of a sharded base.
#[derive(Clone, Copy, Debug, PartialEq, Eq, Structural)]
pub enum RouteError {
    /// The base is sharded by more than one column.
    ComplexKey,
    /// The batch holds records for different shards.
    MixedBatch,
}

/// The way into a domain for the writes to its base.
#[derive(Clone, Copy, Debug, PartialEq, Eq, Structural)]
pub struct DomainInputHandle {
    shards: usize,
}

impl DomainInputHandle {
    /// The number of shards.
    pub closed spec fn spec_shards(self) -> nat {
        self.shards as nat
    }

    /// Whether every record of `data` has the value `v` in the column `column`.
    pub open spec fn all_keyed(data: Seq<crate::data::SignedRow>, column: usize, v: Value) -> bool {
        forall|i: int|
            0 <= i < data.len() ==> column < (#[trigger] data[i]).row.len() && data[i].row[column as int]
                == v
    }

    /// The shard that a batch of writes to the base goes to, where `key` names the columns
    /// that the base is sharded by. A domain with one shard takes every batch. A sharded
    /// base must have a sharding column, and the batch a first record with that column; the
    /// batch goes to the shard of the value that its first record has there. A base that is
    /// sharded by more than one column, and a batch whose records do not all have that
    /// value, cannot be routed.
    pub fn base_send(&self, data: &Vec<Record>, key: &Vec<usize>) -> (r: Result<usize, RouteError>)
        requires
            self.spec_shards() > 0,
            self.spec_shards() > 1 ==> key@.len() > 0 && data@.len() > 0 && key@[0]
                < data.deep_view()[0].row.len(),
        ensures
            self.spec_shards() == 1 ==> r == Ok::<usize, RouteError>(0),
            self.spec_shards() > 1 ==> {
                let v = data.deep_view()[0].row[key@[0] as int];
                if key@.len() != 1 {
                    r == Err::<usize, RouteError>(RouteError::ComplexKey)
                } else if !Self::all_keyed(data.deep_view(), key@[0], v) {
                    r == Err::<usize, RouteError>(RouteError::MixedBatch)
                } else {
                    r.is_ok() && r.unwrap() == shard_of(v, self.spec_shards())
                }
            },
    {
        if self.shards == 1 {
            return Ok(0);
        }
        if key.len() != 1 {
            return Err(RouteError::ComplexKey);
        }
        let key_col: usize = key[0];
        let first = data[0].row();
        proof {
            assert(data.deep_view()[0] == data@[0]@);
            assert(first.deep_view().len() == first@.len());
            assert(first.deep_view()[key_col as int] == first@[key_col as int]@);
        }
        let value = &first[key_col];
        let mut i: usize = 0;
        while i < data.len()
            invariant
                i <= data@.len(),
                self.spec_shards() > 1,
                key@.len() == 1,
                key_col == key@[0],
                data@.len() > 0,
                value@ == data.deep_view()[0].row[key_col as int],
                forall|j: int|
                    0 <= j < i ==> key_col < (#[trigger] data.deep_view()[j]).row.len()
                        && data.deep_view()[j].row[key_col as int] == value@,
            decreases data@.len() - i,
        {
            let row = data[i].row();
            proof {
                assert(data.deep_view()[i as int] == data@[i as int]@);
                assert(row.deep_view().len() == row@.len());
            }
            if key_col >= row.len() {
                return Err(RouteError::MixedBatch);
            }
            assert(row.deep_view()[key_col as int] == row@[key_col as int]@);
            if !row[key_col].equals(value) {
                return Err(RouteError::MixedBatch);
            }
            i += 1;
        }
        Ok(shard_by(value, self.shards))
    }
}

/// The workers that the shards of a domain go to, where the `workers` workers are taken in
/// turn and the worker `first` takes the first shard.
pub open spec fn placement(workers: nat, first: nat, shards: nat) -> Seq<usize> {
    Seq::new(shards, |i: int| ((first + i) % (workers as int)) as usize)
}

/// Places the `shards` shards of a domain on `workers` workers, which are taken in turn:
/// the worker `first` takes the first shard. For each shard the number of its worker is
/// handed back. `None` where there is no worker.
pub fn place(workers: usize, first: usize, shards: usize) -> (r: Option<Vec<usize>>)
    requires
        workers > 0 ==> first < workers,
    ensures
        r.is_some() == (workers > 0),
        r.is_some() ==> r.unwrap()@ == placement(workers as nat, first as nat, shards as nat),
{
    if workers == 0 {
        return None;
    }
    let mut out: Vec<usize> = Vec::with_capacity(shards);
    let mut next: usize = first;
    let mut i: usize = 0;
    proof {
        vstd::arithmetic::div_mod::lemma_small_mod(first as nat, workers as nat);
    }
    while i < shards
        invariant
            i <= shards,
            workers > 0,
            next < workers,
            next == (first + i) % (workers as int),
            out@.len() == i,
            forall|j: int| 0 <= j < i ==> #[trigger] out@[j] == (first + j) % (workers as int),
        decreases shards - i,
    {
        out.push(next);
        proof {
            assert((first + i + 1) % (workers as int) == if next + 1 == workers {
                0int
            } else {
                next + 1
            }) by (nonlinear_arith)
                requires
                    next == (first + i) % (workers as int),
                    workers > 0,
                    0 <= next < workers,
            ;
        }
        next = if next + 1 == workers {
            0
        } else {
            next + 1
        };
        i += 1;
    }
    assert(out@ =~= placement(workers as nat, first as nat, shards as nat));
    Some(out)
}

/// Why the report of a shard cannot be taken.
#[derive(Clone, Copy, Debug, PartialEq, Eq, Structural)]
pub enum BootError {
    /// The domain has no such shard.
    UnknownShard,
}

/// The start of a domain: its shards were sent to their workers, and report one by one
/// where they can be reached.
#[derive(Debug)]
pub struct Boot {
    idx: DomainIndex,
    workers: Vec<usize>,
    up: Vec<bool>,
}

impl Boot {
    /// The domain.
    pub closed spec fn domain(self) -> DomainIndex {
        self.idx
    }

    /// The worker of each shard.
    pub closed spec fn assignments(self) -> Seq<usize> {
        self.workers@
    }

    /// Which shards have reported.
    pub closed spec fn reported(self) -> Seq<bool> {
        self.up@
    }

    /// Every shard is known to have reported or not.
    pub open spec fn wf(self) -> bool {
        self.reported().len() == self.assignments().len()
    }

    /// Whether every shard has reported.
    pub open spec fn complete(self) -> bool {
        forall|i: int| 0 <= i < self.reported().len() ==> #[trigger] self.reported()[i]
    }

    /// The start of the domain `domain`, whose shards went to the workers `workers`. No
    /// shard has reported.
    pub fn start(domain: DomainIndex, workers: Vec<usize>) -> (b: Boot)
        ensures
            b.wf(),
            b.domain() == domain,
            b.assignments() == workers@,
            forall|i: int| 0 <= i < b.reported().len() ==> !#[trigger] b.reported()[i],
    {
        let mut up: Vec<bool> = Vec::with_capacity(workers.len());
        let mut i: usize = 0;
        while i < workers.len()
            invariant
                i <= workers@.len(),
                up@.len() == i,
                forall|j: int| 0 <= j < i ==> !#[trigger] up@[j],
            decreases workers@.len() - i,
        {
            up.push(false);
            i += 1;
        }
        Boot { idx: domain, workers, up }
    }

    /// Whether every shard has reported.
    pub fn is_complete(&self) -> (b: bool)
        ensures
            b == self.complete(),
    {
        let mut i: usize = 0;
        while i < self.up.len()
            invariant
                i <= self.up@.len(),
                forall|j: int| 0 <= j < i ==> #[trigger] self.up@[j],
            decreases self.up@.len() - i,
        {
            if !self.up[i] {
                assert(!self.reported()[i as int]);
                return false;
            }
            i += 1;
        }
        true
    }

    /// Takes the report that the shard `shard` is up and reached at `addr`: the address is
    /// noted with the coordinator, as that of a shard in another process, in place of what
    /// was known of the shard. Returns whether every shard has reported by now. A report
    /// of a shard that the domain does not have is refused, and nothing is noted.
    pub fn on_booted(
        &mut self,
        coordinator: &mut crate::channel::ChannelCoordinator,
        shard: usize,
        addr: String,
    ) -> (r: Result<bool, BootError>)
        requires
            old(self).wf(),
            old(coordinator).wf(),
        ensures
            final(self).wf(),
            final(coordinator).wf(),
            final(self).domain() == old(self).domain(),
            final(self).assignments() == old(self).assignments(),
            match r {
                Err(e) => e == BootError::UnknownShard && shard >= old(self).reported().len()
                    && final(self).reported() == old(self).reported() && final(coordinator)@
                    == old(coordinator)@,
                Ok(done) => shard < old(self).reported().len() && final(self).reported() == old(
                    self,
                ).reported().update(shard as int, true) && final(coordinator)@ == old(
                    coordinator,
                )@.insert(
                    (old(self).domain(), shard),
                    crate::channel::Transport { addr: addr@, local: false },
                ) && done == final(self).complete(),
            },
    {
        if shard >= self.up.len() {
            return Err(BootError::UnknownShard);
        }
        coordinator.insert_addr((self.idx, shard), addr, false);
        self.up[shard] = true;
        Ok(self.is_complete())
    }

    /// The handle on the domain, once every shard has reported; else the start itself is
    /// handed back.
    pub fn finish(self) -> (r: Result<DomainHandle, Boot>)
        requires
            self.wf(),
        ensures
            match r {
                Ok(h) => self.complete() && h.domain() == self.domain() && h.spec_shards()
                    == self.assignments().len() && h.assignments() == self.assignments(),
                Err(b) => !self.complete() && b == self,
            },
    {
        if !self.is_complete() {
            return Err(self);
        }
        let shards: usize = self.workers.len();
        Ok(DomainHandle { idx: self.idx, shards, workers: self.workers })
    }
}

/// The controller's handle on a domain.
#[derive(Debug)]
pub struct DomainHandle {
    idx: DomainIndex,
    shards: usize,
    workers: Vec<usize>,
}

impl DomainHandle {
    /// The domain.
    pub closed spec fn domain(self) -> DomainIndex {
        self.idx
    }

    /// The number of shards.
    pub closed spec fn spec_shards(self) -> nat {
        self.shards as nat
    }

    /// The handle on the domain `domain`, which has one shard unless it is sharded, and
    /// then has [`SHARDS`].
    pub fn new(domain: DomainIndex, sharded_by: Sharding) -> (h: DomainHandle)
        ensures
            h.domain() == domain,
            h.spec_shards() == if sharded_by == Sharding::Unsharded {
                1nat
            } else {
                SHARDS as nat
            },
            h.assignments().len() == 0,
    {
        let shards: usize = match sharded_by {
            Sharding::Unsharded => 1,
            _ => SHARDS,
        };
        DomainHandle { idx: domain, shards, workers: Vec::new() }
    }

    /// The worker of each shard, for a domain whose shards were placed on workers.
    pub closed spec fn assignments(self) -> Seq<usize> {
        self.workers@
    }

    /// The worker that the shard `shard` was placed on.
    pub fn assignment(&self, shard: usize) -> (w: usize)
        requires
            shard < self.assignments().len(),
        ensures
            w == self.assignments()[shard as int],
    {
        self.workers[shard]
    }

    /// The number of shards.
    pub fn shards(&self) -> (n: usize)
        ensures
            n == self.spec_shards(),
    {
        self.shards
    }

    /// The way into the domain for the writes to its base.
    pub fn get_input_handle(&self) -> (h: DomainInputHandle)
        ensures
            h.spec_shards() == self.spec_shards(),
    {
        DomainInputHandle { shards: self.shards }
    }

    /// The packet for shard `i` of `of`, where `buf` holds the packet that is sent to all
    /// shards: the last shard gets the packet itself, every other a copy.
    fn nextp(buf: &mut Option<Packet>, i: usize, of: usize) -> (p: Packet)
        requires
            old(buf).is_some(),
            i < of,
        ensures
            p@ == old(buf).unwrap()@,
            i == of - 1 ==> final(buf).is_none(),
            i < of - 1 ==> *final(buf) == *old(buf),
    {
        if i == of - 1 {
            return buf.take().unwrap();
        }
        match buf {
            Some(p) => p.clone_data(),
            None => Packet::Quit,
        }
    }

    /// What goes to the shards when `p` is sent to the domain: to each shard, in order, the
    /// packet. A packet that changes the columns of a base cannot go to a domain that has
    /// more than one shard: it is refused, and handed back.
    pub fn send(&self, p: Packet) -> (r: Result<Vec<(usize, Packet)>, Packet>)
        ensures
            r.is_err() == (self.spec_shards() > 1 && !p.shareable()),
            r.is_err() ==> r == Err::<Vec<(usize, Packet)>, Packet>(p),
            r.is_ok() ==> r.unwrap()@.len() == self.spec_shards() && forall|i: int|
                0 <= i < r.unwrap()@.len() ==> (#[trigger] r.unwrap()@[i]).0 == i
                    && r.unwrap()@[i].1@ == p@,
    {
        if self.shards > 1 && !p.is_shareable() {
            return Err(p);
        }
        let mut out: Vec<(usize, Packet)> = Vec::new();
        let ghost sent = p@;
        let mut tx_buf: Option<Packet> = Some(p);
        let txs: usize = self.shards;
        let mut i: usize = 0;
        while i < txs
            invariant
                i <= txs,
                txs == self.spec_shards(),
                i < txs ==> tx_buf.is_some() && tx_buf.unwrap()@ == sent,
                out@.len() == i,
                forall|j: int| 0 <= j < i ==> (#[trigger] out@[j]).0 == j && out@[j].1@ == sent,
            decreases txs - i,
        {
            let next = Self::nextp(&mut tx_buf, i, txs);
            out.push((i, next));
            i += 1;
        }
        Ok(out)
    }

    /// What goes to shard `i` when `p` is sent to it alone; nothing where the domain has no
    /// such shard.
    pub fn send_to_shard(&self, i: usize, p: Packet) -> (out: Option<(usize, Packet)>)
        ensures
            out.is_some() == (i < self.spec_shards()),
            out.is_some() ==> out.unwrap() == (i, p),
    {
        if i < self.shards {
            Some((i, p))
        } else {
            None
        }
    }

    /// Why the first `n` answers are not all there and such as `wanted` tells, if
    /// they are not: the first answer that is missing or of another kind is the error.
    pub open spec fn failure(
        replies: Seq<ControlReplyPacket>,
        n: int,
        wanted: spec_fn(ControlReplyPacket) -> bool,
    ) -> Option<WaitError>
        decreases n,
    {
        if n <= 0 {
            None
        } else {
            match Self::failure(replies, n - 1, wanted) {
                Some(e) => Some(e),
                None => if n - 1 >= replies.len() {
                    Some(WaitError::Missing)
                } else if !wanted(replies[n - 1]) {
                    Some(WaitError::WrongReply(replies[n - 1]))
                } else {
                    None
                },
            }
        }
    }

    /// A failure among the first answers is the failure of more answers too.
    pub proof fn lemma_failure_stays(
        replies: Seq<ControlReplyPacket>,
        a: int,
        b: int,
        wanted: spec_fn(ControlReplyPacket) -> bool,
    )
        requires
            0 <= a <= b,
            Self::failure(replies, a, wanted).is_some(),
        ensures
            Self::failure(replies, b, wanted) == Self::failure(replies, a, wanted),
        decreases b - a,
    {
        if a < b {
            Self::lemma_failure_stays(replies, a, b - 1, wanted);
        }
    }

    /// Whether the answers of the shards, one of each in order, are all acknowledgements.
    /// The first answer that is none is the error; an answer that is missing is one too.
    pub fn wait_for_ack(&self, replies: &Vec<ControlReplyPacket>) -> (r: Result<(), WaitError>)
        ensures
            r == match Self::failure(
                replies@,
                self.spec_shards() as int,
                |p: ControlReplyPacket| p is Ack,
            ) {
                Some(e) => Err::<(), WaitError>(e),
                None => Ok::<(), WaitError>(()),
            },
    {
        let ghost wanted = |p: ControlReplyPacket| p is Ack;
        let mut i: usize = 0;
        while i < self.shards
            invariant
                i <= self.shards,
                wanted == |p: ControlReplyPacket| p is Ack,
                Self::failure(replies@, i as int, wanted).is_none(),
            decreases self.shards - i,
        {
            if i >= replies.len() {
                proof {
                    Self::lemma_failure_stays(replies@, i + 1, self.spec_shards() as int, wanted);
                }
                return Err(WaitError::Missing);
            }
            match replies[i] {
                ControlReplyPacket::Ack => {},
                r => {
                    proof {
                        assert(!wanted(replies@[i as int]));
                        Self::lemma_failure_stays(
                            replies@,
                            i + 1,
                            self.spec_shards() as int,
                            wanted,
                        );
                    }
                    return Err(WaitError::WrongReply(r));
                },
            }
            assert(wanted(replies@[i as int]));
            i += 1;
        }
        Ok(())
    }

    /// The sizes that the first `n` answers give, added up, or the error that the answers
    /// meet first: an answer that is missing, one that gives no size, or a sum that cannot
    /// be counted.
    pub open spec fn sized(replies: Seq<ControlReplyPacket>, n: int) -> Result<usize, WaitError>
        decreases n,
    {
        if n <= 0 {
            Ok(0usize)
        } else {
            match Self::sized(replies, n - 1) {
                Err(e) => Err(e),
                Ok(sum) => if n - 1 >= replies.len() {
                    Err(WaitError::Missing)
                } else {
                    match replies[n - 1] {
                        ControlReplyPacket::StateSize(s) => if sum + s > usize::MAX {
                            Err(WaitError::Overflow)
                        } else {
                            Ok((sum + s) as usize)
                        },
                        other => Err(WaitError::WrongReply(other)),
                    }
                },
            }
        }
    }

    /// An error among the first answers is the error of more answers too.
    pub proof fn lemma_sized_stays(replies: Seq<ControlReplyPacket>, a: int, b: int)
        requires
            0 <= a <= b,
            Self::sized(replies, a).is_err(),
        ensures
            Self::sized(replies, b) == Self::sized(replies, a),
        decreases b - a,
    {
        if a < b {
            Self::lemma_sized_stays(replies, a, b - 1);
        }
    }

    /// The size of the state of a node over all shards, from the answers of the shards, one
    /// of each in order. An answer that gives no size is an error, and so is an answer that
    /// is missing, and a sum that cannot be counted.
    pub fn wait_for_state_size(&self, replies: &Vec<ControlReplyPacket>) -> (r: Result<
        usize,
        WaitError,
    >)
        ensures
            r == Self::sized(replies@, self.spec_shards() as int),
    {
        let mut size: usize = 0;
        let mut i: usize = 0;
        while i < self.shards
            invariant
                i <= self.shards,
                Self::sized(replies@, i as int) == Ok::<usize, WaitError>(size),
            decreases self.shards - i,
        {
            proof {
                if i >= replies@.len() || !(replies@[i as int] is StateSize) || size
                    + replies@[i as int]->StateSize_0 > usize::MAX {
                    Self::lemma_sized_stays(replies@, i + 1, self.spec_shards() as int);
                }
            }
            if i >= replies.len() {
                return Err(WaitError::Missing);
            }
            match replies[i] {
                ControlReplyPacket::StateSize(s) => {
                    match size.checked_add(s) {
                        Some(t) => {
                            size = t;
                        },
                        None => {
                            return Err(WaitError::Overflow);
                        },
                    }
                },
                r => {
                    return Err(WaitError::WrongReply(r));
                },
            }
            i += 1;
        }
        Ok(size)
    }

    /// The statistics of the shards, from the answers of the shards, one of each in
    /// order: for each shard the time that it has worked and the time that it has waited.
    /// An answer that gives no statistics is an error, and so is one that is missing; the
    /// first such answer is the error.
    pub fn wait_for_statistics(&self, replies: &Vec<ControlReplyPacket>) -> (r: Result<
        Vec<(u64, u64)>,
        WaitError,
    >)
        ensures
            match Self::failure(
                replies@,
                self.spec_shards() as int,
                |p: ControlReplyPacket| p is Statistics,
            ) {
                Some(e) => r == Err::<Vec<(u64, u64)>, WaitError>(e),
                None => r.is_ok() && r.unwrap()@.len() == self.spec_shards() && forall|i: int|
                    0 <= i < self.spec_shards() ==> (#[trigger] replies@[i])
                        == (ControlReplyPacket::Statistics {
                        total_time: r.unwrap()@[i].0,
                        wait_time: r.unwrap()@[i].1,
                    }),
            },
    {
        let ghost wanted = |p: ControlReplyPacket| p is Statistics;
        let mut stats: Vec<(u64, u64)> = Vec::with_capacity(self.shards);
        let mut i: usize = 0;
        while i < self.shards
            invariant
                i <= self.shards,
                wanted == |p: ControlReplyPacket| p is Statistics,
                Self::failure(replies@, i as int, wanted).is_none(),
                stats@.len() == i,
                forall|j: int|
                    0 <= j < i ==> j < replies@.len() && (#[trigger] replies@[j])
                        == (ControlReplyPacket::Statistics {
                        total_time: stats@[j].0,
                        wait_time: stats@[j].1,
                    }),
            decreases self.shards - i,
        {
            if i >= replies.len() {
                proof {
                    Self::lemma_failure_stays(replies@, i + 1, self.spec_shards() as int, wanted);
                }
                return Err(WaitError::Missing);
            }
            match replies[i] {
                ControlReplyPacket::Statistics { total_time, wait_time } => {
                    stats.push((total_time, wait_time));
                },
                r => {
                    proof {
                        assert(!wanted(replies@[i as int]));
                        Self::lemma_failure_stays(
                            replies@,
                            i + 1,
                            self.spec_shards() as int,
                            wanted,
                        );
                    }
                    return Err(WaitError::WrongReply(r));
                },
            }
            assert(wanted(replies@[i as int]));
            i += 1;
        }
        Ok(stats)
    }
}

} // verus!
