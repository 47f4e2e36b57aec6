//! The packets of a domain, each carried out: a packet leads the domain from one state to
//! the next and leaves something to send or to answer.

use crate::addressing::{LocalNodeIndex, Tag};
use crate::data::{DataType, Delta, Record, Row};
use crate::domain::{Batch, Delivery, Domain, DomainError, WriteOutcome};
use crate::flow::NodeOperator;
use crate::payload::Packet;
use crate::replay::{find_path, path_with, PathView, ReplayError, ReplayPath, RequestPartialReplay};
use vstd::prelude::*;

verus! {

/// What a domain has made of a packet.
#[derive(Debug)]
pub enum Handled {
    /// A batch was delivered, with what followed from it: the deliveries, the error that
    /// ended them, if any, and the requests for replays that are to be sent.
    Delivered {
        deliveries: Vec<Delivery>,
        error: Option<DomainError>,
        requests: Result<Vec<RequestPartialReplay>, ReplayError>,
    },
    /// Writes were taken in.
    Written(WriteOutcome),
    /// A replay was taken in: the request that is to be sent next, if any, and the callers
    /// that are to be woken.
    Filled { next: Option<RequestPartialReplay>, woken: Vec<u64> },
    /// The answer to a request for a replay: the rows to send down the path, or nothing
    /// where the key is a hole of the source as well.
    Piece { tag: Tag, key: Vec<DataType>, rows: Option<Vec<Vec<DataType>>> },
    /// Keys were evicted: for each key, whether the state had known it.
    Evicted { known: Vec<bool> },
    /// A node has got its state.
    Prepared,
    /// A node was marked as ready.
    Readied,
    /// The number of rows that the state of a node holds, or the most that can be
    /// counted.
    StateSize(usize),
    /// The packet was refused, and nothing has changed.
    Refused(DomainError),
    /// The packet changes the shape of the domain, or asks for what the nodes do not keep:
    /// it is left to the one that keeps the shape.
    Left(Packet),
}

impl Handled {
    /// Whether the packet was refused with the error `e`.
    pub open spec fn refuses(self, e: DomainError) -> bool {
        self matches Handled::Refused(x) && x == e
    }
}

/// The rows of a piece of a replay: the rows of its records, all of which must be positive.
pub open spec fn piece_rows(data: Delta) -> Option<Seq<Row>> {
    if forall|i: int| 0 <= i < data.len() ==> (#[trigger] data[i]).positive {
        Some(Seq::new(data.len(), |i: int| data[i].row))
    } else {
        None
    }
}

/// The rows of a piece of a replay: the rows of its records, all of which must be positive.
pub fn rows_of_piece(data: Vec<Record>) -> (r: Option<Vec<Vec<DataType>>>)
    ensures
        match piece_rows(data.deep_view()) {
            Some(rows) => r.is_some() && r.unwrap().deep_view() == rows,
            None => r.is_none(),
        },
{
    let ghost all = data.deep_view();
    let mut rows: Vec<Vec<DataType>> = Vec::new();
    let mut i: usize = 0;
    assert(all.len() == data@.len());
    while i < data.len()
        invariant
            i <= data@.len(),
            all == data.deep_view(),
            all.len() == data@.len(),
            rows@.len() == i,
            forall|j: int| 0 <= j < i ==> (#[trigger] all[j]).positive,
            forall|j: int| 0 <= j < i ==> (#[trigger] rows@[j]).deep_view() == all[j].row,
        decreases data@.len() - i,
    {
        assert(all[i as int] == data@[i as int]@);
        if !data[i].is_positive() {
            return None;
        }
        rows.push(crate::data::clone_row(data[i].row()));
        i += 1;
    }
    assert(rows.deep_view() =~= Seq::new(all.len(), |i: int| all[i].row));
    Some(rows)
}

/// The records that insert the rows `rows`, in order: what a piece of a replay carries.
pub fn piece_of(rows: Vec<Vec<DataType>>) -> (data: Vec<Record>)
    ensures
        piece_rows(data.deep_view()) == Some(rows.deep_view()),
        data@.len() == rows@.len(),
{
    let ghost all = rows.deep_view();
    let mut rest = rows;
    let mut data: Vec<Record> = Vec::new();
    let n: usize = rest.len();
    let mut i: usize = 0;
    assert(all.len() == rest@.len());
    while i < n
        invariant
            i <= n,
            n == all.len(),
            rest@.len() == n - i,
            forall|j: int| 0 <= j < rest@.len() ==> (#[trigger] rest@[j]).deep_view() == all[j + i],
            data@.len() == i,
            forall|j: int|
                0 <= j < i ==> (#[trigger] data@[j])@ == (crate::data::SignedRow {
                    positive: true,
                    row: all[j],
                }),
        decreases n - i,
    {
        let row = rest.remove(0);
        data.push(Record::Positive(row));
        i += 1;
    }
    proof {
        let view = data.deep_view();
        assert(view.len() == n);
        assert forall|j: int| 0 <= j < view.len() implies (#[trigger] view[j]).positive by {
            assert(view[j] == data@[j]@);
        }
        assert(Seq::new(view.len(), |j: int| view[j].row) =~= all) by {
            assert forall|j: int| 0 <= j < view.len() implies view[j].row == all[j] by {
                assert(view[j] == data@[j]@);
            }
        }
    }
    data
}

impl Domain {
    /// Whether evicting the keys `keys` from the node `node`, one after the other, leads
    /// from the domain `self` to the domain `after`, and `known` says of each key whether
    /// the state had known it; see [`Self::evicted`].
    pub open spec fn evictions(
        self,
        after: Domain,
        node: LocalNodeIndex,
        keys: Seq<Vec<DataType>>,
        known: Seq<bool>,
    ) -> bool
        decreases keys.len(),
    {
        if keys.len() == 0 {
            after == self && known.len() == 0
        } else {
            known.len() == keys.len() && exists|before: Domain|
                {
                    &&& #[trigger] Self::passes_through(before)
                    &&& self.evictions(before, node, keys.drop_last(), known.drop_last())
                    &&& before.evicted(after, node, keys.last(), known.last())
                }
        }
    }

    /// Evicts the keys `keys` from the node `node`, one after the other, and says of each
    /// whether the state had known it.
    pub fn evict_all(&mut self, node: LocalNodeIndex, keys: &Vec<Vec<DataType>>) -> (known: Vec<
        bool,
    >)
        requires
            old(self).wf(),
        ensures
            final(self).wf(),
            old(self).evictions(*final(self), node, keys@, known@),
    {
        let ghost start = *self;
        let mut known: Vec<bool> = Vec::new();
        let mut i: usize = 0;
        proof {
            assert(keys@.take(0) =~= Seq::<Vec<DataType>>::empty());
        }
        while i < keys.len()
            invariant
                i <= keys@.len(),
                self.wf(),
                known@.len() == i,
                start.evictions(*self, node, keys@.take(i as int), known@),
            decreases keys@.len() - i,
        {
            let ghost before = *self;
            let ghost so_far = known@;
            let k = self.evict(node, &keys[i]);
            known.push(k);
            proof {
                assert(keys@.take(i + 1).drop_last() =~= keys@.take(i as int));
                assert(keys@.take(i + 1).last() == keys@[i as int]);
                assert(known@.drop_last() =~= so_far);
                assert(Self::passes_through(before));
            }
            i += 1;
        }
        proof {
            assert(keys@.take(keys@.len() as int) =~= keys@);
        }
        known
    }

    /// The number of rows that the node `node` holds: those of its materialized output, or
    /// of its state if it is a reader. `None` where it keeps neither.
    pub open spec fn size_of(self, node: LocalNodeIndex) -> Option<nat> {
        if self.has(node) && self.node(node).operator is Reader {
            match self.node(node).operator->Reader_0@.state {
                Some(m) => Some(m.size()),
                None => None,
            }
        } else {
            match self.states.model(node) {
                Some(m) => Some(m.size()),
                None => None,
            }
        }
    }

    /// The number of rows that the node `node` holds, or the most that can be counted; see
    /// [`Self::size_of`].
    pub fn state_size(&self, node: LocalNodeIndex) -> (n: Option<usize>)
        requires
            self.wf(),
        ensures
            match self.size_of(node) {
                Some(size) => n == Some(
                    if size <= usize::MAX {
                        size as usize
                    } else {
                        usize::MAX
                    },
                ),
                None => n.is_none(),
            },
    {
        let t: usize = node.id();
        if t < self.nodes.len() {
            assert(self.node(node) == self.nodes@[t as int]);
            match &self.nodes[t].operator {
                NodeOperator::Reader(r) => {
                    if r.is_ready() {
                        return Some(r.len());
                    } else {
                        return None;
                    }
                },
                _ => {},
            }
        }
        match self.states.get(node) {
            Some(s) => Some(s.size()),
            None => None,
        }
    }

    /// Whether carrying out the packet `p` at the time `now`, with the replay paths
    /// `paths` and at most `limit` deliveries, leads from the domain `self` to the domain
    /// `after` and leaves `h`.
    pub open spec fn handled(
        self,
        after: Domain,
        paths: Seq<PathView>,
        p: Packet,
        now: u64,
        limit: usize,
        h: Handled,
    ) -> bool {
        match p {
            Packet::Message { from, to, data } => h matches Handled::Delivered {
                deliveries,
                error,
                requests,
            } && self.took(
                after,
                paths,
                seq![Batch { to, from, delta: data.deep_view() }],
                now,
                limit,
                deliveries@,
                error,
                requests,
            ),
            Packet::Input { base, ops } => match h {
                Handled::Written(w) => self.written(
                    after,
                    paths,
                    base,
                    ops.deep_view(),
                    now,
                    limit,
                    Ok(w),
                ),
                Handled::Refused(e) => self.written(
                    after,
                    paths,
                    base,
                    ops.deep_view(),
                    now,
                    limit,
                    Err(e),
                ),
                _ => false,
            },
            Packet::ReplayPiece { tag, from, to, key: None, data } => h matches Handled::Delivered {
                deliveries,
                error,
                requests,
            } && self.took(
                after,
                paths,
                seq![Batch { to, from, delta: data.deep_view() }],
                now,
                limit,
                deliveries@,
                error,
                requests,
            ),
            Packet::ReplayPiece { tag, from, to, key: Some(key), data } => match piece_rows(
                data.deep_view(),
            ) {
                None => after == self && h.refuses(DomainError::InvariantViolation),
                Some(rows) => if self.has(to) && self.node(to).operator is Reader {
                    match h {
                        Handled::Filled { next, woken } => exists|given: Vec<Vec<DataType>>|
                            given.deep_view() == rows && #[trigger] self.replayed(
                                after,
                                tag,
                                to,
                                key,
                                given,
                                now,
                                Ok((next, woken)),
                            ),
                        Handled::Refused(e) => exists|given: Vec<Vec<DataType>>|
                            given.deep_view() == rows && #[trigger] self.replayed(
                                after,
                                tag,
                                to,
                                key,
                                given,
                                now,
                                Err(e),
                            ),
                        _ => false,
                    }
                } else {
                    match h {
                        Handled::Filled { next, woken } => woken@.len() == 0 && exists|
                            given: Vec<Vec<DataType>>,
                        |
                            given.deep_view() == rows && #[trigger] self.installed(
                                after,
                                tag,
                                to,
                                key,
                                given,
                                now,
                                Ok(next),
                            ),
                        Handled::Refused(e) => exists|given: Vec<Vec<DataType>>|
                            given.deep_view() == rows && #[trigger] self.installed(
                                after,
                                tag,
                                to,
                                key,
                                given,
                                now,
                                Err(e),
                            ),
                        _ => false,
                    }
                },
            },
            Packet::RequestPartialReplay { tag, key } => after == self && match path_with(
                paths,
                tag,
            ) {
                None => h.refuses(DomainError::UnknownReplay),
                Some(path) => match path.source {
                    None => h.refuses(DomainError::InvariantViolation),
                    Some(source) => match self.served(source, path.columns, key.deep_view()) {
                        Err(e) => h.refuses(e),
                        Ok(found) => h matches Handled::Piece { tag: t, key: k, rows } && t == tag
                            && k.deep_view() == key.deep_view() && match found {
                            Some(served) => rows.is_some() && rows.unwrap().deep_view() == served,
                            None => rows.is_none(),
                        },
                    },
                },
            },
            Packet::PrepareState { node, key, partial } => match h {
                Handled::Prepared => self.prepared(after, node, key, partial, Ok(())),
                Handled::Refused(e) => self.prepared(after, node, key, partial, Err(e)),
                _ => false,
            },
            Packet::Ready { node, index } => match h {
                Handled::Readied => self.readied(after, node, true),
                Handled::Refused(e) => e == DomainError::UnknownNode && self.readied(
                    after,
                    node,
                    false,
                ),
                _ => false,
            },
            Packet::Evict { tag, keys } => match path_with(paths, tag) {
                None => after == self && h.refuses(DomainError::UnknownReplay),
                Some(path) => h matches Handled::Evicted { known } && self.evictions(
                    after,
                    path.dst,
                    keys@,
                    known@,
                ),
            },
            Packet::StateSizeProbe { node } => after == self && match self.size_of(node) {
                Some(size) => h matches Handled::StateSize(n) && n == if size <= usize::MAX {
                    size
                } else {
                    usize::MAX as nat
                },
                None => h.refuses(DomainError::InvariantViolation),
            },
            _ => after == self && (h matches Handled::Left(left) && left == p),
        }
    }

    /// Whether fulfilling the request to replay `key` along `tag`, where the path starts
    /// and ends in this domain, leads from the domain `self` to the domain `after` and
    /// leaves `h`: the request is answered from the source of the path, as the packet
    /// `RequestPartialReplay` is, and where the source has the rows, they are taken in at
    /// the end of the path, as a packet `ReplayPiece` with these rows is. Where the source
    /// has a hole too, nothing changes, and the answer without rows is left.
    pub open spec fn fulfilled(
        self,
        after: Domain,
        paths: Seq<PathView>,
        tag: Tag,
        key: Vec<DataType>,
        now: u64,
        limit: usize,
        h: Handled,
    ) -> bool {
        match path_with(paths, tag) {
            None => after == self && h.refuses(DomainError::UnknownReplay),
            Some(path) => match path.source {
                None => after == self && h.refuses(DomainError::InvariantViolation),
                Some(source) => match self.served(source, path.columns, key.deep_view()) {
                    Err(e) => after == self && h.refuses(e),
                    Ok(None) => after == self && (h matches Handled::Piece { tag: t, key: k, rows }
                        && t == tag && k.deep_view() == key.deep_view() && rows.is_none()),
                    Ok(Some(rows)) => exists|p: Packet|
                        {
                            &&& #[trigger] self.handled(after, paths, p, now, limit, h)
                            &&& p matches Packet::ReplayPiece {
                                tag: t,
                                from,
                                to,
                                key: Some(k),
                                data,
                            }
                            &&& p->ReplayPiece_tag == tag
                            &&& p->ReplayPiece_from == source
                            &&& p->ReplayPiece_to == path.dst
                            &&& p->ReplayPiece_key.unwrap().deep_view() == key.deep_view()
                            &&& piece_rows(p->ReplayPiece_data.deep_view()) == Some(rows)
                        },
                },
            },
        }
    }

    /// Fulfils the request to replay `key` along `tag`, where the path starts and ends in
    /// this domain: the rows of the key are taken from the source of the path and taken in
    /// at its end; see [`Self::fulfilled`]. What [`Self::handle`] leaves of the piece is
    /// handed back: the next request to send, and the callers to wake.
    pub fn fulfil(
        &mut self,
        paths: &Vec<ReplayPath>,
        tag: Tag,
        key: Vec<DataType>,
        now: u64,
        limit: usize,
    ) -> (h: Handled)
        requires
            old(self).wf(),
        ensures
            final(self).wf(),
            old(self).fulfilled(*final(self), paths.deep_view(), tag, key, now, limit, h),
    {
        let (source, dst) = match find_path(paths, tag) {
            None => {
                return Handled::Refused(DomainError::UnknownReplay);
            },
            Some(path) => match path.source {
                None => {
                    return Handled::Refused(DomainError::InvariantViolation);
                },
                Some(source) => (source, path.dst),
            },
        };
        let copy = crate::data::clone_row(&key);
        match self.handle(paths, Packet::RequestPartialReplay { tag, key: copy }, now, limit) {
            Handled::Piece { tag: t, key: k, rows: Some(rows) } => {
                let p = Packet::ReplayPiece {
                    tag,
                    from: source,
                    to: dst,
                    key: Some(key),
                    data: piece_of(rows),
                };
                self.handle(paths, p, now, limit)
            },
            other => other,
        }
    }

    /// Carries out the packet `p` at the time `now`: a batch is delivered, writes are taken
    /// in, a replay is installed or answered, keys are evicted, a state is prepared or
    /// measured, a node is marked as ready. `paths` are the replay paths of the domain, and
    /// `limit` is the most deliveries that one packet may lead to. What is to be sent or
    /// answered is handed back.
    pub fn handle(&mut self, paths: &Vec<ReplayPath>, p: Packet, now: u64, limit: usize) -> (h:
        Handled)
        requires
            old(self).wf(),
        ensures
            final(self).wf(),
            old(self).handled(*final(self), paths.deep_view(), p, now, limit, h),
    {
        match p {
            Packet::Message { from, to, data } => {
                let (deliveries, error, requests) = self.message(paths, to, from, data, now, limit);
                Handled::Delivered { deliveries, error, requests }
            },
            Packet::Input { base, ops } => match self.write(paths, base, &ops, now, limit) {
                Ok(w) => Handled::Written(w),
                Err(e) => Handled::Refused(e),
            },
            Packet::ReplayPiece { tag, from, to, key: None, data } => {
                let (deliveries, error, requests) = self.message(paths, to, from, data, now, limit);
                Handled::Delivered { deliveries, error, requests }
            },
            Packet::ReplayPiece { tag, from, to, key: Some(key), data } => {
                match rows_of_piece(data) {
                    None => Handled::Refused(DomainError::InvariantViolation),
                    Some(rows) => {
                        let t: usize = to.id();
                        if t < self.nodes.len() && self.nodes[t].operator.is_reader() {
                            assert(self.node(to) == self.nodes@[t as int]);
                            match self.replay_into_reader(tag, to, &key, rows, now) {
                                Ok((next, woken)) => Handled::Filled { next, woken },
                                Err(e) => Handled::Refused(e),
                            }
                        } else {
                            assert(t < self.nodes@.len() ==> self.node(to) == self.nodes@[t as int]);
                            match self.install_replay(tag, to, &key, rows, now) {
                                Ok(next) => Handled::Filled { next, woken: Vec::new() },
                                Err(e) => Handled::Refused(e),
                            }
                        }
                    },
                }
            },
            Packet::RequestPartialReplay { tag, key } => match find_path(paths, tag) {
                None => Handled::Refused(DomainError::UnknownReplay),
                Some(path) => match path.source {
                    None => Handled::Refused(DomainError::InvariantViolation),
                    Some(source) => match self.serve(source, &path.columns, &key) {
                        Err(e) => Handled::Refused(e),
                        Ok(rows) => Handled::Piece { tag, key, rows },
                    },
                },
            },
            Packet::PrepareState { node, key, partial } => match self.prepare_state(
                node,
                key,
                partial,
            ) {
                Ok(()) => Handled::Prepared,
                Err(e) => Handled::Refused(e),
            },
            Packet::Ready { node, index } => {
                if self.mark_ready(node) {
                    Handled::Readied
                } else {
                    Handled::Refused(DomainError::UnknownNode)
                }
            },
            Packet::Evict { tag, keys } => match find_path(paths, tag) {
                None => Handled::Refused(DomainError::UnknownReplay),
                Some(path) => {
                    let known = self.evict_all(path.dst, &keys);
                    Handled::Evicted { known }
                },
            },
            Packet::StateSizeProbe { node } => match self.state_size(node) {
                Some(n) => Handled::StateSize(n),
                None => Handled::Refused(DomainError::InvariantViolation),
            },
            other => Handled::Left(other),
        }
    }

    /// Publishes what the reader `node` holds, as of the time `ts`; see
    /// [`crate::reader::Reader::publish`]. `None` where `node` is no reader of the domain
    /// that is ready.
    pub fn publish(&self, node: LocalNodeIndex, ts: i64) -> (h: Option<
        crate::getter::SingleReadHandle,
    >)
        requires
            self.wf(),
        ensures
            h.is_some() == (self.has(node) && self.node(node).operator is Reader && self.node(
                node,
            ).operator->Reader_0@.state.is_some()),
            h.is_some() ==> h.unwrap().ts == ts && h.unwrap().state.wf() && Some(
                h.unwrap().state@,
            ) == self.node(node).operator->Reader_0@.state,
    {
        let t: usize = node.id();
        if t >= self.nodes.len() {
            return None;
        }
        assert(self.node(node) == self.nodes@[t as int]);
        match &self.nodes[t].operator {
            NodeOperator::Reader(reader) => reader.publish(ts),
            _ => None,
        }
    }

    /// Whether the read that gave `r` has missed: its caller is parked, or is told that the
    /// key is missing.
    pub open spec fn has_missed(r: Option<crate::reader::ReadOutcome>) -> bool {
        r.is_some() && (r.unwrap() is Parked || (
        r.unwrap() matches crate::reader::ReadOutcome::Failed(e) && e
            == crate::reader::ReadError::Missing))
    }

    /// Whether `a` is what the miss of `w` leads to where the requests are `o`: nothing is
    /// sent where the replay is awaited; the request is sent where the ceiling leaves room
    /// for it; else it waits.
    pub open spec fn acted(
        o: crate::replay::Outstanding,
        w: crate::replay::Wanted,
        a: crate::replay::MissAction,
    ) -> bool {
        if o.awaits(w) {
            a is Suppressed
        } else if o.miss_requests(w) {
            a matches crate::replay::MissAction::Request(request) && request@ == w
        } else {
            a is Deferred
        }
    }

    /// Whether reading the rows under `key` from the reader `node` and asking for the
    /// replay that a miss wants, as [`Self::look`] does, leads from the domain `self` to the
    /// domain `after` and gives `r`: the read is made as [`Self::was_read`] says; where it
    /// has missed, and one of the paths `paths` fills the reader on its key columns, the
    /// miss is noted with the requests, as [`Self::noted`] says, at most one request being
    /// under way for the key; and nothing else changes.
    pub open spec fn looked(
        self,
        after: Domain,
        paths: Seq<PathView>,
        node: LocalNodeIndex,
        key: Vec<DataType>,
        block: bool,
        caller: u64,
        now: u64,
        r: (Option<crate::reader::ReadOutcome>, Option<crate::replay::MissAction>),
    ) -> bool {
        exists|between: Domain|
            {
                &&& #[trigger] Self::passes_through(between)
                &&& between.wf()
                &&& self.was_read(between, node, key, block, caller, r.0)
                &&& if Self::has_missed(r.0) {
                    match crate::replay::tag_of(
                        paths,
                        node,
                        between.node(node).operator->Reader_0.key_columns(),
                    ) {
                        None => r.1.is_none() && after == between,
                        Some(tag) => {
                            &&& r.1.is_some()
                            &&& between.noted(after, tag, key.deep_view(), now)
                            &&& Self::acted(
                                between.replay@,
                                crate::replay::Wanted { tag, key: key.deep_view() },
                                r.1.unwrap(),
                            )
                        },
                    }
                } else {
                    r.1.is_none() && after == between
                }
            }
    }

    /// Reads the rows under `key` from the reader `node`, for the caller `caller`, and,
    /// where the read misses, asks for the replay of the key along the path that fills the
    /// reader: the miss is noted with the requests of the domain at the time `now`. With
    /// the outcome of the read comes what the miss has led to: the request to send, or that
    /// none is sent because the replay of the key is awaited, or that the request waits.
    pub fn look(
        &mut self,
        paths: &Vec<ReplayPath>,
        node: LocalNodeIndex,
        key: &Vec<DataType>,
        block: bool,
        caller: u64,
        now: u64,
    ) -> (r: (Option<crate::reader::ReadOutcome>, Option<crate::replay::MissAction>))
        requires
            old(self).wf(),
        ensures
            final(self).wf(),
            old(self).looked(*final(self), paths.deep_view(), node, *key, block, caller, now, r),
    {
        let out = self.read(node, key, block, caller);
        let ghost between = *self;
        proof {
            assert(Self::passes_through(between));
        }
        let missed: bool = match &out {
            Some(crate::reader::ReadOutcome::Parked) => true,
            Some(crate::reader::ReadOutcome::Failed(e)) => match e {
                crate::reader::ReadError::Missing => true,
                _ => false,
            },
            _ => false,
        };
        if !missed {
            return (out, None);
        }
        let t: usize = node.id();
        assert(self.node(node) == self.nodes@[t as int]);
        let tag = match &self.nodes[t].operator {
            NodeOperator::Reader(reader) => crate::replay::find_tag(paths, node, reader.key()),
            _ => None,
        };
        match tag {
            None => (out, None),
            Some(tag) => {
                let action = self.replay.on_miss(tag, crate::data::clone_row(key), now);
                proof {
                    between.lemma_wf_same_models(*self);
                }
                (out, Some(action))
            },
        }
    }

    /// Whether a read of `key` at the reader `node` misses, and the replay along the path
    /// `tag` can fill the hole at once with the rows `rows`: the path ends at the reader
    /// and starts at another node of this domain, whose materialized output holds `rows`
    /// under the key; the rows belong under the key in the reader's state; and a miss of
    /// the key sends a request.
    pub open spec fn can_fill(
        self,
        paths: Seq<PathView>,
        tag: Tag,
        node: LocalNodeIndex,
        key: Row,
        rows: Seq<Row>,
    ) -> bool {
        &&& self.has(node)
        &&& self.node(node).operator is Reader
        &&& self.node(node).operator->Reader_0@.state.is_some()
        &&& self.node(node).operator->Reader_0@.state.unwrap().lookup(key).is_none()
        &&& self.node(node).operator->Reader_0@.state.unwrap().files_under(key, rows)
        &&& path_with(paths, tag).is_some()
        &&& path_with(paths, tag).unwrap().dst == node
        &&& path_with(paths, tag).unwrap().source.is_some()
        &&& path_with(paths, tag).unwrap().source.unwrap() != node
        &&& self.served(
            path_with(paths, tag).unwrap().source.unwrap(),
            path_with(paths, tag).unwrap().columns,
            key,
        ) == Ok::<Option<Seq<Row>>, DomainError>(Some(rows))
        &&& self.replay@.miss_requests(crate::replay::Wanted { tag, key })
    }

    /// Whether `after` is the domain `self` with the miss of `key` along `tag` noted at the
    /// time `now`, and nothing else changed.
    pub open spec fn noted(self, after: Domain, tag: Tag, key: Row, now: u64) -> bool {
        &&& after.nodes == self.nodes
        &&& after.states == self.states
        &&& after.accumulators == self.accumulators
        &&& after.index == self.index
        &&& after.shard == self.shard
        &&& after.replay@ == self.replay@.miss(crate::replay::Wanted { tag, key }, now)
    }

    /// A replay fills the reader: where a blocking read of a hole has parked its caller,
    /// the miss was noted and the request fulfilled, the caller is woken, and the reader
    /// holds under the key the rows that the source of the path holds under it.
    pub proof fn lemma_filled_after_replay(
        self,
        parked: Domain,
        asked: Domain,
        filled: Domain,
        paths: Seq<PathView>,
        tag: Tag,
        node: LocalNodeIndex,
        key: Vec<DataType>,
        rows: Seq<Row>,
        caller: u64,
        first: Option<crate::reader::ReadOutcome>,
        now: u64,
        later: u64,
        limit: usize,
        h: Handled,
    )
        requires
            self.can_fill(paths, tag, node, key.deep_view(), rows),
            self.was_read(parked, node, key, true, caller, first),
            parked.noted(asked, tag, key.deep_view(), now),
            asked.fulfilled(filled, paths, tag, key, later, limit, h),
        ensures
            first.is_some() && first.unwrap() is Parked,
            h matches Handled::Filled { next, woken } && woken@.len() > 0 && woken@.last()
                == caller,
            filled.node(node).operator is Reader,
            filled.node(node).operator->Reader_0@.state == Some(
                self.node(node).operator->Reader_0@.state.unwrap().install(key.deep_view(), rows),
            ),
    {
        let k = key.deep_view();
        let w = crate::replay::Wanted { tag, key: k };
        let path = path_with(paths, tag).unwrap();
        let source = path.source.unwrap();
        let m = self.node(node).operator->Reader_0@.state.unwrap();
        // the source is as it was
        assert(parked.node(source) == self.node(source));
        assert(asked.node(source) == parked.node(source));
        assert(asked.served(source, path.columns, k) == self.served(source, path.columns, k));
        // the request is under way
        let before = parked.replay@;
        assert(before == self.replay@);
        assert(asked.replay@.in_flight == before.in_flight.push((w, now)));
        assert(asked.replay@.in_flight[before.in_flight.len() as int].0 == w);
        assert(asked.replay@.flying(w));
        // the reader is as the read has left it
        assert(asked.node(node) == parked.node(node));
        assert(asked.node(node).operator->Reader_0@.state == Some(m));
        let p = choose|p: Packet|
            {
                &&& #[trigger] asked.handled(filled, paths, p, later, limit, h)
                &&& p is ReplayPiece
                &&& p->ReplayPiece_tag == tag
                &&& p->ReplayPiece_from == source
                &&& p->ReplayPiece_to == node
                &&& p->ReplayPiece_key.is_some()
                &&& p->ReplayPiece_key.unwrap().deep_view() == k
                &&& piece_rows(p->ReplayPiece_data.deep_view()) == Some(rows)
            };
        assert(asked.handled(filled, paths, p, later, limit, h));
        let sent = p->ReplayPiece_key.unwrap();
        match h {
            Handled::Filled { next, woken } => {
                let given = choose|given: Vec<Vec<DataType>>|
                    given.deep_view() == rows && #[trigger] asked.replayed(
                        filled,
                        tag,
                        node,
                        sent,
                        given,
                        later,
                        Ok((next, woken)),
                    );
                assert(asked.replayed(filled, tag, node, sent, given, later, Ok((next, woken))));
                let waiters = self.node(node).operator->Reader_0@.waiters;
                assert(asked.node(node).operator->Reader_0@.waiters == waiters.push((k, caller)));
                assert(waiters.push((k, caller)).drop_last() =~= waiters);
                assert(woken@ == crate::reader::callers_for(waiters.push((k, caller)), k));
            },
            Handled::Refused(e) => {
                let given = choose|given: Vec<Vec<DataType>>|
                    given.deep_view() == rows && #[trigger] asked.replayed(
                        filled,
                        tag,
                        node,
                        sent,
                        given,
                        later,
                        Err(e),
                    );
                assert(asked.replayed(filled, tag, node, sent, given, later, Err(e)));
                assert(false);
            },
            _ => {
                assert(false);
            },
        }
        let installed = m.install(k, rows);
        assert(installed.lookup(k) == Some(rows));
    }

    /// A blocking read of a hole is complete: the read parks its caller; when the miss is
    /// noted and the request fulfilled, the reader is filled with the rows that the source
    /// of the path holds under the key; and a read of the key after that, whether it blocks
    /// or not, gives exactly these rows.
    pub proof fn lemma_read_after_replay(
        self,
        parked: Domain,
        asked: Domain,
        filled: Domain,
        after: Domain,
        paths: Seq<PathView>,
        tag: Tag,
        node: LocalNodeIndex,
        key: Vec<DataType>,
        rows: Seq<Row>,
        caller: u64,
        first: Option<crate::reader::ReadOutcome>,
        now: u64,
        later: u64,
        limit: usize,
        h: Handled,
        block: bool,
        again: u64,
        second: Option<crate::reader::ReadOutcome>,
    )
        requires
            self.can_fill(paths, tag, node, key.deep_view(), rows),
            self.was_read(parked, node, key, true, caller, first),
            parked.noted(asked, tag, key.deep_view(), now),
            asked.fulfilled(filled, paths, tag, key, later, limit, h),
            filled.was_read(after, node, key, block, again, second),
        ensures
            first.is_some() && first.unwrap() is Parked,
            h matches Handled::Filled { next, woken } && woken@.len() > 0 && woken@.last()
                == caller,
            filled.node(node).operator is Reader,
            filled.node(node).operator->Reader_0@.state == Some(
                self.node(node).operator->Reader_0@.state.unwrap().install(key.deep_view(), rows),
            ),
            second.is_some() && (second.unwrap() matches crate::reader::ReadOutcome::Rows(found)
                && found.deep_view() == rows),
    {
        let k = key.deep_view();
        let w = crate::replay::Wanted { tag, key: k };
        let path = path_with(paths, tag).unwrap();
        let source = path.source.unwrap();
        let m = self.node(node).operator->Reader_0@.state.unwrap();
        // the source is as it was
        assert(parked.node(source) == self.node(source));
        assert(asked.node(source) == parked.node(source));
        assert(asked.served(source, path.columns, k) == self.served(source, path.columns, k));
        // the request is under way
        let before = parked.replay@;
        assert(before == self.replay@);
        assert(asked.replay@.in_flight == before.in_flight.push((w, now)));
        assert(asked.replay@.in_flight[before.in_flight.len() as int].0 == w);
        assert(asked.replay@.flying(w));
        // the reader is as the read has left it
        assert(asked.node(node) == parked.node(node));
        assert(asked.node(node).operator->Reader_0@.state == Some(m));
        let p = choose|p: Packet|
            {
                &&& #[trigger] asked.handled(filled, paths, p, later, limit, h)
                &&& p is ReplayPiece
                &&& p->ReplayPiece_tag == tag
                &&& p->ReplayPiece_from == source
                &&& p->ReplayPiece_to == node
                &&& p->ReplayPiece_key.is_some()
                &&& p->ReplayPiece_key.unwrap().deep_view() == k
                &&& piece_rows(p->ReplayPiece_data.deep_view()) == Some(rows)
            };
        assert(asked.handled(filled, paths, p, later, limit, h));
        let sent = p->ReplayPiece_key.unwrap();
        match h {
            Handled::Filled { next, woken } => {
                let given = choose|given: Vec<Vec<DataType>>|
                    given.deep_view() == rows && #[trigger] asked.replayed(
                        filled,
                        tag,
                        node,
                        sent,
                        given,
                        later,
                        Ok((next, woken)),
                    );
                assert(asked.replayed(filled, tag, node, sent, given, later, Ok((next, woken))));
                let waiters = self.node(node).operator->Reader_0@.waiters;
                assert(asked.node(node).operator->Reader_0@.waiters == waiters.push((k, caller)));
                assert(waiters.push((k, caller)).drop_last() =~= waiters);
                assert(woken@ == crate::reader::callers_for(waiters.push((k, caller)), k));
            },
            Handled::Refused(e) => {
                let given = choose|given: Vec<Vec<DataType>>|
                    given.deep_view() == rows && #[trigger] asked.replayed(
                        filled,
                        tag,
                        node,
                        sent,
                        given,
                        later,
                        Err(e),
                    );
                assert(asked.replayed(filled, tag, node, sent, given, later, Err(e)));
                assert(false);
            },
            _ => {
                assert(false);
            },
        }
        let installed = m.install(k, rows);
        assert(installed.lookup(k) == Some(rows));
    }

    /// Eviction is sound: where a reader holds under a key what the source of its replay
    /// path holds, and the key is evicted, the next read of the key is a miss that parks
    /// its caller, and when the replay has been made, a read gives the rows that the key
    /// had before.
    pub proof fn lemma_read_after_eviction(
        self,
        evicted: Domain,
        parked: Domain,
        asked: Domain,
        filled: Domain,
        after: Domain,
        paths: Seq<PathView>,
        tag: Tag,
        node: LocalNodeIndex,
        key: Vec<DataType>,
        rows: Seq<Row>,
        known: bool,
        caller: u64,
        first: Option<crate::reader::ReadOutcome>,
        now: u64,
        later: u64,
        limit: usize,
        h: Handled,
        block: bool,
        again: u64,
        second: Option<crate::reader::ReadOutcome>,
    )
        requires
            self.wf(),
            self.has(node),
            self.node(node).operator is Reader,
            self.node(node).operator->Reader_0@.state.is_some(),
            self.node(node).operator->Reader_0@.state.unwrap().partial,
            self.node(node).operator->Reader_0@.state.unwrap().lookup(key.deep_view()) == Some(rows),
            self.node(node).operator->Reader_0@.state.unwrap().files_under(key.deep_view(), rows),
            path_with(paths, tag).is_some(),
            path_with(paths, tag).unwrap().dst == node,
            path_with(paths, tag).unwrap().source.is_some(),
            path_with(paths, tag).unwrap().source.unwrap() != node,
            self.served(
                path_with(paths, tag).unwrap().source.unwrap(),
                path_with(paths, tag).unwrap().columns,
                key.deep_view(),
            ) == Ok::<Option<Seq<Row>>, DomainError>(Some(rows)),
            self.replay@.miss_requests(crate::replay::Wanted { tag, key: key.deep_view() }),
            self.evicted(evicted, node, key, known),
            evicted.was_read(parked, node, key, true, caller, first),
            parked.noted(asked, tag, key.deep_view(), now),
            asked.fulfilled(filled, paths, tag, key, later, limit, h),
            filled.was_read(after, node, key, block, again, second),
        ensures
            known,
            first.is_some() && first.unwrap() is Parked,
            h is Filled,
            second.is_some() && (second.unwrap() matches crate::reader::ReadOutcome::Rows(found)
                && found.deep_view() == rows),
    {
        let k = key.deep_view();
        let path = path_with(paths, tag).unwrap();
        let source = path.source.unwrap();
        assert(evicted.node(source) == self.node(source));
        assert(evicted.states.model(source) == self.states.model(source));
        assert(evicted.served(source, path.columns, k) == self.served(source, path.columns, k));
        let m = self.node(node).operator->Reader_0@.state.unwrap();
        assert(m.evict(k).lookup(k).is_none());
        assert(m.evict(k).files_under(k, rows));
        assert(evicted.can_fill(paths, tag, node, k, rows));
        evicted.lemma_read_after_replay(
            parked,
            asked,
            filled,
            after,
            paths,
            tag,
            node,
            key,
            rows,
            caller,
            first,
            now,
            later,
            limit,
            h,
            block,
            again,
            second,
        );
    }

    /// A lookup from outside the domain sees the replay: where a blocking read of a hole has
    /// parked, the miss was noted and the request fulfilled, as in
    /// [`Self::lemma_read_after_replay`], and the reader, which is not sharded, has
    /// published its state after that, a lookup of the key in what it has published finds
    /// exactly the rows that the source of the path holds under the key.
    pub proof fn lemma_lookup_after_replay(
        self,
        parked: Domain,
        asked: Domain,
        filled: Domain,
        paths: Seq<PathView>,
        tag: Tag,
        node: LocalNodeIndex,
        q: DataType,
        key: Vec<DataType>,
        rows: Seq<Row>,
        caller: u64,
        first: Option<crate::reader::ReadOutcome>,
        now: u64,
        later: u64,
        limit: usize,
        h: Handled,
        handle: crate::getter::ReadHandle,
    )
        requires
            key.deep_view() == seq![q@],
            self.can_fill(paths, tag, node, key.deep_view(), rows),
            self.was_read(parked, node, key, true, caller, first),
            parked.noted(asked, tag, key.deep_view(), now),
            asked.fulfilled(filled, paths, tag, key, later, limit, h),
            handle.shards@.len() == 1,
            handle.shards@[0].is_some(),
            Some(handle.shards@[0].unwrap().state@) == filled.node(node).operator->Reader_0@.state,
        ensures
            handle.find(q@) == crate::getter::Found::Rows(rows, handle.shards@[0].unwrap().ts),
    {
        // what the reader holds after the replay
        let k = key.deep_view();
        let m = self.node(node).operator->Reader_0@.state.unwrap();
        self.lemma_filled_after_replay(
            parked,
            asked,
            filled,
            paths,
            tag,
            node,
            key,
            rows,
            caller,
            first,
            now,
            later,
            limit,
            h,
        );
        assert(m.install(k, rows).lookup(k) == Some(rows));
        crate::getter::lemma_reads_what_is_published(handle, q@);
    }

    /// A lookup from outside the domain sees an eviction as a miss, and never as a key
    /// without rows: where the reader held rows under a key, the key was evicted, and the
    /// reader, which is not sharded, has published its state after that, a lookup of the
    /// key in what it has published misses.
    pub proof fn lemma_lookup_after_eviction(
        self,
        evicted: Domain,
        node: LocalNodeIndex,
        q: DataType,
        key: Vec<DataType>,
        known: bool,
        handle: crate::getter::ReadHandle,
    )
        requires
            key.deep_view() == seq![q@],
            self.has(node),
            self.node(node).operator is Reader,
            self.node(node).operator->Reader_0@.state.is_some(),
            self.node(node).operator->Reader_0@.state.unwrap().partial,
            self.evicted(evicted, node, key, known),
            handle.shards@.len() == 1,
            handle.shards@[0].is_some(),
            Some(handle.shards@[0].unwrap().state@) == evicted.node(node).operator->Reader_0@.state,
        ensures
            handle.find(q@) == crate::getter::Found::Miss(handle.shards@[0].unwrap().ts),
    {
        let k = key.deep_view();
        let m = self.node(node).operator->Reader_0@.state.unwrap();
        assert(m.evict(k).lookup(k).is_none());
        crate::getter::lemma_reads_what_is_published(handle, q@);
    }

    /// At most one request is sent for a key, however often it is read while its replay is
    /// awaited: where a read of a hole has asked for the replay of the key, a read of the
    /// same key that misses after it, by whatever caller, asks for nothing.
    pub proof fn lemma_looks_ask_once(
        self,
        once: Domain,
        twice: Domain,
        paths: Seq<PathView>,
        node: LocalNodeIndex,
        key: Vec<DataType>,
        block: bool,
        caller: u64,
        now: u64,
        first: (Option<crate::reader::ReadOutcome>, Option<crate::replay::MissAction>),
        again: bool,
        other: u64,
        later: u64,
        second: (Option<crate::reader::ReadOutcome>, Option<crate::replay::MissAction>),
    )
        requires
            self.looked(once, paths, node, key, block, caller, now, first),
            first.1.is_some(),
            once.looked(twice, paths, node, key, again, other, later, second),
        ensures
            Self::has_missed(second.0),
            second.1.is_some() && second.1.unwrap() is Suppressed,
            twice.replay@ == once.replay@,
    {
        let k = key.deep_view();
        let a = choose|a: Domain|
            {
                &&& #[trigger] Self::passes_through(a)
                &&& a.wf()
                &&& self.was_read(a, node, key, block, caller, first.0)
                &&& if Self::has_missed(first.0) {
                    match crate::replay::tag_of(
                        paths,
                        node,
                        a.node(node).operator->Reader_0.key_columns(),
                    ) {
                        None => first.1.is_none() && once == a,
                        Some(tag) => {
                            &&& first.1.is_some()
                            &&& a.noted(once, tag, k, now)
                            &&& Self::acted(
                                a.replay@,
                                crate::replay::Wanted { tag, key: k },
                                first.1.unwrap(),
                            )
                        },
                    }
                } else {
                    first.1.is_none() && once == a
                }
            };
        let b = choose|b: Domain|
            {
                &&& #[trigger] Self::passes_through(b)
                &&& b.wf()
                &&& once.was_read(b, node, key, again, other, second.0)
                &&& if Self::has_missed(second.0) {
                    match crate::replay::tag_of(
                        paths,
                        node,
                        b.node(node).operator->Reader_0.key_columns(),
                    ) {
                        None => second.1.is_none() && twice == b,
                        Some(tag) => {
                            &&& second.1.is_some()
                            &&& b.noted(twice, tag, k, later)
                            &&& Self::acted(
                                b.replay@,
                                crate::replay::Wanted { tag, key: k },
                                second.1.unwrap(),
                            )
                        },
                    }
                } else {
                    second.1.is_none() && twice == b
                }
            };
        let columns = a.node(node).operator->Reader_0.key_columns();
        let tag = crate::replay::tag_of(paths, node, columns).unwrap();
        let w = crate::replay::Wanted { tag, key: k };
        // the reader is as it was, but for those who wait
        assert(once.node(node) == a.node(node));
        assert(b.node(node).operator->Reader_0.key_columns() == columns);
        assert(once.node(node).operator->Reader_0@.state == self.node(node).operator->Reader_0@.state);
        // the replay of the key is awaited
        let held = a.replay@;
        assert(once.replay@ == held.miss(w, now));
        assert(once.replay@.awaits(w)) by {
            if held.awaits(w) {
            } else if held.in_flight.len() < held.ceiling {
                assert(once.replay@.in_flight[held.in_flight.len() as int].0 == w);
            } else {
                assert(once.replay@.queued[held.queued.len() as int] == w);
            }
        }
        assert(b.replay@ == once.replay@);
    }
}

} // verus!
