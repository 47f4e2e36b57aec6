//! The requests for the replay of missing keys: at most one is under way for any key of any
//! replay path, and no more than a ceiling at a time.

use crate::addressing::{LocalNodeIndex, Tag};
use crate::data::{clone_row, rows_equal, DataType, Row};
use crate::processing::{Miss, MissView};
use crate::state::Materialized;
use vstd::prelude::*;

verus! {

/// A key of a replay path: what a replay is asked for.
pub struct Wanted {
    /// The replay path.
    pub tag: Tag,
    /// The key.
    pub key: Row,
}

/// Where a key of a replay path stands.
#[derive(Clone, Copy, Debug, PartialEq, Eq, Structural)]
pub enum KeyState {
    /// The key is a hole and no replay has been asked for.
    Idle,
    /// A replay has been asked for and has not arrived.
    Requested,
    /// The key is filled.
    Filled,
}

/// The request to replay one key along a replay path.
#[derive(Debug)]
pub struct RequestPartialReplay {
    /// The replay path.
    pub tag: Tag,
    /// The key to replay.
    pub key: Vec<DataType>,
}

impl View for RequestPartialReplay {
    type V = Wanted;

    open spec fn view(&self) -> Wanted {
        Wanted { tag: self.tag, key: self.key.deep_view() }
    }
}

/// What a miss leads to.
#[derive(Debug)]
pub enum MissAction {
    /// The request is to be sent towards the trigger domain of the path.
    Request(RequestPartialReplay),
    /// A request for this key is under way or waiting already: nothing is sent.
    Suppressed,
    /// As many replays as the ceiling allows are under way: the request waits.
    Deferred,
}

/// What went wrong with a replay.
#[derive(Clone, Copy, Debug, PartialEq, Eq, Structural)]
pub enum ReplayError {
    /// A replay arrived that nobody had asked for.
    UnknownReplay,
    /// A replay has been under way for longer than the timeout.
    Timeout,
    /// A state missed a key, and no replay path fills that state.
    NoPath,
}

/// The model of the requests of one domain.
pub struct Outstanding {
    /// How many replays may be under way at a time.
    pub ceiling: nat,
    /// What is under way, oldest first, each with the time at which it was asked for.
    pub in_flight: Seq<(Wanted, u64)>,
    /// What waits for a replay to arrive, oldest first.
    pub queued: Seq<Wanted>,
}

impl Outstanding {
    /// Whether a replay of `w` is under way.
    pub open spec fn flying(self, w: Wanted) -> bool {
        exists|i: int| 0 <= i < self.in_flight.len() && (#[trigger] self.in_flight[i]).0 == w
    }

    /// Whether a replay of `w` has been asked for and has not arrived.
    pub open spec fn awaits(self, w: Wanted) -> bool {
        self.flying(w) || self.queued.contains(w)
    }

    /// Nothing is asked for twice, no more is under way than the ceiling allows, and nothing
    /// waits while the ceiling is not reached.
    pub open spec fn wf(self) -> bool {
        &&& forall|i: int, j: int|
            0 <= i < j < self.in_flight.len() ==> (#[trigger] self.in_flight[i]).0 != (
            #[trigger] self.in_flight[j]).0
        &&& self.queued.no_duplicates()
        &&& forall|i: int, j: int|
            0 <= i < self.in_flight.len() && 0 <= j < self.queued.len() ==> (
            #[trigger] self.in_flight[i]).0 != #[trigger] self.queued[j]
        &&& self.in_flight.len() <= self.ceiling
        &&& self.queued.len() > 0 ==> self.in_flight.len() == self.ceiling
    }

    /// The requests after a miss of `w` at the time `now`.
    pub open spec fn miss(self, w: Wanted, now: u64) -> Outstanding {
        if self.awaits(w) {
            self
        } else if self.in_flight.len() < self.ceiling {
            Outstanding { in_flight: self.in_flight.push((w, now)), ..self }
        } else {
            Outstanding { queued: self.queued.push(w), ..self }
        }
    }

    /// Whether a miss of `w` sends a request.
    pub open spec fn miss_requests(self, w: Wanted) -> bool {
        !self.awaits(w) && self.in_flight.len() < self.ceiling
    }

    /// The position of `w` among the replays under way.
    pub open spec fn position(self, w: Wanted) -> int {
        choose|i: int| 0 <= i < self.in_flight.len() && (#[trigger] self.in_flight[i]).0 == w
    }

    /// The requests after the replay of `w` has arrived at the time `now`: it is no longer
    /// under way, and the request that has waited longest takes its place.
    pub open spec fn arrive(self, w: Wanted, now: u64) -> Outstanding {
        if !self.flying(w) {
            self
        } else if self.queued.len() > 0 {
            Outstanding {
                in_flight: self.in_flight.remove(self.position(w)).push((self.queued[0], now)),
                queued: self.queued.skip(1),
                ..self
            }
        } else {
            Outstanding { in_flight: self.in_flight.remove(self.position(w)), ..self }
        }
    }

    /// The requests after the misses `ws`, one after the other, all at the time `now`.
    pub open spec fn misses(self, ws: Seq<Wanted>, now: u64) -> Outstanding
        decreases ws.len(),
    {
        if ws.len() == 0 {
            self
        } else {
            self.misses(ws.drop_last(), now).miss(ws.last(), now)
        }
    }

    /// The requests that the misses `ws` send, in order.
    pub open spec fn requested(self, ws: Seq<Wanted>, now: u64) -> Seq<Wanted>
        decreases ws.len(),
    {
        if ws.len() == 0 {
            Seq::empty()
        } else if self.misses(ws.drop_last(), now).miss_requests(ws.last()) {
            self.requested(ws.drop_last(), now).push(ws.last())
        } else {
            self.requested(ws.drop_last(), now)
        }
    }

    /// A miss keeps the requests sound, and what it asked for is awaited afterwards.
    pub proof fn lemma_miss_wf(self, w: Wanted, now: u64)
        requires
            self.wf(),
        ensures
            self.miss(w, now).wf(),
            self.ceiling > 0 ==> self.miss(w, now).awaits(w),
            forall|v: Wanted| self.awaits(v) ==> self.miss(w, now).awaits(v),
            forall|v: Wanted| self.miss(w, now).awaits(v) ==> self.awaits(v) || v == w,
            self.miss_requests(w) ==> self.miss(w, now).flying(w),
    {
        let after = self.miss(w, now);
        if !self.awaits(w) {
            if self.in_flight.len() < self.ceiling {
                assert(after.in_flight[self.in_flight.len() as int].0 == w);
                assert forall|i: int, j: int|
                    0 <= i < j < after.in_flight.len() implies (#[trigger] after.in_flight[i]).0
                    != (#[trigger] after.in_flight[j]).0 by {
                    if j == self.in_flight.len() {
                        assert(self.in_flight[i].0 != w);
                    }
                }
                assert forall|v: Wanted| self.awaits(v) implies after.awaits(v) by {
                    if self.flying(v) {
                        let i = choose|i: int|
                            0 <= i < self.in_flight.len() && (#[trigger] self.in_flight[i]).0 == v;
                        assert(after.in_flight[i].0 == v);
                    }
                }
                assert forall|v: Wanted| after.awaits(v) implies self.awaits(v) || v == w by {
                    if after.flying(v) {
                        let i = choose|i: int|
                            0 <= i < after.in_flight.len() && (#[trigger] after.in_flight[i]).0
                                == v;
                        if i < self.in_flight.len() {
                            assert(self.in_flight[i].0 == v);
                        }
                    }
                }
            } else {
                assert(after.queued[self.queued.len() as int] == w);
                assert forall|i: int, j: int|
                    0 <= i < after.in_flight.len() && 0 <= j < after.queued.len() implies (
                #[trigger] after.in_flight[i]).0 != #[trigger] after.queued[j] by {
                    if j == self.queued.len() {
                        assert(self.in_flight[i].0 != w);
                    }
                }
                assert forall|v: Wanted| self.awaits(v) implies after.awaits(v) by {
                    if self.queued.contains(v) {
                        let i = choose|i: int| 0 <= i < self.queued.len() && self.queued[i] == v;
                        assert(after.queued[i] == v);
                    } else {
                        let i = choose|i: int|
                            0 <= i < self.in_flight.len() && (#[trigger] self.in_flight[i]).0 == v;
                        assert(after.in_flight[i].0 == v);
                    }
                }
                assert forall|v: Wanted| after.awaits(v) implies self.awaits(v) || v == w by {
                    if after.queued.contains(v) {
                        let i = choose|i: int| 0 <= i < after.queued.len() && after.queued[i] == v;
                        if i < self.queued.len() {
                            assert(self.queued[i] == v);
                        }
                    }
                }
            }
        }
    }

    /// Misses keep the requests sound.
    pub proof fn lemma_misses_wf(self, ws: Seq<Wanted>, now: u64)
        requires
            self.wf(),
        ensures
            self.misses(ws, now).wf(),
            forall|v: Wanted| self.awaits(v) ==> self.misses(ws, now).awaits(v),
        decreases ws.len(),
    {
        if ws.len() > 0 {
            self.lemma_misses_wf(ws.drop_last(), now);
            self.misses(ws.drop_last(), now).lemma_miss_wf(ws.last(), now);
        }
    }

    /// However many misses there are, and of whatever keys, while no replay arrives: no
    /// request is sent twice, none is sent for what was awaited already, and what a request
    /// was sent for is under way afterwards.
    pub proof fn lemma_at_most_one_request(self, ws: Seq<Wanted>, now: u64)
        requires
            self.wf(),
        ensures
            self.requested(ws, now).no_duplicates(),
            forall|i: int|
                0 <= i < self.requested(ws, now).len() ==> !self.awaits(
                    #[trigger] self.requested(ws, now)[i],
                ) && self.misses(ws, now).flying(self.requested(ws, now)[i]),
        decreases ws.len(),
    {
        if ws.len() > 0 {
            let init = ws.drop_last();
            let w = ws.last();
            self.lemma_at_most_one_request(init, now);
            self.lemma_misses_wf(init, now);
            let mid = self.misses(init, now);
            mid.lemma_miss_wf(w, now);
            let sent = self.requested(init, now);
            let all = self.requested(ws, now);
            assert forall|i: int| 0 <= i < all.len() implies !self.awaits(#[trigger] all[i])
                && self.misses(ws, now).flying(all[i]) by {
                if i < sent.len() {
                    assert(all[i] == sent[i]);
                    assert(mid.flying(sent[i]));
                    assert(mid.awaits(sent[i]));
                    assert(mid.miss(w, now).awaits(sent[i]));
                    // what is under way stays under way
                    let p = choose|p: int|
                        0 <= p < mid.in_flight.len() && (#[trigger] mid.in_flight[p]).0 == sent[i];
                    assert(mid.miss(w, now).in_flight[p].0 == sent[i]);
                }
            }
            if mid.miss_requests(w) {
                assert forall|i: int, j: int| 0 <= i < all.len() && 0 <= j < all.len() && i
                    != j implies all[i] != all[j] by {
                    if i < sent.len() && j < sent.len() {
                        assert(sent[i] != sent[j]);
                    } else if i < sent.len() {
                        assert(mid.awaits(sent[i]));
                    } else {
                        assert(mid.awaits(sent[j]));
                    }
                }
            }
        }
    }
}

/// One request that is under way.
#[derive(Debug)]
pub struct InFlight {
    tag: Tag,
    key: Vec<DataType>,
    since: u64,
}

/// The requests of one domain for the replay of missing keys.
#[derive(Debug)]
pub struct ReplayEngine {
    max_concurrent: usize,
    in_flight: Vec<InFlight>,
    queued: Vec<RequestPartialReplay>,
}

impl ReplayEngine {
    /// The model of the requests.
    pub closed spec fn view(self) -> Outstanding {
        Outstanding {
            ceiling: self.max_concurrent as nat,
            in_flight: Seq::new(
                self.in_flight@.len(),
                |i: int|
                    (
                        Wanted {
                            tag: self.in_flight@[i].tag,
                            key: self.in_flight@[i].key.deep_view(),
                        },
                        self.in_flight@[i].since,
                    ),
            ),
            queued: Seq::new(self.queued@.len(), |i: int| self.queued@[i]@),
        }
    }

    /// The requests are sound.
    pub open spec fn wf(self) -> bool {
        self@.wf()
    }

    /// No requests, and the ceiling `max_concurrent`.
    pub fn new(max_concurrent: usize) -> (e: ReplayEngine)
        ensures
            e.wf(),
            e@.ceiling == max_concurrent,
            e@.in_flight.len() == 0,
            e@.queued.len() == 0,
    {
        ReplayEngine { max_concurrent, in_flight: Vec::new(), queued: Vec::new() }
    }

    /// The most replays that may be under way at a time.
    pub fn max_concurrent_replays(&self) -> (n: usize)
        ensures
            n == self@.ceiling,
    {
        self.max_concurrent
    }

    /// How many replays are under way.
    pub fn under_way(&self) -> (n: usize)
        ensures
            n == self@.in_flight.len(),
    {
        self.in_flight.len()
    }

    /// How many requests wait.
    pub fn waiting(&self) -> (n: usize)
        ensures
            n == self@.queued.len(),
    {
        self.queued.len()
    }

    fn find_flying(&self, tag: Tag, key: &Vec<DataType>) -> (p: Option<usize>)
        ensures
            p.is_some() == self@.flying(Wanted { tag, key: key.deep_view() }),
            p.is_some() ==> p.unwrap() < self@.in_flight.len() && self@.in_flight[p.unwrap() as int].0
                == (Wanted { tag, key: key.deep_view() }),
    {
        let ghost w = Wanted { tag, key: key.deep_view() };
        let mut i: usize = 0;
        while i < self.in_flight.len()
            invariant
                i <= self.in_flight@.len(),
                w == (Wanted { tag, key: key.deep_view() }),
                forall|j: int| 0 <= j < i ==> (#[trigger] self@.in_flight[j]).0 != w,
            decreases self.in_flight@.len() - i,
        {
            if self.in_flight[i].tag == tag && rows_equal(&self.in_flight[i].key, key) {
                assert(self@.in_flight[i as int].0 == w);
                return Some(i);
            }
            i += 1;
        }
        None
    }

    fn find_queued(&self, tag: Tag, key: &Vec<DataType>) -> (p: Option<usize>)
        ensures
            p.is_some() == self@.queued.contains(Wanted { tag, key: key.deep_view() }),
    {
        let ghost w = Wanted { tag, key: key.deep_view() };
        let mut i: usize = 0;
        while i < self.queued.len()
            invariant
                i <= self.queued@.len(),
                w == (Wanted { tag, key: key.deep_view() }),
                forall|j: int| 0 <= j < i ==> (#[trigger] self@.queued[j]) != w,
            decreases self.queued@.len() - i,
        {
            if self.queued[i].tag == tag && rows_equal(&self.queued[i].key, key) {
                assert(self@.queued[i as int] == w);
                return Some(i);
            }
            i += 1;
        }
        None
    }

    /// Whether a replay of the key is under way.
    pub fn is_under_way(&self, tag: Tag, key: &Vec<DataType>) -> (b: bool)
        ensures
            b == self@.flying(Wanted { tag, key: key.deep_view() }),
    {
        self.find_flying(tag, key).is_some()
    }

    /// Whether a replay of the key has been asked for and has not arrived.
    pub fn is_pending(&self, tag: Tag, key: &Vec<DataType>) -> (b: bool)
        ensures
            b == self@.awaits(Wanted { tag, key: key.deep_view() }),
    {
        self.find_flying(tag, key).is_some() || self.find_queued(tag, key).is_some()
    }

    /// Where the key stands, given whether the state at the end of the path knows it.
    pub fn state_of(&self, tag: Tag, key: &Vec<DataType>, filled: bool) -> (s: KeyState)
        ensures
            s == if filled {
                KeyState::Filled
            } else if self@.awaits(Wanted { tag, key: key.deep_view() }) {
                KeyState::Requested
            } else {
                KeyState::Idle
            },
    {
        if filled {
            KeyState::Filled
        } else if self.is_pending(tag, key) {
            KeyState::Requested
        } else {
            KeyState::Idle
        }
    }

    /// Takes note of a miss of `key` on the path `tag` at the time `now`. Where no replay of
    /// the key is awaited, one is asked for: the request is handed back to be sent, or
    /// waits if the ceiling is reached. Where one is awaited nothing is sent.
    pub fn on_miss(&mut self, tag: Tag, key: Vec<DataType>, now: u64) -> (a: MissAction)
        requires
            old(self).wf(),
        ensures
            final(self).wf(),
            final(self)@ == old(self)@.miss(Wanted { tag, key: key.deep_view() }, now),
            old(self)@.awaits(Wanted { tag, key: key.deep_view() }) ==> a is Suppressed,
            old(self)@.miss_requests(Wanted { tag, key: key.deep_view() }) ==> (a matches MissAction::Request(
                r,
            ) && r@ == (Wanted { tag, key: key.deep_view() })),
            !old(self)@.awaits(Wanted { tag, key: key.deep_view() }) && !old(self)@.miss_requests(
                Wanted { tag, key: key.deep_view() },
            ) ==> a is Deferred,
    {
        let ghost w = Wanted { tag, key: key.deep_view() };
        proof {
            self@.lemma_miss_wf(w, now);
        }
        if self.is_pending(tag, &key) {
            MissAction::Suppressed
        } else if self.in_flight.len() < self.max_concurrent {
            let ghost before = self@;
            let request = RequestPartialReplay { tag, key: clone_row(&key) };
            self.in_flight.push(InFlight { tag, key, since: now });
            assert(self@.in_flight =~= before.in_flight.push((w, now)));
            assert(self@.queued =~= before.queued);
            MissAction::Request(request)
        } else {
            let ghost before = self@;
            self.queued.push(RequestPartialReplay { tag, key });
            assert(self@.queued =~= before.queued.push(w));
            assert(self@.in_flight =~= before.in_flight);
            MissAction::Deferred
        }
    }

    /// Takes note that the replay of `key` on the path `tag` has arrived, at the time
    /// `now`. The request is retired; the request that has waited longest, if any, takes
    /// its place and is handed back to be sent. A replay that was not under way is an
    /// error, and changes nothing.
    pub fn on_arrival(&mut self, tag: Tag, key: &Vec<DataType>, now: u64) -> (r: Result<
        Option<RequestPartialReplay>,
        ReplayError,
    >)
        requires
            old(self).wf(),
        ensures
            final(self).wf(),
            final(self)@ == old(self)@.arrive(Wanted { tag, key: key.deep_view() }, now),
            r.is_ok() == old(self)@.flying(Wanted { tag, key: key.deep_view() }),
            r.is_err() ==> r == Err::<Option<RequestPartialReplay>, ReplayError>(
                ReplayError::UnknownReplay,
            ),
            r.is_ok() ==> match r.unwrap() {
                Some(next) => old(self)@.queued.len() > 0 && next@ == old(self)@.queued[0],
                None => old(self)@.queued.len() == 0,
            },
            r.is_ok() ==> !final(self)@.awaits(Wanted { tag, key: key.deep_view() }),
    {
        let ghost w = Wanted { tag, key: key.deep_view() };
        let ghost before = self@;
        match self.find_flying(tag, key) {
            None => Err(ReplayError::UnknownReplay),
            Some(p) => {
                proof {
                    let q = before.position(w);
                    assert(before.in_flight[q].0 == w);
                    if q != p as int {
                        if q < p as int {
                            assert(before.in_flight[q].0 != before.in_flight[p as int].0);
                        } else {
                            assert(before.in_flight[p as int].0 != before.in_flight[q].0);
                        }
                    }
                }
                self.in_flight.remove(p);
                assert(self@.in_flight =~= before.in_flight.remove(p as int));
                let r = if self.queued.len() > 0 {
                    let next = self.queued.remove(0);
                    let request = RequestPartialReplay { tag: next.tag, key: clone_row(&next.key) };
                    self.in_flight.push(InFlight { tag: next.tag, key: next.key, since: now });
                    proof {
                        assert(self@.queued =~= before.queued.skip(1));
                        assert(self@.in_flight =~= before.in_flight.remove(p as int).push(
                            (before.queued[0], now),
                        ));
                    }
                    Some(request)
                } else {
                    assert(self@.queued =~= before.queued);
                    None
                };
                proof {
                    Self::lemma_arrive_wf(before, w, now);
                }
                Ok(r)
            },
        }
    }

    /// The arrival of a replay that is under way keeps the requests sound, and the key is
    /// not awaited afterwards.
    pub proof fn lemma_arrive_wf(before: Outstanding, w: Wanted, now: u64)
        requires
            before.wf(),
            before.flying(w),
        ensures
            before.arrive(w, now).wf(),
            !before.arrive(w, now).awaits(w),
    {
        let p = before.position(w);
        let after = before.arrive(w, now);
        let rest = before.in_flight.remove(p);
        assert forall|i: int| 0 <= i < rest.len() implies (#[trigger] rest[i]).0 != w by {
            let i0 = if i < p {
                i
            } else {
                i + 1
            };
            assert(rest[i] == before.in_flight[i0]);
            if i0 < p {
                assert(before.in_flight[i0].0 != before.in_flight[p].0);
            } else {
                assert(before.in_flight[p].0 != before.in_flight[i0].0);
            }
        }
        assert forall|i: int, j: int| 0 <= i < j < rest.len() implies (#[trigger] rest[i]).0 != (
        #[trigger] rest[j]).0 by {
            let i0 = if i < p {
                i
            } else {
                i + 1
            };
            let j0 = if j < p {
                j
            } else {
                j + 1
            };
            assert(before.in_flight[i0].0 != before.in_flight[j0].0);
        }
        assert(!before.queued.contains(w)) by {
            if before.queued.contains(w) {
                let j = choose|j: int| 0 <= j < before.queued.len() && before.queued[j] == w;
                assert(before.in_flight[p].0 != before.queued[j]);
            }
        }
        if before.queued.len() > 0 {
            let next = before.queued[0];
            assert(next != w);
            assert forall|i: int, j: int|
                0 <= i < j < after.in_flight.len() implies (#[trigger] after.in_flight[i]).0 != (
            #[trigger] after.in_flight[j]).0 by {
                if j == rest.len() {
                    let i0 = if i < p {
                        i
                    } else {
                        i + 1
                    };
                    assert(before.in_flight[i0].0 != before.queued[0]);
                }
            }
            assert(after.queued.no_duplicates()) by {
                assert forall|i: int, j: int|
                    0 <= i < after.queued.len() && 0 <= j < after.queued.len() && i
                        != j implies after.queued[i] != after.queued[j] by {
                    assert(before.queued[i + 1] != before.queued[j + 1]);
                }
            }
            assert forall|i: int, j: int|
                0 <= i < after.in_flight.len() && 0 <= j < after.queued.len() implies (
            #[trigger] after.in_flight[i]).0 != #[trigger] after.queued[j] by {
                if i == rest.len() {
                    assert(before.queued[0] != before.queued[j + 1]);
                } else {
                    let i0 = if i < p {
                        i
                    } else {
                        i + 1
                    };
                    assert(before.in_flight[i0].0 != before.queued[j + 1]);
                }
            }
            assert(!after.flying(w)) by {
                if after.flying(w) {
                    let i = choose|i: int|
                        0 <= i < after.in_flight.len() && (#[trigger] after.in_flight[i]).0 == w;
                    if i < rest.len() {
                        assert(rest[i].0 != w);
                    }
                }
            }
            assert(!after.queued.contains(w)) by {
                if after.queued.contains(w) {
                    let j = choose|j: int| 0 <= j < after.queued.len() && after.queued[j] == w;
                    assert(before.queued[j + 1] == w);
                }
            }
        } else {
            assert(!after.flying(w)) by {
                if after.flying(w) {
                    let i = choose|i: int|
                        0 <= i < after.in_flight.len() && (#[trigger] after.in_flight[i]).0 == w;
                    assert(rest[i].0 != w);
                }
            }
        }
    }

    /// Whether some replay has been under way for longer than `timeout` at the time `now`.
    pub fn overdue(&self, now: u64, timeout: u64) -> (late: bool)
        ensures
            late == exists|i: int|
                0 <= i < self@.in_flight.len() && now - (#[trigger] self@.in_flight[i]).1
                    > timeout,
    {
        let mut i: usize = 0;
        while i < self.in_flight.len()
            invariant
                i <= self.in_flight@.len(),
                forall|j: int| 0 <= j < i ==> now - (#[trigger] self@.in_flight[j]).1 <= timeout,
            decreases self.in_flight@.len() - i,
        {
            let since: u64 = self.in_flight[i].since;
            assert(self@.in_flight[i as int].1 == since);
            if now > since && now - since > timeout {
                return true;
            }
            i += 1;
        }
        false
    }
}

/// A partial state from which a key has been evicted misses the key; and when the replay
/// brings back the rows that the key had, the state is what it was before the eviction.
pub proof fn lemma_evict_then_replay(m: Materialized, k: Row)
    requires
        m.wf(),
        m.partial,
        m.rows.dom().contains(k),
    ensures
        m.evict(k).lookup(k).is_none(),
        m.evict(k).fill(k).put(k, m.rows[k]) == m,
        m.evict(k).fill(k).put(k, m.rows[k]).lookup(k) == m.lookup(k),
{
    assert(m.evict(k).fill(k).put(k, m.rows[k]).rows =~= m.rows);
}

/// A replay path as far as a domain needs it: its tag, the node of the domain that the
/// replays are made from, and the node and the key columns of the partial state that it
/// fills.
#[derive(Debug)]
pub struct ReplayPath {
    /// The tag of the path.
    pub tag: Tag,
    /// The node whose materialized output the replays are made from, where the path starts
    /// in this domain.
    pub source: Option<LocalNodeIndex>,
    /// The node at the end of the path.
    pub dst: LocalNodeIndex,
    /// The key columns of the state that the path fills.
    pub columns: Vec<usize>,
}

/// What a replay path stands for.
pub struct PathView {
    /// The tag of the path.
    pub tag: Tag,
    /// The node whose materialized output the replays are made from, where the path starts
    /// in this domain.
    pub source: Option<LocalNodeIndex>,
    /// The node at the end of the path.
    pub dst: LocalNodeIndex,
    /// The key columns of the state that the path fills.
    pub columns: Seq<usize>,
}

impl View for ReplayPath {
    type V = PathView;

    open spec fn view(&self) -> PathView {
        PathView { tag: self.tag, source: self.source, dst: self.dst, columns: self.columns@ }
    }
}

impl DeepView for ReplayPath {
    type V = PathView;

    open spec fn deep_view(&self) -> PathView {
        self@
    }
}

/// The tag of the first of `paths` that fills the state of the node `on` on the key columns
/// `columns`.
pub open spec fn tag_of(paths: Seq<PathView>, on: LocalNodeIndex, columns: Seq<usize>) -> Option<
    Tag,
>
    decreases paths.len(),
{
    if paths.len() == 0 {
        None
    } else if paths[0].dst == on && paths[0].columns == columns {
        Some(paths[0].tag)
    } else {
        tag_of(paths.skip(1), on, columns)
    }
}

/// The first of `paths` that has the tag `tag`.
pub open spec fn path_with(paths: Seq<PathView>, tag: Tag) -> Option<PathView>
    decreases paths.len(),
{
    if paths.len() == 0 {
        None
    } else if paths[0].tag == tag {
        Some(paths[0])
    } else {
        path_with(paths.skip(1), tag)
    }
}

/// The first of `paths` that has the tag `tag`.
pub fn find_path(paths: &Vec<ReplayPath>, tag: Tag) -> (p: Option<&ReplayPath>)
    ensures
        match path_with(paths.deep_view(), tag) {
            Some(v) => p.is_some() && p.unwrap()@ == v,
            None => p.is_none(),
        },
{
    let ghost all = paths.deep_view();
    let mut i: usize = 0;
    proof {
        assert(all.skip(0) =~= all);
    }
    while i < paths.len()
        invariant
            i <= paths@.len(),
            all == paths.deep_view(),
            path_with(all, tag) == path_with(all.skip(i as int), tag),
        decreases paths@.len() - i,
    {
        proof {
            assert(all.skip(i as int)[0] == paths@[i as int]@);
            assert(all.skip(i as int).skip(1) =~= all.skip(i + 1));
        }
        if paths[i].tag == tag {
            return Some(&paths[i]);
        }
        i += 1;
    }
    None
}

/// What replays the misses `misses` want, or `None` where a miss has no replay path.
pub open spec fn wanted(paths: Seq<PathView>, misses: Seq<MissView>) -> Option<Seq<Wanted>>
    decreases misses.len(),
{
    if misses.len() == 0 {
        Some(Seq::empty())
    } else {
        let m = misses.last();
        match (wanted(paths, misses.drop_last()), tag_of(paths, m.on, m.columns)) {
            (Some(before), Some(tag)) => Some(before.push(Wanted { tag, key: m.key })),
            _ => None,
        }
    }
}

/// The tag of the first of `paths` that fills the state of the node `on` on the key columns
/// `columns`.
pub fn find_tag(paths: &Vec<ReplayPath>, on: LocalNodeIndex, columns: &Vec<usize>) -> (t: Option<
    Tag,
>)
    ensures
        t == tag_of(paths.deep_view(), on, columns@),
{
    let ghost all = paths.deep_view();
    let mut i: usize = 0;
    proof {
        assert(all.skip(0) =~= all);
    }
    while i < paths.len()
        invariant
            i <= paths@.len(),
            all == paths.deep_view(),
            tag_of(all, on, columns@) == tag_of(all.skip(i as int), on, columns@),
        decreases paths@.len() - i,
    {
        proof {
            assert(all.skip(i as int)[0] == paths@[i as int]@);
            assert(all.skip(i as int).skip(1) =~= all.skip(i + 1));
        }
        if paths[i].dst == on && crate::data::same_columns(&paths[i].columns, columns) {
            return Some(paths[i].tag);
        }
        i += 1;
    }
    None
}

impl ReplayEngine {
    /// Takes note of the misses `misses`, at the time `now`: each miss asks for the replay of
    /// its key along the path that fills the state that missed. The requests that are to be
    /// sent are handed back, in order; a miss whose replay is awaited sends none, and one
    /// that finds the ceiling reached waits. Where a miss has no replay path nothing is
    /// noted and the error is handed back.
    pub fn on_misses(&mut self, paths: &Vec<ReplayPath>, misses: &Vec<Miss>, now: u64) -> (r: Result<
        Vec<RequestPartialReplay>,
        ReplayError,
    >)
        requires
            old(self).wf(),
        ensures
            final(self).wf(),
            r.is_ok() == wanted(paths.deep_view(), misses.deep_view()).is_some(),
            r.is_err() ==> r.unwrap_err() == ReplayError::NoPath && final(self)@ == old(self)@,
            r.is_ok() ==> {
                let ws = wanted(paths.deep_view(), misses.deep_view()).unwrap();
                &&& final(self)@ == old(self)@.misses(ws, now)
                &&& Seq::new(r.unwrap()@.len(), |i: int| r.unwrap()@[i]@) == old(self)@.requested(
                    ws,
                    now,
                )
            },
    {
        let ghost ms = misses.deep_view();
        let ghost ps = paths.deep_view();
        // find the paths first, so that nothing is noted where one is missing
        let mut tags: Vec<Tag> = Vec::new();
        let mut i: usize = 0;
        proof {
            assert(ms.take(0) =~= Seq::<MissView>::empty());
        }
        while i < misses.len()
            invariant
                i <= misses@.len(),
                ms == misses.deep_view(),
                ps == paths.deep_view(),
                *self == *old(self),
                self.wf(),
                tags@.len() == i,
                wanted(ps, ms.take(i as int)).is_some(),
                wanted(ps, ms.take(i as int)).unwrap().len() == i,
                forall|j: int|
                    0 <= j < i ==> (#[trigger] wanted(ps, ms.take(i as int)).unwrap()[j]) == (Wanted {
                        tag: tags@[j],
                        key: ms[j].key,
                    }),
            decreases misses@.len() - i,
        {
            proof {
                assert(ms.take(i + 1).drop_last() =~= ms.take(i as int));
                assert(ms.take(i + 1).last() == ms[i as int]);
                assert(ms[i as int] == misses@[i as int]@);
            }
            match find_tag(paths, misses[i].on, &misses[i].columns) {
                Some(tag) => {
                    tags.push(tag);
                },
                None => {
                    proof {
                        lemma_wanted_fails(ps, ms, i + 1);
                    }
                    return Err(ReplayError::NoPath);
                },
            }
            i += 1;
        }
        proof {
            assert(ms.take(misses@.len() as int) =~= ms);
        }
        let ghost ws = wanted(ps, ms).unwrap();
        let mut out: Vec<RequestPartialReplay> = Vec::new();
        let mut j: usize = 0;
        proof {
            assert(ws.take(0) =~= Seq::<Wanted>::empty());
            assert(Seq::new(out@.len(), |i: int| out@[i]@) =~= old(self)@.requested(
                ws.take(0),
                now,
            ));
        }
        while j < misses.len()
            invariant
                j <= misses@.len(),
                ms == misses.deep_view(),
                tags@.len() == misses@.len(),
                ws.len() == misses@.len(),
                forall|h: int|
                    0 <= h < ws.len() ==> (#[trigger] ws[h]) == (Wanted {
                        tag: tags@[h],
                        key: ms[h].key,
                    }),
                self.wf(),
                self@ == old(self)@.misses(ws.take(j as int), now),
                Seq::new(out@.len(), |i: int| out@[i]@) == old(self)@.requested(
                    ws.take(j as int),
                    now,
                ),
            decreases misses@.len() - j,
        {
            proof {
                assert(ws.take(j + 1).drop_last() =~= ws.take(j as int));
                assert(ws.take(j + 1).last() == ws[j as int]);
                assert(ms[j as int] == misses@[j as int]@);
            }
            let ghost held = Seq::new(out@.len(), |i: int| out@[i]@);
            let key = clone_row(&misses[j].key);
            match self.on_miss(tags[j], key, now) {
                MissAction::Request(request) => {
                    out.push(request);
                    proof {
                        assert(Seq::new(out@.len(), |i: int| out@[i]@) =~= held.push(ws[j as int]));
                    }
                },
                MissAction::Suppressed => {},
                MissAction::Deferred => {},
            }
            j += 1;
        }
        proof {
            assert(ws.take(misses@.len() as int) =~= ws);
        }
        Ok(out)
    }
}

/// Where the first `n` misses do not all have a replay path, neither do all of them.
pub proof fn lemma_wanted_fails(paths: Seq<PathView>, misses: Seq<MissView>, n: int)
    requires
        0 <= n <= misses.len(),
        wanted(paths, misses.take(n)).is_none(),
    ensures
        wanted(paths, misses).is_none(),
    decreases misses.len() - n,
{
    if n < misses.len() {
        assert(misses.take(n + 1).drop_last() =~= misses.take(n));
        lemma_wanted_fails(paths, misses, n + 1);
    } else {
        assert(misses.take(n) =~= misses);
    }
}

} // verus!
