//! What an operator is handed when records arrive, and what it hands back.

use crate::addressing::{LocalNodeIndex, NodeIndex, Tag};
use crate::data::{DataType, Delta, Record, Row};
use crate::state::{Materialized, State};
use vstd::prelude::*;

verus! {

/// What a [`Miss`] stands for.
pub struct MissView {
    /// The node whose state had the hole.
    pub on: LocalNodeIndex,
    /// The columns of that state's key.
    pub columns: Seq<usize>,
    /// The key that was looked up.
    pub key: Row,
}

/// The signal that processing a record needed a key that is a hole of a partial state.
#[derive(Debug)]
pub struct Miss {
    /// The node whose state had the hole.
    pub on: LocalNodeIndex,
    /// The columns of that state's key.
    pub columns: Vec<usize>,
    /// The key that was looked up.
    pub key: Vec<DataType>,
}

impl View for Miss {
    type V = MissView;

    open spec fn view(&self) -> MissView {
        MissView { on: self.on, columns: self.columns@, key: self.key.deep_view() }
    }
}

impl DeepView for Miss {
    type V = MissView;

    open spec fn deep_view(&self) -> MissView {
        self@
    }
}

/// What an operator makes of a batch of records: the records that it emits, and the misses
/// that kept it from emitting more.
#[derive(Debug)]
pub struct ProcessingResult {
    /// The records to hand to the children.
    pub results: Vec<Record>,
    /// The lookups that fell into a hole.
    pub misses: Vec<Miss>,
    /// The records that the operator could not take in: the dead letters.
    pub rejected: Vec<Record>,
}

impl ProcessingResult {
    /// The emitted records.
    pub open spec fn delta(self) -> Delta {
        self.results.deep_view()
    }

    /// The misses.
    pub open spec fn missed(self) -> Seq<MissView> {
        self.misses.deep_view()
    }

    /// The dead letters.
    pub open spec fn refused(self) -> Delta {
        self.rejected.deep_view()
    }

    /// A result that emits `results`, misses nothing and rejects nothing.
    pub fn emit(results: Vec<Record>) -> (r: ProcessingResult)
        ensures
            r.delta() == results.deep_view(),
            r.missed() == Seq::<MissView>::empty(),
            r.refused() == Seq::<crate::data::SignedRow>::empty(),
    {
        let r = ProcessingResult { results, misses: Vec::new(), rejected: Vec::new() };
        assert(r.missed() =~= Seq::<MissView>::empty());
        assert(r.refused() =~= Seq::<crate::data::SignedRow>::empty());
        r
    }
}

impl Default for ProcessingResult {
    fn default() -> (r: ProcessingResult)
        ensures
            r.delta() == Seq::<crate::data::SignedRow>::empty(),
            r.missed() == Seq::<MissView>::empty(),
            r.refused() == Seq::<crate::data::SignedRow>::empty(),
    {
        let r = ProcessingResult { results: Vec::new(), misses: Vec::new(), rejected: Vec::new() };
        assert(r.refused() =~= Seq::<crate::data::SignedRow>::empty());
        assert(r.delta() =~= Seq::<crate::data::SignedRow>::empty());
        assert(r.missed() =~= Seq::<MissView>::empty());
        r
    }
}

/// Whether a batch is a regular update or a piece of a replay, and of which replay path.
#[derive(Clone, Copy, Debug, PartialEq, Eq, Structural)]
pub enum ReplayContext {
    /// A regular update.
    Regular,
    /// A piece of the replay along the path `tag`, for one key.
    Partial { tag: Tag },
    /// A piece of the replay along the path `tag` that carries every row.
    Full { tag: Tag },
}

impl ReplayContext {
    /// Whether the batch is a piece of a replay.
    pub fn is_replay(&self) -> (b: bool)
        ensures
            b == (*self != ReplayContext::Regular),
    {
        match self {
            ReplayContext::Regular => false,
            _ => true,
        }
    }

    /// The replay path that the batch travels along, if it is a piece of a replay.
    pub fn tag(&self) -> (t: Option<Tag>)
        ensures
            t == match *self {
                ReplayContext::Regular => Option::<Tag>::None,
                ReplayContext::Partial { tag } => Some(tag),
                ReplayContext::Full { tag } => Some(tag),
            },
    {
        match self {
            ReplayContext::Regular => None,
            ReplayContext::Partial { tag } => Some(*tag),
            ReplayContext::Full { tag } => Some(*tag),
        }
    }
}

/// The states of the nodes of one domain, by local identifier.
#[derive(Debug)]
pub struct StateMap {
    /// The state of the node with local identifier `i`, where it is materialized.
    pub states: Vec<Option<State>>,
}

impl StateMap {
    /// Every state is well formed.
    pub open spec fn wf(self) -> bool {
        forall|i: int|
            0 <= i < self.states@.len() && (#[trigger] self.states@[i]).is_some()
                ==> self.states@[i].unwrap().wf()
    }

    /// The model of the state of node `n`, where it is materialized.
    pub open spec fn model(self, n: LocalNodeIndex) -> Option<Materialized> {
        if n.spec_id() < self.states@.len() && self.states@[n.spec_id() as int].is_some() {
            Some(self.states@[n.spec_id() as int].unwrap()@)
        } else {
            None
        }
    }

    /// No state at all.
    pub fn new() -> (m: StateMap)
        ensures
            m.wf(),
            m.states@.len() == 0,
    {
        StateMap { states: Vec::new() }
    }

    /// The state of node `n`, where it is materialized.
    pub fn get(&self, n: LocalNodeIndex) -> (s: Option<&State>)
        requires
            self.wf(),
        ensures
            s.is_some() == self.model(n).is_some(),
            s.is_some() ==> s.unwrap()@ == self.model(n).unwrap() && s.unwrap().wf(),
    {
        let i: usize = n.id();
        if i < self.states.len() {
            self.states[i].as_ref()
        } else {
            None
        }
    }

    /// Takes the state of node `n` out of the map, where it is materialized.
    pub fn take(&mut self, n: LocalNodeIndex) -> (s: Option<State>)
        requires
            old(self).wf(),
        ensures
            final(self).wf(),
            s.is_some() == old(self).model(n).is_some(),
            s.is_some() ==> s.unwrap()@ == old(self).model(n).unwrap() && s.unwrap().wf(),
            final(self).model(n).is_none(),
            forall|m: LocalNodeIndex| m != n ==> final(self).model(m) == old(self).model(m),
    {
        let i: usize = n.id();
        if i < self.states.len() {
            let s = self.states[i].take();
            proof {
                assert forall|m: LocalNodeIndex| m != n implies final(self).model(m) == old(self).model(m) by {
                    if m.spec_id() == n.spec_id() {
                        LocalNodeIndex::lemma_id_injective(m, n);
                    }
                }
            }
            s
        } else {
            None
        }
    }

    /// Gives node `n` the state `state`, in place of the state that it had.
    pub fn insert(&mut self, n: LocalNodeIndex, state: State)
        requires
            old(self).wf(),
            state.wf(),
        ensures
            final(self).wf(),
            final(self).model(n) == Some(state@),
            forall|m: LocalNodeIndex| m != n ==> final(self).model(m) == old(self).model(m),
    {
        let i: usize = n.id();
        while self.states.len() <= i
            invariant
                self.wf(),
                old(self).states@.len() <= self.states@.len(),
                forall|j: int|
                    0 <= j < old(self).states@.len() ==> self.states@[j] == old(self).states@[j],
                forall|j: int|
                    old(self).states@.len() <= j < self.states@.len() ==> (
                    #[trigger] self.states@[j]).is_none(),
            decreases i + 1 - self.states@.len(),
        {
            self.states.push(None);
        }
        self.states[i] = Some(state);
        proof {
            assert forall|m: LocalNodeIndex| m != n implies final(self).model(m) == old(self).model(m) by {
                if m.spec_id() == n.spec_id() {
                    LocalNodeIndex::lemma_id_injective(m, n);
                }
            }
        }
    }
}

/// Where the columns of an operator's output come from.
#[derive(Debug)]
pub enum ColumnSource {
    /// The columns are copied from these columns of this parent.
    ExactCopy(NodeIndex, Vec<usize>),
    /// The columns are computed: to fill them, these parents must replay everything.
    RequiresFullReplay(Vec<NodeIndex>),
}

/// An index that an operator asks for: on which node, over which columns, and whether the
/// columns identify a row.
#[derive(Debug)]
pub struct SuggestedIndex {
    /// The node whose state should have the index.
    pub node: NodeIndex,
    /// The columns of the index.
    pub columns: Vec<usize>,
    /// Whether at most one row has any given values in these columns.
    pub unique: bool,
}

} // verus!
