//! The identity operator.

use crate::addressing::{IndexPair, LocalNodeIndex, NodeIndex, Remap};
use crate::data::Record;
use crate::processing::{ProcessingResult, SuggestedIndex};
use vstd::prelude::*;

verus! {

/// Applies the identity operation to its input: every record goes on unchanged. It is the
/// simplest possible operator.
#[derive(Clone, Copy, Debug)]
pub struct Trigger {
    src: IndexPair,
}

impl Trigger {
    /// The parent.
    pub closed spec fn source(self) -> IndexPair {
        self.src
    }

    /// Construct a new identity operator below `src`.
    pub fn new(src: NodeIndex) -> (t: Trigger)
        ensures
            t.source().spec_global() == src,
            t.source().spec_local().is_none(),
    {
        Trigger { src: IndexPair::new(src) }
    }

    /// The parents of this operator: the one that it was made with.
    pub fn ancestors(&self) -> (a: Vec<NodeIndex>)
        ensures
            a@ == seq![self.source().spec_global()],
    {
        let mut a: Vec<NodeIndex> = Vec::new();
        a.push(self.src.as_global());
        assert(a@ =~= seq![self.source().spec_global()]);
        a
    }

    /// Localizes the reference to the parent: it becomes what `remap` holds for the parent's
    /// global identifier, and stays as it is where `remap` holds nothing for it.
    pub fn on_commit(&mut self, _us: NodeIndex, remap: &Remap)
        requires
            remap.wf(),
        ensures
            final(self).source() == if remap@.dom().contains(old(self).source().spec_global()) {
                remap@[old(self).source().spec_global()]
            } else {
                old(self).source()
            },
    {
        self.src.remap(remap);
    }

    /// Hands the records on unchanged, and misses nothing.
    pub fn on_input(&self, _from: LocalNodeIndex, rs: Vec<Record>) -> (r: ProcessingResult)
        ensures
            r.delta() == rs.deep_view(),
            r.missed().len() == 0,
            r.refused().len() == 0,
    {
        ProcessingResult::emit(rs)
    }

    /// The indices that this operator needs: none.
    pub fn suggest_indexes(&self, _us: NodeIndex) -> (s: Vec<SuggestedIndex>)
        ensures
            s@.len() == 0,
    {
        Vec::new()
    }

    /// Where column `col` of the output comes from: the same column of the parent.
    pub fn resolve(&self, col: usize) -> (r: Option<Vec<(NodeIndex, usize)>>)
        ensures
            r.is_some(),
            r.unwrap()@ == seq![(self.source().spec_global(), col)],
    {
        let mut v: Vec<(NodeIndex, usize)> = Vec::new();
        v.push((self.src.as_global(), col));
        assert(v@ =~= seq![(self.source().spec_global(), col)]);
        Some(v)
    }

    /// Where column `column` of the output comes from: the same column of the parent.
    pub fn parent_columns(&self, column: usize) -> (r: Vec<(NodeIndex, Option<usize>)>)
        ensures
            r@ == seq![(self.source().spec_global(), Some(column))],
    {
        let mut v: Vec<(NodeIndex, Option<usize>)> = Vec::new();
        v.push((self.src.as_global(), Some(column)));
        assert(v@ =~= seq![(self.source().spec_global(), Some(column))]);
        v
    }

    /// A short description of the operator: the identity sign.
    pub fn description(&self) -> (s: String)
        ensures
            s@ == "≡"@,
    {
        String::from_str("≡")
    }
}

} // verus!
