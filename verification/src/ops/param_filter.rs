//! The filter whose pattern is a parameter of the query.

use crate::addressing::{IndexPair, LocalNodeIndex, NodeIndex, Remap};
use crate::data::Record;
use crate::processing::{ColumnSource, ProcessingResult, SuggestedIndex};
use crate::text::{decimal, push_decimal};
use vstd::prelude::*;

verus! {

/// The operator that a [`ParamFilter`] compares with.
#[derive(Clone, Copy, Debug, PartialEq, Eq, Structural)]
pub enum Operator {
    /// Pattern matching that tells upper case from lower case.
    Like,
    /// Pattern matching that does not.
    ILike,
}

impl Operator {
    /// The SQL keyword of the operator.
    pub open spec fn keyword(self) -> Seq<char> {
        match self {
            Operator::Like => "LIKE"@,
            Operator::ILike => "ILIKE"@,
        }
    }

    /// The SQL keyword of the operator.
    pub fn to_text(&self) -> (s: String)
        ensures
            s@ == self.keyword(),
    {
        match self {
            Operator::Like => String::from_str("LIKE"),
            Operator::ILike => String::from_str("ILIKE"),
        }
    }
}

/// Stores all records where a column matches a key, and emits that key as the column at
/// `emit_key`.
#[derive(Clone, Copy, Debug)]
pub struct ParamFilter {
    src: IndexPair,
    col: usize,
    emit_key: usize,
    operator: Operator,
}

impl ParamFilter {
    /// The parent.
    pub closed spec fn source(self) -> IndexPair {
        self.src
    }

    /// The column that is matched.
    pub closed spec fn column(self) -> usize {
        self.col
    }

    /// The column of the output that holds the key.
    pub closed spec fn key_column(self) -> usize {
        self.emit_key
    }

    /// The operator that is matched with.
    pub closed spec fn matcher(self) -> Operator {
        self.operator
    }

    /// The detailed description of a filter with these parts.
    pub open spec fn detailed_description(operator: Operator, col: usize, emit_key: usize) -> Seq<
        char,
    > {
        "σφ["@ + operator.keyword() + " "@ + decimal(col as nat) + " → "@ + decimal(
            emit_key as nat,
        ) + "]"@
    }

    /// A filter below `src` that matches column `col` with `operator` and emits the key as
    /// column `emit_key`.
    pub fn new(src: NodeIndex, col: usize, emit_key: usize, operator: Operator) -> (p: Self)
        ensures
            p.source().spec_global() == src,
            p.source().spec_local().is_none(),
            p.column() == col,
            p.key_column() == emit_key,
            p.matcher() == operator,
    {
        ParamFilter { src: IndexPair::new(src), col, emit_key, operator }
    }

    /// The parents of this operator: the one that it was made with.
    pub fn ancestors(&self) -> (a: Vec<NodeIndex>)
        ensures
            a@ == seq![self.source().spec_global()],
    {
        let mut a: Vec<NodeIndex> = Vec::new();
        a.push(self.src.as_global());
        assert(a@ =~= seq![self.source().spec_global()]);
        a
    }

    /// The indices that this operator needs: none.
    pub fn suggest_indexes(&self, _us: NodeIndex) -> (s: Vec<SuggestedIndex>)
        ensures
            s@.len() == 0,
    {
        Vec::new()
    }

    /// Whether some column of `cols` is the key column or lies beyond it.
    pub open spec fn reaches_key(cols: Seq<usize>, emit_key: usize) -> bool {
        exists|i: int| 0 <= i < cols.len() && (#[trigger] cols[i]) >= emit_key
    }

    /// Where the columns `cols` of the output come from: they are copies of the parent's
    /// columns unless one of them is the key column or lies beyond it.
    pub fn column_source(&self, cols: &Vec<usize>) -> (c: ColumnSource)
        ensures
            Self::reaches_key(cols@, self.key_column()) ==> (c matches ColumnSource::RequiresFullReplay(
                ps,
            ) && ps@ == seq![self.source().spec_global()]),
            !Self::reaches_key(cols@, self.key_column()) ==> (c matches ColumnSource::ExactCopy(
                p,
                cs,
            ) && p == self.source().spec_global() && cs@ == cols@),
    {
        let mut i: usize = 0;
        while i < cols.len()
            invariant
                i <= cols@.len(),
                forall|j: int| 0 <= j < i ==> (#[trigger] cols@[j]) < self.emit_key,
            decreases cols@.len() - i,
        {
            if cols[i] >= self.emit_key {
                let mut ps: Vec<NodeIndex> = Vec::new();
                ps.push(self.src.as_global());
                assert(ps@ =~= seq![self.source().spec_global()]);
                return ColumnSource::RequiresFullReplay(ps);
            }
            i += 1;
        }
        let cs = cols.clone();
        assert(cs@ =~= cols@);
        ColumnSource::ExactCopy(self.src.as_global(), cs)
    }

    /// Where column `col` of the output comes from: the same column of the parent, unless it
    /// is the key column or lies beyond it, which are computed.
    pub fn resolve(&self, col: usize) -> (r: Option<Vec<(NodeIndex, usize)>>)
        ensures
            r.is_some() == (col < self.key_column()),
            r.is_some() ==> r.unwrap()@ == seq![(self.source().spec_global(), col)],
    {
        if col >= self.emit_key {
            None
        } else {
            let mut v: Vec<(NodeIndex, usize)> = Vec::new();
            v.push((self.src.as_global(), col));
            assert(v@ =~= seq![(self.source().spec_global(), col)]);
            Some(v)
        }
    }

    /// A description of the operator; the detailed one names the operator and the columns.
    pub fn description(&self, detailed: bool) -> (s: String)
        ensures
            detailed ==> s@ == Self::detailed_description(
                self.matcher(),
                self.column(),
                self.key_column(),
            ),
            !detailed ==> s@ == "σφ"@,
    {
        if detailed {
            let mut s = String::from_str("σφ[");
            let op = self.operator.to_text();
            s.append(op.as_str());
            s.append(" ");
            push_decimal(&mut s, self.col as u64);
            s.append(" → ");
            push_decimal(&mut s, self.emit_key as u64);
            s.append("]");
            s
        } else {
            String::from_str("σφ")
        }
    }

    /// Localizes the reference to the parent: it becomes what `remap` holds for the parent's
    /// global identifier, and stays as it is where `remap` holds nothing for it.
    pub fn on_commit(&mut self, _us: NodeIndex, remap: &Remap)
        requires
            remap.wf(),
        ensures
            final(self).source() == if remap@.dom().contains(old(self).source().spec_global()) {
                remap@[old(self).source().spec_global()]
            } else {
                old(self).source()
            },
            final(self).column() == old(self).column(),
            final(self).key_column() == old(self).key_column(),
            final(self).matcher() == old(self).matcher(),
    {
        self.src.remap(remap);
    }

    /// Emits nothing and misses nothing: the rows of this operator are made when a key is
    /// asked for, not when records arrive.
    pub fn on_input(&self, _from: LocalNodeIndex, _data: Vec<Record>) -> (r: ProcessingResult)
        ensures
            r.delta().len() == 0,
            r.missed().len() == 0,
            r.refused().len() == 0,
    {
        ProcessingResult::default()
    }

    /// Whether a lookup can be answered through this operator from its parent's state.
    pub fn can_query_through(&self) -> (b: bool)
        ensures
            b,
    {
        true
    }

    /// Where column `column` of the output comes from: the same column of the parent, or
    /// nowhere for the key column and those beyond it.
    pub fn parent_columns(&self, column: usize) -> (r: Vec<(NodeIndex, Option<usize>)>)
        ensures
            r@ == seq![
                (
                    self.source().spec_global(),
                    if column < self.key_column() {
                        Some(column)
                    } else {
                        Option::<usize>::None
                    },
                ),
            ],
    {
        let c: Option<usize> = if column < self.emit_key {
            Some(column)
        } else {
            None
        };
        let mut v: Vec<(NodeIndex, Option<usize>)> = Vec::new();
        v.push((self.src.as_global(), c));
        assert(v@ =~= seq![(self.source().spec_global(), c)]);
        v
    }
}

} // verus!
