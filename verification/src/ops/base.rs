//! The base: a root of the graph, which takes the writes of the outside world.

use crate::data::{
    clone_row, columns_within, project, project_row, rows_equal, rows_have_width, DataType,
    Delta, Record, Row, SignedRow, Value,
};
use crate::ops::topk::signed;
use crate::state::{LookupResult, Materialized, State};
use vstd::prelude::*;

verus! {

/// What a write stands for.
pub enum Write {
    /// The row is added.
    Insert(Row),
    /// The rows with this primary key are deleted.
    Delete(Row),
    /// The rows with this primary key are replaced by the row.
    Update(Row, Row),
}

/// A write to a base.
#[derive(Debug)]
pub enum TableOperation {
    /// Adds the row.
    Insert(Vec<DataType>),
    /// Deletes the rows with the primary key `key`.
    Delete { key: Vec<DataType> },
    /// Replaces the rows with the primary key `key` by `row`.
    Update { key: Vec<DataType>, row: Vec<DataType> },
}

impl View for TableOperation {
    type V = Write;

    open spec fn view(&self) -> Write {
        match *self {
            TableOperation::Insert(row) => Write::Insert(row.deep_view()),
            TableOperation::Delete { key } => Write::Delete(key.deep_view()),
            TableOperation::Update { key, row } => Write::Update(key.deep_view(), row.deep_view()),
        }
    }
}

impl DeepView for TableOperation {
    type V = Write;

    open spec fn deep_view(&self) -> Write {
        self@
    }
}

/// What one write does at a base, or a batch of them.
pub struct Written {
    /// The state of the base afterwards.
    pub state: Materialized,
    /// The records emitted, in order.
    pub out: Delta,
    /// The positions, in the batch, of the writes that were rejected.
    pub rejected: Seq<nat>,
}

/// A relation that the outside world writes to. Its state holds its rows under their
/// primary key. A row that was written before a column was added is filled up with the
/// defaults of the columns that it lacks, and a column that was dropped holds its default
/// in every row that is written.
#[derive(Debug)]
pub struct Base {
    primary_key: Vec<usize>,
    unique: bool,
    initial: usize,
    defaults: Vec<DataType>,
    dropped: Vec<usize>,
}

impl Base {
    /// The columns of the primary key; none if the base has no key.
    pub closed spec fn key(self) -> Seq<usize> {
        self.primary_key@
    }

    /// Whether no two rows may have the same primary key.
    pub closed spec fn is_unique(self) -> bool {
        self.unique
    }

    /// The number of columns that the base was made with.
    pub closed spec fn initial_width(self) -> nat {
        self.initial as nat
    }

    /// The default of each column: null for a column that the base was made with, and what
    /// was given for a column that was added.
    pub closed spec fn column_defaults(self) -> Row {
        self.defaults.deep_view()
    }

    /// The columns that were dropped.
    pub closed spec fn dropped_columns(self) -> Seq<usize> {
        self.dropped@
    }

    /// The number of columns.
    pub open spec fn width(self) -> nat {
        self.column_defaults().len()
    }

    /// The base is sound: it has a default for every column, and its key and its dropped
    /// columns are columns that it has.
    pub open spec fn wf(self) -> bool {
        &&& self.initial_width() <= self.width()
        &&& columns_within(self.key(), self.width())
        &&& columns_within(self.dropped_columns(), self.width())
    }

    /// Whether a written row has a number of columns that the base has had.
    pub open spec fn takes(self, row: Row) -> bool {
        self.initial_width() <= row.len() <= self.width()
    }

    /// A written row as the base stores it: filled up with the defaults of the columns that
    /// it lacks, and with the default in every dropped column.
    pub open spec fn fixed(self, row: Row) -> Row {
        Seq::new(
            self.width(),
            |i: int|
                if i >= row.len() || self.dropped_columns().contains(i as usize) {
                    self.column_defaults()[i]
                } else {
                    row[i]
                },
        )
    }

    /// What one write does to the state `m`.
    pub open spec fn step(self, m: Materialized, w: Write, position: nat) -> Written {
        let refused = Written { state: m, out: Seq::empty(), rejected: seq![position] };
        match w {
            Write::Insert(row) => {
                let stored = self.fixed(row);
                if !self.takes(row) {
                    refused
                } else if self.is_unique() && m.lookup(project(stored, self.key())).unwrap().len()
                    > 0 {
                    refused
                } else {
                    Written {
                        state: m.insert(stored),
                        out: seq![SignedRow { positive: true, row: stored }],
                        rejected: Seq::empty(),
                    }
                }
            },
            Write::Delete(key) => {
                if self.key().len() == 0 || key.len() != self.key().len() {
                    refused
                } else {
                    Written {
                        state: m.put(key, Seq::empty()),
                        out: signed(false, m.lookup(key).unwrap()),
                        rejected: Seq::empty(),
                    }
                }
            },
            Write::Update(key, row) => {
                let stored = self.fixed(row);
                if self.key().len() == 0 || !self.takes(row) || project(stored, self.key())
                    != key {
                    refused
                } else {
                    Written {
                        state: m.put(key, seq![stored]),
                        out: signed(false, m.lookup(key).unwrap()).push(
                            SignedRow { positive: true, row: stored },
                        ),
                        rejected: Seq::empty(),
                    }
                }
            },
        }
    }

    /// What a batch of writes does to the state `m`: the writes are taken one after the
    /// other.
    pub open spec fn run(self, m: Materialized, ws: Seq<Write>) -> Written
        decreases ws.len(),
    {
        if ws.len() == 0 {
            Written { state: m, out: Seq::empty(), rejected: Seq::empty() }
        } else {
            let before = self.run(m, ws.drop_last());
            let step = self.step(before.state, ws.last(), (ws.len() - 1) as nat);
            Written {
                state: step.state,
                out: before.out + step.out,
                rejected: before.rejected + step.rejected,
            }
        }
    }

    /// A base with `columns` columns and the primary key `primary_key`, in which no two rows
    /// may have the same key if `unique` is set. `None` where the key names a column that
    /// the base does not have.
    pub fn new(columns: usize, primary_key: Vec<usize>, unique: bool) -> (b: Option<Base>)
        ensures
            b.is_some() == columns_within(primary_key@, columns as nat),
            b.is_some() ==> {
                &&& b.unwrap().wf()
                &&& b.unwrap().key() == primary_key@
                &&& b.unwrap().is_unique() == unique
                &&& b.unwrap().initial_width() == columns
                &&& b.unwrap().column_defaults() == Seq::new(columns as nat, |i: int| Value::Null)
                &&& b.unwrap().dropped_columns().len() == 0
            },
    {
        if !crate::data::check_columns_within(&primary_key, columns) {
            return None;
        }
        let mut defaults: Vec<DataType> = Vec::new();
        let mut i: usize = 0;
        while i < columns
            invariant
                i <= columns,
                defaults@.len() == i,
                forall|j: int| 0 <= j < i ==> (#[trigger] defaults@[j])@ == Value::Null,
            decreases columns - i,
        {
            defaults.push(DataType::Null);
            i += 1;
        }
        let b = Base { primary_key, unique, initial: columns, defaults, dropped: Vec::new() };
        assert(b.column_defaults() =~= Seq::new(columns as nat, |i: int| Value::Null));
        Some(b)
    }

    /// The parents of a base: none.
    pub fn ancestors(&self) -> (a: Vec<crate::addressing::NodeIndex>)
        ensures
            a@.len() == 0,
    {
        Vec::new()
    }

    /// The number of columns.
    pub fn columns(&self) -> (n: usize)
        ensures
            n == self.width(),
    {
        assert(self.defaults.deep_view().len() == self.defaults@.len());
        self.defaults.len()
    }

    /// The columns of the primary key.
    pub fn primary_key(&self) -> (k: &Vec<usize>)
        ensures
            k@ == self.key(),
    {
        &self.primary_key
    }

    /// The columns that were dropped, in the order in which they were.
    pub fn dropped(&self) -> (d: &Vec<usize>)
        ensures
            d@ == self.dropped_columns(),
    {
        &self.dropped
    }

    /// Adds a column with the default `default`, and returns its number. Rows that were
    /// written before get the default in it.
    pub fn add_column(&mut self, default: DataType) -> (column: usize)
        requires
            old(self).wf(),
            old(self).width() < usize::MAX,
        ensures
            final(self).wf(),
            column == old(self).width(),
            final(self).column_defaults() == old(self).column_defaults().push(default@),
            final(self).key() == old(self).key(),
            final(self).is_unique() == old(self).is_unique(),
            final(self).initial_width() == old(self).initial_width(),
            final(self).dropped_columns() == old(self).dropped_columns(),
    {
        let column: usize = self.columns();
        let ghost before = self.defaults.deep_view();
        self.defaults.push(default);
        assert(self.defaults.deep_view() =~= before.push(default@));
        column
    }

    /// Drops a column: every row that is written from now on holds the default in it.
    /// Returns whether the base has the column.
    pub fn drop_column(&mut self, column: usize) -> (dropped: bool)
        requires
            old(self).wf(),
        ensures
            final(self).wf(),
            dropped == (column < old(self).width()),
            final(self).dropped_columns() == if dropped {
                old(self).dropped_columns().push(column)
            } else {
                old(self).dropped_columns()
            },
            final(self).column_defaults() == old(self).column_defaults(),
            final(self).key() == old(self).key(),
            final(self).is_unique() == old(self).is_unique(),
            final(self).initial_width() == old(self).initial_width(),
    {
        if column < self.columns() {
            self.dropped.push(column);
            true
        } else {
            false
        }
    }

    /// Whether the column was dropped.
    fn is_dropped(&self, column: usize) -> (b: bool)
        ensures
            b == self.dropped_columns().contains(column),
    {
        let mut i: usize = 0;
        while i < self.dropped.len()
            invariant
                i <= self.dropped@.len(),
                forall|j: int| 0 <= j < i ==> self.dropped@[j] != column,
            decreases self.dropped@.len() - i,
        {
            if self.dropped[i] == column {
                return true;
            }
            i += 1;
        }
        false
    }

    /// A written row as the base stores it, or `None` where the row has a number of columns
    /// that the base never had.
    pub fn fix(&self, row: &Vec<DataType>) -> (r: Option<Vec<DataType>>)
        ensures
            r.is_some() == self.takes(row.deep_view()),
            r.is_some() ==> r.unwrap().deep_view() == self.fixed(row.deep_view()),
    {
        assert(row.deep_view().len() == row@.len());
        assert(self.defaults.deep_view().len() == self.defaults@.len());
        if row.len() < self.initial || row.len() > self.defaults.len() {
            return None;
        }
        let mut out: Vec<DataType> = Vec::with_capacity(self.defaults.len());
        let mut i: usize = 0;
        while i < self.defaults.len()
            invariant
                i <= self.defaults@.len(),
                row@.len() <= self.defaults@.len(),
                out@.len() == i,
                forall|j: int|
                    0 <= j < i ==> (#[trigger] out@[j])@ == self.fixed(row.deep_view())[j],
            decreases self.defaults@.len() - i,
        {
            proof {
                assert(self.defaults.deep_view()[i as int] == self.defaults@[i as int]@);
            }
            if i >= row.len() || self.is_dropped(i) {
                out.push(self.defaults[i].deep_clone());
            } else {
                assert(row.deep_view()[i as int] == row@[i as int]@);
                out.push(row[i].deep_clone());
            }
            i += 1;
        }
        assert(out.deep_view() =~= self.fixed(row.deep_view()));
        Some(out)
    }

    /// Appends to `out` the deletion of each of `rows`.
    fn push_deletions(out: &mut Vec<Record>, rows: &Vec<Vec<DataType>>)
        ensures
            final(out).deep_view() == old(out).deep_view() + signed(false, rows.deep_view()),
    {
        let ghost start = out.deep_view();
        let ghost all = signed(false, rows.deep_view());
        let mut i: usize = 0;
        assert(rows.deep_view().len() == rows@.len());
        assert(out.deep_view() =~= start + all.take(0));
        while i < rows.len()
            invariant
                i <= rows@.len(),
                rows.deep_view().len() == rows@.len(),
                all == signed(false, rows.deep_view()),
                out.deep_view() == start + all.take(i as int),
            decreases rows@.len() - i,
        {
            let ghost held = out.deep_view();
            out.push(Record::Negative(clone_row(&rows[i])));
            proof {
                assert(rows.deep_view()[i as int] == rows@[i as int].deep_view());
                assert(out.deep_view() =~= held.push(all[i as int]));
                assert(all.take(i + 1) =~= all.take(i as int).push(all[i as int]));
                assert(out.deep_view() =~= start + all.take(i + 1));
            }
            i += 1;
        }
        assert(all.take(rows@.len() as int) =~= all);
    }

    /// Takes in a batch of writes, one after the other, against the state `own` of the base,
    /// which it keeps up to date. An insertion emits the row; a deletion emits the deletion
    /// of the rows with the key; an update emits the deletion of the rows with the key and
    /// then the new row. A write is rejected, and changes nothing, where its row has a
    /// number of columns that the base never had, where it inserts a row whose key is taken
    /// although keys are unique, where it deletes or updates by key although the base has no
    /// key or the key has the wrong length, or where it updates a row to another key. The
    /// positions of the rejected writes are handed back with the records.
    pub fn on_input(&self, ops: &Vec<TableOperation>, own: &mut State) -> (r: (
        Vec<Record>,
        Vec<usize>,
    ))
        requires
            self.wf(),
            old(own).wf(),
            old(own)@.key == self.key(),
            !old(own)@.partial,
        ensures
            final(own).wf(),
            final(own)@.key == self.key(),
            !final(own)@.partial,
            final(own)@ == self.run(old(own)@, ops.deep_view()).state,
            r.0.deep_view() == self.run(old(own)@, ops.deep_view()).out,
            r.1@.map_values(|p: usize| p as nat) == self.run(old(own)@, ops.deep_view()).rejected,
    {
        let ghost ws = ops.deep_view();
        let ghost start = own@;
        let mut out: Vec<Record> = Vec::new();
        let mut rejected: Vec<usize> = Vec::new();
        let mut i: usize = 0;
        proof {
            assert(ws.take(0) =~= Seq::<Write>::empty());
            assert(out.deep_view() =~= Seq::<SignedRow>::empty());
            assert(rejected@.map_values(|p: usize| p as nat) =~= Seq::<nat>::empty());
        }
        while i < ops.len()
            invariant
                i <= ops@.len(),
                ws == ops.deep_view(),
                self.wf(),
                own.wf(),
                own@.key == self.key(),
                !own@.partial,
                own@ == self.run(start, ws.take(i as int)).state,
                out.deep_view() == self.run(start, ws.take(i as int)).out,
                rejected@.map_values(|p: usize| p as nat) == self.run(
                    start,
                    ws.take(i as int),
                ).rejected,
            decreases ops@.len() - i,
        {
            let ghost before = self.run(start, ws.take(i as int));
            let ghost w = ws[i as int];
            let ghost step = self.step(own@, w, i as nat);
            let ghost held = out.deep_view();
            let ghost refused = rejected@.map_values(|p: usize| p as nat);
            proof {
                assert(ws.take(i + 1).drop_last() =~= ws.take(i as int));
                assert(ws.take(i + 1).last() == w);
                assert(ws.take(i + 1).len() - 1 == i);
                assert(w == ops@[i as int]@);
                assert(self.primary_key@.len() == self.key().len());
            }
            let mut ok: bool = false;
            match &ops[i] {
                TableOperation::Insert(row) => {
                    match self.fix(row) {
                        Some(stored) => {
                            assert(stored@.len() == stored.deep_view().len());
                            let key = project_row(&stored, &self.primary_key);
                            let taken: bool = self.unique && match own.lookup(&key) {
                                LookupResult::Hit(rows) => {
                                    assert(rows.deep_view().len() == rows@.len());
                                    rows.len() > 0
                                },
                                LookupResult::Miss => false,
                            };
                            if !taken {
                                out.push(Record::Positive(clone_row(&stored)));
                                proof {
                                    assert(out.deep_view() =~= held + step.out);
                                    own@.lemma_insert_wf(stored.deep_view());
                                }
                                own.insert(stored);
                                ok = true;
                            }
                        },
                        None => {},
                    }
                },
                TableOperation::Delete { key } => {
                    assert(key.deep_view().len() == key@.len());
                    if self.primary_key.len() > 0 && key.len() == self.primary_key.len() {
                        match own.lookup(key) {
                            LookupResult::Hit(rows) => {
                                Self::push_deletions(&mut out, rows);
                            },
                            LookupResult::Miss => {},
                        }
                        let none: Vec<Vec<DataType>> = Vec::new();
                        proof {
                            assert(none.deep_view() =~= Seq::<Row>::empty());
                            assert(own@.files_under(key.deep_view(), none.deep_view()));
                        }
                        own.put(key, none);
                        ok = true;
                    }
                },
                TableOperation::Update { key, row } => {
                    assert(key.deep_view().len() == key@.len());
                    if self.primary_key.len() > 0 {
                        match self.fix(row) {
                            Some(stored) => {
                                assert(stored@.len() == stored.deep_view().len());
                                let stored_key = project_row(&stored, &self.primary_key);
                                if rows_equal(&stored_key, key) {
                                    match own.lookup(key) {
                                        LookupResult::Hit(rows) => {
                                            Self::push_deletions(&mut out, rows);
                                        },
                                        LookupResult::Miss => {},
                                    }
                                    let ghost deleted = out.deep_view();
                                    out.push(Record::Positive(clone_row(&stored)));
                                    let mut rows: Vec<Vec<DataType>> = Vec::new();
                                    let ghost sv = stored.deep_view();
                                    rows.push(stored);
                                    proof {
                                        let gone = signed(false, own@.lookup(key.deep_view()).unwrap());
                                        assert(deleted == held + gone);
                                        assert(out.deep_view() =~= deleted.push(
                                            SignedRow { positive: true, row: sv },
                                        ));
                                        assert(step.out == gone.push(
                                            SignedRow { positive: true, row: sv },
                                        ));
                                        assert(out.deep_view() =~= held + step.out);
                                        assert(rows.deep_view() =~= seq![sv]);
                                        assert(own@.files_under(key.deep_view(), rows.deep_view()));
                                    }
                                    own.put(key, rows);
                                    ok = true;
                                }
                            },
                            None => {},
                        }
                    }
                },
            }
            if !ok {
                rejected.push(i);
                proof {
                    assert(rejected@.map_values(|p: usize| p as nat) =~= refused.push(i as nat));
                    assert(held + step.out =~= held);
                    assert(before.rejected + step.rejected =~= before.rejected.push(i as nat));
                }
            } else {
                proof {
                    assert(out.deep_view() =~= before.out + step.out);
                    assert(before.rejected + step.rejected =~= before.rejected);
                }
            }
            i += 1;
        }
        assert(ws.take(ops@.len() as int) =~= ws);
        (out, rejected)
    }

    /// Where the rows of the state all have as many values as the base has columns, they
    /// still have after a batch of writes, and the state is still keyed as it was.
    pub proof fn lemma_run_uniform(self, m: Materialized, ws: Seq<Write>)
        requires
            m.uniform(self.width()),
            !m.partial,
        ensures
            self.run(m, ws).state.uniform(self.width()),
            self.run(m, ws).state.key == m.key,
            self.run(m, ws).state.partial == m.partial,
            rows_have_width(self.run(m, ws).out, self.width()),
        decreases ws.len(),
    {
        if ws.len() > 0 {
            self.lemma_run_uniform(m, ws.drop_last());
            let before = self.run(m, ws.drop_last());
            let step = self.step(before.state, ws.last(), (ws.len() - 1) as nat);
            match ws.last() {
                Write::Insert(row) => {
                    before.state.lemma_uniform_insert(self.fixed(row), self.width());
                },
                Write::Delete(key) => {
                    before.state.lemma_uniform_put(key, Seq::<Row>::empty(), self.width());
                },
                Write::Update(key, row) => {
                    before.state.lemma_uniform_put(key, seq![self.fixed(row)], self.width());
                },
            }
            assert(rows_have_width(step.out, self.width())) by {
                assert forall|i: int| 0 <= i < step.out.len() implies (
                #[trigger] step.out[i]).row.len() == self.width() by {
                    match ws.last() {
                        Write::Insert(row) => {
                            assert(step.out[i].row == self.fixed(row));
                        },
                        Write::Delete(key) => {
                            let held = before.state.lookup(key).unwrap();
                            assert(step.out == signed(false, held));
                            assert(before.state.rows.dom().contains(key));
                            assert(step.out[i].row == before.state.rows[key][i]);
                        },
                        Write::Update(key, row) => {
                            let held = before.state.lookup(key).unwrap();
                            if i < held.len() {
                                assert(before.state.rows.dom().contains(key));
                                assert(step.out[i].row == before.state.rows[key][i]);
                            } else {
                                assert(step.out[i].row == self.fixed(row));
                            }
                        },
                    }
                }
            }
            assert(rows_have_width(before.out + step.out, self.width())) by {
                assert forall|i: int| 0 <= i < (before.out + step.out).len() implies (
                #[trigger] (before.out + step.out)[i]).row.len() == self.width() by {
                    if i < before.out.len() {
                        assert((before.out + step.out)[i] == before.out[i]);
                    } else {
                        assert((before.out + step.out)[i] == step.out[i - before.out.len()]);
                    }
                }
            }
        }
    }

    /// Whether the base is sound.
    pub fn is_sound(&self) -> (b: bool)
        ensures
            b == self.wf(),
    {
        let width: usize = self.columns();
        self.initial <= width && crate::data::check_columns_within(&self.primary_key, width)
            && crate::data::check_columns_within(&self.dropped, width)
    }
}

} // verus!
