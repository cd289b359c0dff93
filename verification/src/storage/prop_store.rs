//! Columnar property storage: one column per (label, property name), one
//! row per node of the label, and a row counter per label.
//!
//! A store opened from a log (`PropStore::from_wal`) records every column
//! it changes, in full, in its log outbox; replaying the records rebuilds
//! the columns.

use vstd::prelude::*;
use dashmap::DashMap;
use crate::storage::backing::{
    column_map_contents, column_map_get, column_map_keys, column_map_len, column_map_new,
    column_map_put, column_map_take, schema_map_contents, schema_map_get, schema_map_len,
    schema_map_new, schema_map_put,
};
use crate::types::LabelId;

verus! {

/// A property value. Floating-point numbers are held by their IEEE-754 bit
/// patterns: `Float` holds an `f64`'s bits and `Vector` the bits of each
/// `f32` component.
#[derive(Debug, PartialEq)]
pub enum Value {
    Null,
    Bool(bool),
    Int(i64),
    Float(u64),
    String(String),
    List(Vec<Value>),
    Vector(Vec<u32>),
}

/// What a value holds, nested lists and vectors taken as sequences.
pub enum ValueModel {
    Null,
    Bool(bool),
    Int(i64),
    Float(u64),
    Str(Seq<char>),
    List(Seq<ValueModel>),
    Vector(Seq<u32>),
}

/// The models of a sequence of values.
pub open spec fn models_of(s: Seq<Value>) -> Seq<ValueModel>
    decreases s,
{
    if s.len() == 0 {
        Seq::empty()
    } else {
        models_of(s.drop_last()).push(s.last().model())
    }
}

impl Value {
    pub open spec fn model(self) -> ValueModel
        decreases self,
    {
        match self {
            Value::Null => ValueModel::Null,
            Value::Bool(b) => ValueModel::Bool(b),
            Value::Int(i) => ValueModel::Int(i),
            Value::Float(f) => ValueModel::Float(f),
            Value::String(s) => ValueModel::Str(s@),
            Value::List(items) => ValueModel::List(models_of(items@)),
            Value::Vector(v) => ValueModel::Vector(v@),
        }
    }

    /// A deep copy of this value.
    pub fn duplicate(&self) -> (r: Value)
        ensures
            r.model() == self.model(),
        decreases self,
    {
        match self {
            Value::Null => Value::Null,
            Value::Bool(b) => Value::Bool(*b),
            Value::Int(i) => Value::Int(*i),
            Value::Float(f) => Value::Float(*f),
            Value::String(t) => Value::String(t.clone()),
            Value::List(items) => {
                let mut out: Vec<Value> = Vec::new();
                let n = items.len();
                let mut i: usize = 0;
                while i < n
                    invariant
                        n == items@.len(),
                        0 <= i <= n,
                        out@.len() == i,
                        models_of(out@) == models_of(items@.take(i as int)),
                        *self == Value::List(*items),
                    decreases n - i,
                {
                    proof {
                        assert(*items == (*self)->List_0);
                        assert(decreases_to!(*self => (*self)->List_0));
                        assert(decreases_to!(*items => items@[i as int]));
                    }
                    let d = items[i].duplicate();
                    proof {
                        assert(out@.push(d).drop_last() =~= out@);
                        assert(items@.take(i + 1).drop_last() =~= items@.take(i as int));
                    }
                    out.push(d);
                    i += 1;
                }
                proof {
                    assert(items@.take(n as int) =~= items@);
                }
                Value::List(out)
            },
            Value::Vector(bits) => {
                let copy = bits.clone();
                assert(copy@ =~= bits@);
                Value::Vector(copy)
            },
        }
    }

    /// The text of a string value; the empty string for any other value.
    pub fn as_str(&self) -> (s: &str)
        ensures
            match self {
                Value::String(t) => s@ == t@,
                _ => s@.len() == 0,
            },
    {
        match self {
            Value::String(t) => t.as_str(),
            _ => {
                proof {
                    reveal_strlit("");
                }
                ""
            },
        }
    }
}

impl Clone for Value {
    fn clone(&self) -> (r: Self)
        ensures
            r.model() == self.model(),
    {
        self.duplicate()
    }
}

/// What a cell holds.
pub open spec fn cell_model(c: Option<Value>) -> Option<ValueModel> {
    match c {
        Some(v) => Some(v.model()),
        None => None,
    }
}

/// The models of a sequence of cells.
pub open spec fn cells_model(s: Seq<Option<Value>>) -> Seq<Option<ValueModel>> {
    s.map_values(|c: Option<Value>| cell_model(c))
}

/// One column: the values of one property across the rows of a label.
/// A row with no value holds `None`.
#[derive(Debug, Clone)]
pub struct PropertyColumn {
    values: Vec<Option<Value>>,
}

impl View for PropertyColumn {
    type V = Seq<Option<ValueModel>>;

    closed spec fn view(&self) -> Seq<Option<ValueModel>> {
        cells_model(self.values@)
    }
}

/// A column grown with empty cells to at least `min_len` rows.
pub open spec fn extended(cells: Seq<Option<ValueModel>>, min_len: nat) -> Seq<Option<ValueModel>> {
    if cells.len() < min_len {
        cells + Seq::new((min_len - cells.len()) as nat, |i: int| None::<ValueModel>)
    } else {
        cells
    }
}

impl PropertyColumn {
    /// A column holding `values`.
    pub fn from_values(values: Vec<Option<Value>>) -> (c: Self)
        ensures
            c@ == cells_model(values@),
    {
        PropertyColumn { values }
    }

    /// The column's cells, moved out.
    pub fn into_values(self) -> (v: Vec<Option<Value>>)
        ensures
            cells_model(v@) == self@,
    {
        self.values
    }

    /// An empty column.
    pub fn new() -> (c: Self)
        ensures
            c@ == Seq::<Option<ValueModel>>::empty(),
    {
        let c = PropertyColumn { values: Vec::new() };
        assert(c@ =~= Seq::<Option<ValueModel>>::empty());
        c
    }

    /// An empty column with room for `cap` rows.
    pub fn with_capacity(cap: usize) -> (c: Self)
        ensures
            c@ == Seq::<Option<ValueModel>>::empty(),
    {
        let c = PropertyColumn { values: Vec::with_capacity(cap) };
        assert(c@ =~= Seq::<Option<ValueModel>>::empty());
        c
    }

    /// Append a row and return its index (the old length, cut to 32 bits).
    pub fn push(&mut self, val: Option<Value>) -> (row: u32)
        ensures
            row == old(self)@.len() as u32,
            final(self)@ == old(self)@.push(cell_model(val)),
    {
        let row = self.values.len() as u32;
        self.values.push(val);
        proof {
            assert(final(self)@ =~= old(self)@.push(cell_model(val)));
        }
        row
    }

    /// The cell at `row`, or `None` past the end of the column.
    pub fn get(&self, row: u32) -> (r: Option<&Option<Value>>)
        ensures
            row < self@.len() ==> (r matches Some(c) && cell_model(*c) == self@[row as int]),
            row >= self@.len() ==> r is None,
    {
        if (row as usize) < self.values.len() {
            Some(&self.values[row as usize])
        } else {
            None
        }
    }

    /// Overwrite the cell at `row`; `false` (and no change) past the end.
    pub fn set(&mut self, row: u32, val: Option<Value>) -> (b: bool)
        ensures
            b == (row < old(self)@.len()),
            b ==> final(self)@ == old(self)@.update(row as int, cell_model(val)),
            !b ==> final(self)@ == old(self)@,
    {
        if (row as usize) < self.values.len() {
            self.values.set(row as usize, val);
            proof {
                assert(final(self)@ =~= old(self)@.update(row as int, cell_model(val)));
            }
            true
        } else {
            false
        }
    }

    /// Grow the column with empty cells to at least `min_len` rows.
    pub fn extend_to(&mut self, min_len: usize)
        ensures
            final(self)@ == extended(old(self)@, min_len as nat),
    {
        let start = self.values.len();
        while self.values.len() < min_len
            invariant
                start == old(self)@.len(),
                start <= self.values@.len(),
                start < min_len ==> self.values@.len() <= min_len,
                start >= min_len ==> self.values@.len() == start,
                self@ == old(self)@ + Seq::new((self.values@.len() - start) as nat, |i: int| None::<ValueModel>),
            decreases min_len - self.values@.len(),
        {
            let ghost pre = self@;
            self.values.push(None);
            proof {
                assert(self@ =~= pre.push(None));
                assert(self@ =~= old(self)@ + Seq::new((self.values@.len() - start) as nat, |i: int| None::<ValueModel>));
            }
        }
        proof {
            if start < min_len {
                assert(self@ =~= extended(old(self)@, min_len as nat));
            } else {
                assert(self@ =~= old(self)@);
            }
        }
    }

    /// The number of rows.
    pub fn len(&self) -> (n: usize)
        ensures
            n == self@.len(),
    {
        self.values.len()
    }

    /// A copy of this column, cell by cell.
    pub fn duplicate(&self) -> (c: Self)
        ensures
            c@ == self@,
    {
        let mut values: Vec<Option<Value>> = Vec::new();
        let mut i: usize = 0;
        while i < self.values.len()
            invariant
                0 <= i <= self.values@.len(),
                cells_model(values@) == cells_model(self.values@.take(i as int)),
            decreases self.values.len() - i,
        {
            let cell = match &self.values[i] {
                Some(v) => Some(v.duplicate()),
                None => None,
            };
            proof {
                assert(cell_model(cell) == cell_model(self.values@[i as int]));
                assert(self.values@.take(i + 1) =~= self.values@.take(i as int).push(self.values@[i as int]));
                assert(cells_model(values@.push(cell)) =~= cells_model(values@).push(cell_model(cell)));
                assert(cells_model(self.values@.take(i as int).push(self.values@[i as int]))
                    =~= cells_model(self.values@.take(i as int)).push(cell_model(self.values@[i as int])));
            }
            values.push(cell);
            i += 1;
        }
        proof {
            assert(self.values@.take(self.values@.len() as int) =~= self.values@);
        }
        PropertyColumn { values }
    }

    /// Move the cell at `row` out of the column, `None` past the end.
    fn into_cell(self, row: u32) -> (r: Option<Value>)
        ensures
            cell_model(r) == if row < self@.len() { self@[row as int] } else { None },
    {
        let mut values = self.values;
        if (row as usize) < values.len() {
            values.swap_remove(row as usize)
        } else {
            None
        }
    }
}

/// A label's row counter.
#[derive(Debug, Clone, Copy)]
pub struct LabelSchema {
    pub next_row: u32,
}

impl LabelSchema {
    /// A label with no rows yet.
    pub fn new() -> (s: Self)
        ensures
            s.next_row == 0,
    {
        LabelSchema { next_row: 0 }
    }
}

/// A column key: label and property name.
pub type ColumnKey = (LabelId, Seq<char>);

/// What a column record holds: key and cells.
pub type ColumnRecordView = (LabelId, Seq<char>, Seq<Option<ValueModel>>);

/// One column log record: the column's key and its full contents.
pub type ColumnRecord = (LabelId, String, Vec<Option<Value>>);

/// Replaying column records: each record writes its whole column.
pub open spec fn replay_columns(m: Map<ColumnKey, Seq<Option<ValueModel>>>, ops: Seq<ColumnRecordView>) -> Map<ColumnKey, Seq<Option<ValueModel>>>
    decreases ops.len(),
{
    if ops.len() == 0 {
        m
    } else {
        let (l, n, c) = ops.last();
        replay_columns(m, ops.drop_last()).insert((l, n), c)
    }
}

/// What the records of a column log hold.
pub open spec fn column_records_view(recs: Seq<ColumnRecord>) -> Seq<ColumnRecordView> {
    recs.map_values(|r: ColumnRecord| (r.0, r.1@, cells_model(r.2@)))
}

/// A label's row counter as recovery rebuilds it: the largest column length
/// (cut to 32 bits) recorded for the label.
pub open spec fn replay_rows(rows: Map<LabelId, u32>, recs: Seq<ColumnRecordView>) -> Map<LabelId, u32>
    decreases recs.len(),
{
    if recs.len() == 0 {
        rows
    } else {
        let pre = replay_rows(rows, recs.drop_last());
        let (l, n, c) = recs.last();
        let len = c.len() as u32;
        let cur: u32 = if pre.contains_key(l) { pre[l] } else { 0 };
        pre.insert(l, if cur < len { len } else { cur })
    }
}

/// A label's counter in a map of row counters (0 when absent).
pub open spec fn counter_of(rows: Map<LabelId, u32>, l: LabelId) -> u32 {
    if rows.contains_key(l) { rows[l] } else { 0 }
}

/// Recovery law for row counters: after replaying column records from
/// nothing, every recovered column whose length fits in 32 bits is no
/// longer than its label's row counter, so the next row handed out for the
/// label lies past every recovered cell; and no counter ever goes down
/// while records are replayed.
pub proof fn lemma_recovered_rows_cover_columns(recs: Seq<ColumnRecordView>)
    ensures
        forall|l: LabelId, n: Seq<char>|
            #![trigger replay_columns(Map::empty(), recs)[(l, n)]]
            replay_columns(Map::empty(), recs).contains_key((l, n))
            && replay_columns(Map::empty(), recs)[(l, n)].len() < 0x1_0000_0000
            ==> replay_columns(Map::empty(), recs)[(l, n)].len() <= counter_of(replay_rows(Map::empty(), recs), l),
        recs.len() > 0 ==> forall|l: LabelId| #[trigger] counter_of(replay_rows(Map::empty(), recs.drop_last()), l)
            <= counter_of(replay_rows(Map::empty(), recs), l),
    decreases recs.len(),
{
    if recs.len() > 0 {
        let init = recs.drop_last();
        lemma_recovered_rows_cover_columns(init);
        let (l0, n0, c0) = recs.last();
        let cm = replay_columns(Map::empty(), init);
        let rm = replay_rows(Map::empty(), init);
        assert forall|l: LabelId| #[trigger] counter_of(rm, l) <= counter_of(replay_rows(Map::empty(), recs), l) by {}
        assert forall|l: LabelId, n: Seq<char>|
            #![trigger replay_columns(Map::empty(), recs)[(l, n)]]
            replay_columns(Map::empty(), recs).contains_key((l, n))
            && replay_columns(Map::empty(), recs)[(l, n)].len() < 0x1_0000_0000
            implies replay_columns(Map::empty(), recs)[(l, n)].len() <= counter_of(replay_rows(Map::empty(), recs), l) by {
            if (l, n) == (l0, n0) {
                assert(c0.len() as u32 == c0.len());
            } else {
                assert(cm.contains_key((l, n)));
                assert(replay_columns(Map::empty(), recs)[(l, n)] == cm[(l, n)]);
                assert(cm[(l, n)].len() <= counter_of(rm, l));
                assert(counter_of(rm, l) <= counter_of(replay_rows(Map::empty(), recs), l));
            }
        }
    }
}

/// A column after writing `v` at `row`, grown as needed.
pub open spec fn written(col: Seq<Option<ValueModel>>, row: u32, v: Option<ValueModel>) -> Seq<Option<ValueModel>> {
    extended(col, row as nat + 1).update(row as int, v)
}

/// What a row of (property name, value) pairs holds.
pub open spec fn row_model(props: Seq<(String, Value)>) -> Seq<(Seq<char>, ValueModel)> {
    props.map_values(|p: (String, Value)| (p.0@, p.1.model()))
}

/// The columns after writing a row's properties one by one.
pub open spec fn write_row(m: Map<ColumnKey, Seq<Option<ValueModel>>>, label: LabelId, row: u32, props: Seq<(Seq<char>, ValueModel)>) -> Map<ColumnKey, Seq<Option<ValueModel>>>
    decreases props.len(),
{
    if props.len() == 0 {
        m
    } else {
        let pre = write_row(m, label, row, props.drop_last());
        let (name, v) = props.last();
        let col = if pre.contains_key((label, name)) { pre[(label, name)] } else { Seq::empty() };
        pre.insert((label, name), written(col, row, Some(v)))
    }
}

/// The column records that writing a row's properties logs, in order.
pub open spec fn row_log(m: Map<ColumnKey, Seq<Option<ValueModel>>>, label: LabelId, row: u32, props: Seq<(Seq<char>, ValueModel)>) -> Seq<ColumnRecordView>
    decreases props.len(),
{
    if props.len() == 0 {
        Seq::empty()
    } else {
        let (name, v) = props.last();
        row_log(m, label, row, props.drop_last()).push((label, name, write_row(m, label, row, props)[(label, name)]))
    }
}

/// An outbox after a batch of column records.
pub open spec fn logged_columns(w: Option<Seq<ColumnRecordView>>, recs: Seq<ColumnRecordView>) -> Option<Seq<ColumnRecordView>> {
    match w {
        Some(s) => Some(s + recs),
        None => None,
    }
}

pub struct PropStore {
    columns: DashMap<(LabelId, String), PropertyColumn>,
    schemas: DashMap<LabelId, LabelSchema>,
    wal: Option<Vec<(LabelId, String, PropertyColumn)>>,
    wal_base: Ghost<Map<ColumnKey, Seq<Option<ValueModel>>>>,
}

/// An outbox after one more column record.
pub open spec fn logged_column(w: Option<Seq<ColumnRecordView>>, rec: ColumnRecordView) -> Option<Seq<ColumnRecordView>> {
    match w {
        Some(s) => Some(s.push(rec)),
        None => None,
    }
}

impl PropStore {
    /// The columns: (label, property name) to cells.
    pub closed spec fn columns(&self) -> Map<ColumnKey, Seq<Option<ValueModel>>> {
        column_map_contents(self.columns)
    }

    /// The row counters: label to next row.
    pub closed spec fn rows(&self) -> Map<LabelId, u32> {
        schema_map_contents(self.schemas)
    }

    /// The column records waiting in the log outbox, or `None` for a store
    /// without a log.
    pub closed spec fn wal_ops(&self) -> Option<Seq<ColumnRecordView>> {
        match self.wal {
            Some(v) => Some(v@.map_values(|r: (LabelId, String, PropertyColumn)| (r.0, r.1@, r.2@))),
            None => None,
        }
    }

    /// The columns as of the last drain of the outbox.
    pub closed spec fn wal_base(&self) -> Map<ColumnKey, Seq<Option<ValueModel>>> {
        self.wal_base@
    }

    pub closed spec fn wf(&self) -> bool {
        &&& self.columns().dom().finite()
        &&& self.rows().dom().finite()
        &&& match self.wal_ops() {
            Some(ops) => replay_columns(self.wal_base(), ops) == self.columns(),
            None => true,
        }
    }

    /// The cells of a column, empty when the column does not exist.
    pub open spec fn column(&self, label: LabelId, name: Seq<char>) -> Seq<Option<ValueModel>> {
        if self.columns().contains_key((label, name)) {
            self.columns()[(label, name)]
        } else {
            Seq::empty()
        }
    }

    /// The cell of a column at a row: `None` when the column does not exist,
    /// the row is past its end, or the cell is empty.
    pub open spec fn cell(&self, label: LabelId, name: Seq<char>, row: u32) -> Option<ValueModel> {
        let col = self.column(label, name);
        if row < col.len() {
            col[row as int]
        } else {
            None
        }
    }

    /// A label's next row, 0 for a label never seen.
    pub open spec fn next_row(&self, label: LabelId) -> u32 {
        if self.rows().contains_key(label) {
            self.rows()[label]
        } else {
            0
        }
    }

    /// An empty in-memory store (no log).
    pub fn new() -> (s: Self)
        ensures
            s.wf(),
            s.columns() == Map::<ColumnKey, Seq<Option<ValueModel>>>::empty(),
            s.rows() == Map::<LabelId, u32>::empty(),
            s.wal_ops() is None,
    {
        let s = PropStore { columns: column_map_new(), schemas: schema_map_new(), wal: None, wal_base: Ghost(Map::empty()) };
        assert(s.columns() =~= Map::<ColumnKey, Seq<Option<ValueModel>>>::empty());
        assert(s.rows() =~= Map::<LabelId, u32>::empty());
        s
    }

    /// A store rebuilt from its log, with the log attached: each record
    /// writes its whole column, and each label's row counter becomes the
    /// largest column length recorded for it.
    pub fn from_wal(records: Option<Vec<ColumnRecord>>) -> (s: Self)
        ensures
            s.wf(),
            s.wal_ops() == Some(Seq::<ColumnRecordView>::empty()),
            s.wal_base() == s.columns(),
            match records {
                Some(r) => {
                    &&& s.columns() == replay_columns(Map::empty(), column_records_view(r@))
                    &&& s.rows() == replay_rows(Map::empty(), column_records_view(r@))
                },
                None => s.columns() == Map::<ColumnKey, Seq<Option<ValueModel>>>::empty() && s.rows() == Map::<LabelId, u32>::empty(),
            },
            forall|l: LabelId, n: Seq<char>| #![trigger s.columns()[(l, n)]]
                s.columns().contains_key((l, n)) && s.columns()[(l, n)].len() < 0x1_0000_0000
                ==> s.columns()[(l, n)].len() <= s.next_row(l),
    {
        let mut s = Self::new();
        match records {
            None => {},
            Some(recs) => {
                let ghost rv = recs@;
                let ghost all = column_records_view(rv);
                for rec in it: recs.into_iter()
                    invariant
                        it.seq() == rv,
                        all == column_records_view(rv),
                        s.wf(),
                        s.wal_ops() is None,
                        s.columns() == replay_columns(Map::empty(), all.take(it.index())),
                        s.rows() == replay_rows(Map::empty(), all.take(it.index())),
                {
                    let ghost k = it.index();
                    proof {
                        assert(all.take(k + 1).drop_last() =~= all.take(k));
                        assert(all.take(k + 1).last() == all[k]);
                    }
                    let (label, name, values) = rec;
                    let len = values.len() as u32;
                    column_map_put(&mut s.columns, label, name.as_str(), PropertyColumn { values });
                    let cur = match schema_map_get(&s.schemas, label) {
                        Some(sch) => sch.next_row,
                        None => 0,
                    };
                    if cur < len {
                        schema_map_put(&mut s.schemas, label, LabelSchema { next_row: len });
                    } else {
                        schema_map_put(&mut s.schemas, label, LabelSchema { next_row: cur });
                    }
                }
                proof {
                    assert(all.take(all.len() as int) =~= all);
                    lemma_recovered_rows_cover_columns(all);
                }
            },
        }
        s.wal = Some(Vec::new());
        s.wal_base = Ghost(s.columns());
        proof {
            assert(s.wal_ops()->0 =~= Seq::<ColumnRecordView>::empty());
        }
        s
    }

    /// Log the current contents of a column.
    fn log_column(&mut self, label: LabelId, name: &str)
        requires
            old(self).columns().contains_key((label, name@)),
        ensures
            final(self).columns() == old(self).columns(),
            final(self).rows() == old(self).rows(),
            final(self).wal_base() == old(self).wal_base(),
            final(self).wal_ops() == logged_column(old(self).wal_ops(), (label, name@, old(self).columns()[(label, name@)])),
    {
        if self.wal.is_some() {
            let snapshot = column_map_get(&self.columns, label, name);
            match snapshot {
                Some(col) => {
                    let key = name.to_string();
                    proof {
                        assert(key@ == name@);
                    }
                    if let Some(v) = &mut self.wal {
                        v.push((label, key, col));
                    }
                },
                None => {},
            }
        }
        proof {
            match old(self).wal {
                Some(v) => {
                    assert(self.wal_ops()->0 =~= old(self).wal_ops()->0.push((label, name@, old(self).columns()[(label, name@)])));
                },
                None => {},
            }
        }
    }

    /// Hand out the column records waiting in the outbox, oldest first, and
    /// empty it. Replaying them onto the columns as of the previous drain
    /// gives the current columns.
    pub fn take_wal(&mut self) -> (ops: Vec<(LabelId, String, PropertyColumn)>)
        requires
            old(self).wf(),
        ensures
            final(self).wf(),
            final(self).columns() == old(self).columns(),
            final(self).rows() == old(self).rows(),
            match old(self).wal_ops() {
                Some(pending) => {
                    &&& ops@.map_values(|r: (LabelId, String, PropertyColumn)| (r.0, r.1@, r.2@)) == pending
                    &&& replay_columns(old(self).wal_base(), pending) == old(self).columns()
                    &&& final(self).wal_ops() == Some(Seq::<ColumnRecordView>::empty())
                    &&& final(self).wal_base() == old(self).columns()
                },
                None => ops@.len() == 0 && final(self).wal_ops() is None,
            },
    {
        let out = match self.wal.take() {
            Some(v) => {
                self.wal = Some(Vec::new());
                self.wal_base = Ghost(column_map_contents(self.columns));
                v
            },
            None => Vec::new(),
        };
        proof {
            if self.wal.is_some() {
                assert(self.wal_ops()->0 =~= Seq::<ColumnRecordView>::empty());
            }
        }
        out
    }

    /// Allocate the next row of `label` (the counter wraps at 2^32).
    pub fn alloc_row(&mut self, label: LabelId) -> (row: u32)
        requires
            old(self).wf(),
        ensures
            final(self).wf(),
            row == old(self).next_row(label),
            final(self).rows() == old(self).rows().insert(label, vstd::wrapping::u32_specs::wrapping_add(row, 1)),
            final(self).columns() == old(self).columns(),
            final(self).wal_ops() == old(self).wal_ops(),
            final(self).wal_base() == old(self).wal_base(),
    {
        let cur = match schema_map_get(&self.schemas, label) {
            Some(sch) => sch.next_row,
            None => 0,
        };
        schema_map_put(&mut self.schemas, label, LabelSchema { next_row: cur.wrapping_add(1) });
        cur
    }

    /// Write `value` into the column (`label`, `prop`) at `row`, creating the
    /// column and growing it with empty cells as needed; returns `row`.
    pub fn insert_prop(&mut self, label: LabelId, prop: &str, row: u32, value: Option<Value>) -> (r: u32)
        requires
            old(self).wf(),
            (row as int) < usize::MAX,
        ensures
            final(self).wf(),
            r == row,
            final(self).columns() == old(self).columns().insert((label, prop@),
                written(old(self).column(label, prop@), row, cell_model(value))),
            final(self).rows() == old(self).rows(),
            final(self).wal_base() == old(self).wal_base(),
            final(self).wal_ops() == logged_column(old(self).wal_ops(),
                (label, prop@, written(old(self).column(label, prop@), row, cell_model(value)))),
    {
        let mut col = match column_map_take(&mut self.columns, label, prop) {
            Some(c) => c,
            None => PropertyColumn::new(),
        };
        col.extend_to(row as usize + 1);
        col.set(row, value);
        column_map_put(&mut self.columns, label, prop, col);
        proof {
            assert(self.columns() =~= old(self).columns().insert((label, prop@),
                written(old(self).column(label, prop@), row, cell_model(value))));
        }
        self.log_column(label, prop);
        proof {
            match self.wal_ops() {
                Some(ops) => {
                    assert(ops.drop_last() =~= old(self).wal_ops()->0);
                },
                None => {},
            }
        }
        row
    }

    /// The value in column (`label`, `prop`) at `row`, or `None`.
    pub fn get_prop(&self, label: LabelId, prop: &str, row: u32) -> (r: Option<Value>)
        ensures
            cell_model(r) == self.cell(label, prop@, row),
    {
        match column_map_get(&self.columns, label, prop) {
            Some(c) => c.into_cell(row),
            None => None,
        }
    }

    /// Overwrite the cell of an existing column at an existing row; `false`
    /// (and no change) when the column does not exist or the row is past its
    /// end.
    pub fn set_prop(&mut self, label: LabelId, prop: &str, row: u32, value: Option<Value>) -> (b: bool)
        requires
            old(self).wf(),
        ensures
            final(self).wf(),
            b == (old(self).columns().contains_key((label, prop@)) && row < old(self).column(label, prop@).len()),
            final(self).rows() == old(self).rows(),
            final(self).wal_base() == old(self).wal_base(),
            b ==> final(self).columns() == old(self).columns().insert((label, prop@),
                old(self).column(label, prop@).update(row as int, cell_model(value))),
            b ==> final(self).wal_ops() == logged_column(old(self).wal_ops(),
                (label, prop@, old(self).column(label, prop@).update(row as int, cell_model(value)))),
            !b ==> final(self).columns() == old(self).columns() && final(self).wal_ops() == old(self).wal_ops(),
    {
        match column_map_take(&mut self.columns, label, prop) {
            Some(mut c) => {
                let ok = c.set(row, value);
                column_map_put(&mut self.columns, label, prop, c);
                if ok {
                    proof {
                        assert(self.columns() =~= old(self).columns().insert((label, prop@),
                            old(self).column(label, prop@).update(row as int, cell_model(value))));
                    }
                    self.log_column(label, prop);
                    proof {
                        match self.wal_ops() {
                            Some(ops) => {
                                assert(ops.drop_last() =~= old(self).wal_ops()->0);
                            },
                            None => {},
                        }
                    }
                } else {
                    assert(self.columns() =~= old(self).columns());
                }
                ok
            },
            None => {
                assert(self.columns() =~= old(self).columns());
                false
            },
        }
    }

    /// Allocate the next row of `label` and write each property into it, in
    /// order; returns the row.
    pub fn insert_row(&mut self, label: LabelId, props: &[(String, Value)]) -> (row: u32)
        requires
            old(self).wf(),
            (old(self).next_row(label) as int) < usize::MAX,
        ensures
            final(self).wf(),
            row == old(self).next_row(label),
            final(self).rows() == old(self).rows().insert(label, vstd::wrapping::u32_specs::wrapping_add(row, 1)),
            final(self).columns() == write_row(old(self).columns(), label, row, row_model(props@)),
            final(self).wal_base() == old(self).wal_base(),
            final(self).wal_ops() == logged_columns(old(self).wal_ops(),
                row_log(old(self).columns(), label, row, row_model(props@))),
    {
        let row = self.alloc_row(label);
        let ghost pv = row_model(props@);
        let ghost c0 = old(self).columns();
        let mut i: usize = 0;
        while i < props.len()
            invariant
                0 <= i <= props@.len(),
                pv == row_model(props@),
                (row as int) < usize::MAX,
                self.wf(),
                self.rows() == old(self).rows().insert(label, vstd::wrapping::u32_specs::wrapping_add(row, 1)),
                self.wal_base() == old(self).wal_base(),
                self.columns() == write_row(c0, label, row, pv.take(i as int)),
                self.wal_ops() == logged_columns(old(self).wal_ops(), row_log(c0, label, row, pv.take(i as int))),
            decreases props@.len() - i,
        {
            let ghost k = i as int;
            let name: &str = props[i].0.as_str();
            let value = props[i].1.duplicate();
            proof {
                assert(pv.take(k + 1).drop_last() =~= pv.take(k));
                assert(pv.take(k + 1).last() == (name@, value.model()));
            }
            self.insert_prop(label, name, row, Some(value));
            proof {
                let w = write_row(c0, label, row, pv.take(k));
                let col = if w.contains_key((label, name@)) { w[(label, name@)] } else { Seq::empty() };
                assert(self.columns() == w.insert((label, name@), written(col, row, Some(value.model()))));
                assert(write_row(c0, label, row, pv.take(k + 1))[(label, name@)] == written(col, row, Some(value.model())));
                match old(self).wal_ops() {
                    Some(s) => {
                        assert(s + row_log(c0, label, row, pv.take(k + 1)) =~= (s + row_log(c0, label, row, pv.take(k))).push(
                            (label, name@, written(col, row, Some(value.model())))));
                    },
                    None => {},
                }
            }
            i = i + 1;
        }
        proof {
            assert(pv.take(pv.len() as int) =~= pv);
        }
        row
    }

    /// The properties set in `row` of `label`: each column of the label whose
    /// cell at the row holds a value gives one (name, value) pair, in the
    /// column map's internal order.
    #[verifier::spinoff_prover]
    pub fn get_row(&self, label: LabelId, row: u32) -> (r: Vec<(String, Value)>)
        ensures
            forall|i: int| 0 <= i < r@.len() ==> self.cell(label, (#[trigger] r@[i]).0@, row) == Some(r@[i].1.model()),
            forall|i: int, j: int| 0 <= i < j < r@.len() ==> (#[trigger] r@[i]).0@ != (#[trigger] r@[j]).0@,
            forall|name: Seq<char>| #[trigger] self.cell(label, name, row) is Some
                ==> exists|i: int| 0 <= i < r@.len() && (#[trigger] r@[i]).0@ == name,
    {
        let keys = column_map_keys(&self.columns);
        let ghost ks = keys@;
        let mut r: Vec<(String, Value)> = Vec::new();
        let ghost mut src: Seq<int> = Seq::empty();
        for key in it: keys.into_iter()
            invariant
                it.seq() == ks,
                forall|i: int| 0 <= i < ks.len() ==> self.columns().contains_key((#[trigger] ks[i].0, ks[i].1@)),
                forall|i: int, j: int| 0 <= i < j < ks.len() ==> (#[trigger] ks[i].0, ks[i].1@) != (#[trigger] ks[j].0, ks[j].1@),
                src.len() == r@.len(),
                forall|j: int| 0 <= j < src.len() ==> 0 <= #[trigger] src[j] < it.index()
                    && ks[src[j]].0 == label && ks[src[j]].1@ == r@[j].0@
                    && self.cell(label, r@[j].0@, row) == Some(r@[j].1.model()),
                forall|a: int, b: int| 0 <= a < b < src.len() ==> #[trigger] src[a] < #[trigger] src[b],
                forall|k: int| 0 <= k < it.index() && (#[trigger] ks[k]).0 == label && self.cell(label, ks[k].1@, row) is Some
                    ==> exists|j: int| 0 <= j < r@.len() && r@[j].0@ == ks[k].1@,
        {
            let ghost k = it.index();
            let ghost r0 = r@;
            let (l, name) = key;
            if l == label {
                match column_map_get(&self.columns, l, name.as_str()) {
                    Some(c) => {
                        match c.into_cell(row) {
                            Some(v) => {
                                let ghost src0 = src;
                                r.push((name, v));
                                proof {
                                    src = src.push(k);
                                    assert(r@[r0.len() as int].0@ == ks[k].1@);
                                    assert forall|j: int| 0 <= j < src.len() implies 0 <= #[trigger] src[j] < k + 1
                                        && ks[src[j]].0 == label && ks[src[j]].1@ == r@[j].0@
                                        && self.cell(label, r@[j].0@, row) == Some(r@[j].1.model()) by {
                                        if j < src0.len() {
                                            assert(src[j] == src0[j]);
                                            assert(r@[j] == r0[j]);
                                        }
                                    }
                                }
                            },
                            None => {},
                        }
                    },
                    None => {},
                }
            }
            proof {
                assert forall|kk: int| 0 <= kk < k + 1 && (#[trigger] ks[kk]).0 == label && self.cell(label, ks[kk].1@, row) is Some
                    implies exists|j: int| 0 <= j < r@.len() && r@[j].0@ == ks[kk].1@ by {
                    if kk < k {
                        let j = choose|j: int| 0 <= j < r0.len() && r0[j].0@ == ks[kk].1@;
                        assert(r@[j] == r0[j]);
                    } else {
                        assert(r@[r0.len() as int].0@ == ks[k].1@);
                    }
                }
            }
        }
        proof {
            assert forall|i: int| 0 <= i < r@.len() implies self.cell(label, (#[trigger] r@[i]).0@, row) == Some(r@[i].1.model()) by {
                assert(0 <= src[i]);
            }
            assert forall|i: int, j: int| 0 <= i < j < r@.len() implies (#[trigger] r@[i]).0@ != (#[trigger] r@[j]).0@ by {
                assert(src[i] < src[j]);
                assert((ks[src[i]].0, ks[src[i]].1@) != (ks[src[j]].0, ks[src[j]].1@));
            }
            assert forall|name: Seq<char>| #[trigger] self.cell(label, name, row) is Some
                implies exists|i: int| 0 <= i < r@.len() && (#[trigger] r@[i]).0@ == name by {
                assert(self.columns().contains_key((label, name)));
                let k = choose|k: int| 0 <= k < ks.len() && (#[trigger] ks[k].0, ks[k].1@) == (label, name);
                assert(ks[k].0 == label);
            }
        }
        r
    }

    /// The number of columns.
    pub fn column_count(&self) -> (n: usize)
        ensures
            n == self.columns().len(),
    {
        column_map_len(&self.columns)
    }

    /// The number of labels that have allocated rows.
    pub fn label_count(&self) -> (n: usize)
        ensures
            n == self.rows().len(),
    {
        schema_map_len(&self.schemas)
    }

    /// The number of rows allocated for `label` (its next row).
    pub fn row_count(&self, label: LabelId) -> (n: u32)
        ensures
            n == self.next_row(label),
    {
        match schema_map_get(&self.schemas, label) {
            Some(sch) => sch.next_row,
            None => 0,
        }
    }

    /// The sync point for durability. This store keeps no file of its own:
    /// its records leave through `take_wal`, so there is nothing to sync here.
    pub fn flush(&self) {
    }
}

/// Replaying two batches of column records one after the other is
/// replaying their concatenation.
pub proof fn lemma_replay_columns_concat(m: Map<ColumnKey, Seq<Option<ValueModel>>>, a: Seq<ColumnRecordView>, b: Seq<ColumnRecordView>)
    ensures
        replay_columns(replay_columns(m, a), b) == replay_columns(m, a + b),
    decreases b.len(),
{
    if b.len() == 0 {
        assert(a + b =~= a);
    } else {
        lemma_replay_columns_concat(m, a, b.drop_last());
        assert((a + b).drop_last() =~= a + b.drop_last());
        assert((a + b).last() == b.last());
    }
}

/// Recovery law: a property store whose outbox was last drained when it
/// held what the column log `recs` rebuilds, and whose outbox now holds
/// the records `later`, holds exactly the columns that the log rebuilds
/// once `later` is appended to it.
pub proof fn lemma_prop_recovery(store: &PropStore, recs: Seq<ColumnRecord>, later: Seq<ColumnRecord>)
    requires
        store.wf(),
        store.wal_base() == replay_columns(Map::empty(), column_records_view(recs)),
        store.wal_ops() == Some(column_records_view(later)),
    ensures
        replay_columns(Map::empty(), column_records_view(recs + later)) == store.columns(),
{
    assert(column_records_view(recs + later) =~= column_records_view(recs) + column_records_view(later));
    lemma_replay_columns_concat(Map::empty(), column_records_view(recs), column_records_view(later));
}

} // verus!
