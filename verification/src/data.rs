//! Values, rows and signed records: what flows along the edges of the graph.

use vstd::prelude::*;
use vstd::std_specs::cmp::PartialEqSpecImpl;
use vstd::utf8::encode_utf8;

verus! {

/// The mathematical value that a [`DataType`] stands for.
pub enum Value {
    /// The SQL null.
    Null,
    /// A truth value.
    Bool(bool),
    /// A signed integer of at most 64 bits.
    Int(int),
    /// An unsigned integer of at most 64 bits.
    UnsignedInt(int),
    /// A point in time, in microseconds since the Unix epoch.
    Timestamp(int),
    /// A text.
    Text(Seq<char>),
    /// A string of bytes.
    Bytes(Seq<u8>),
}

/// One value of a row.
#[derive(Debug)]
pub enum DataType {
    /// The SQL null.
    Null,
    /// A truth value.
    Bool(bool),
    /// A signed integer.
    Int(i64),
    /// An unsigned integer.
    UnsignedInt(u64),
    /// A point in time, in microseconds since the Unix epoch.
    Timestamp(i64),
    /// A text.
    Text(String),
    /// A string of bytes.
    Bytes(Vec<u8>),
}

impl View for DataType {
    type V = Value;

    open spec fn view(&self) -> Value {
        match *self {
            DataType::Null => Value::Null,
            DataType::Bool(b) => Value::Bool(b),
            DataType::Int(n) => Value::Int(n as int),
            DataType::UnsignedInt(n) => Value::UnsignedInt(n as int),
            DataType::Timestamp(n) => Value::Timestamp(n as int),
            DataType::Text(s) => Value::Text(s@),
            DataType::Bytes(b) => Value::Bytes(b@),
        }
    }
}

impl DeepView for DataType {
    type V = Value;

    open spec fn deep_view(&self) -> Value {
        self@
    }
}

/// The outcome of comparing two things in a total order.
#[derive(Clone, Copy, Debug, PartialEq, Eq, Structural)]
pub enum Comparison {
    /// The first is smaller.
    Less,
    /// Neither is smaller.
    Equal,
    /// The first is greater.
    Greater,
}

impl Comparison {
    /// The outcome with the two sides exchanged.
    pub open spec fn spec_reverse(self) -> Comparison {
        match self {
            Comparison::Less => Comparison::Greater,
            Comparison::Equal => Comparison::Equal,
            Comparison::Greater => Comparison::Less,
        }
    }

    /// The outcome with the two sides exchanged.
    pub fn reverse(self) -> (r: Comparison)
        ensures
            r == self.spec_reverse(),
    {
        match self {
            Comparison::Less => Comparison::Greater,
            Comparison::Equal => Comparison::Equal,
            Comparison::Greater => Comparison::Less,
        }
    }
}

/// The natural order of the integers.
pub open spec fn compare_ints(a: int, b: int) -> Comparison {
    if a < b {
        Comparison::Less
    } else if a == b {
        Comparison::Equal
    } else {
        Comparison::Greater
    }
}

/// The lexicographic order of byte strings.
pub open spec fn compare_bytes(a: Seq<u8>, b: Seq<u8>) -> Comparison
    decreases a.len(),
{
    if a.len() == 0 && b.len() == 0 {
        Comparison::Equal
    } else if a.len() == 0 {
        Comparison::Less
    } else if b.len() == 0 {
        Comparison::Greater
    } else if a[0] < b[0] {
        Comparison::Less
    } else if a[0] > b[0] {
        Comparison::Greater
    } else {
        compare_bytes(a.skip(1), b.skip(1))
    }
}

/// The position of a value's kind in the order of the kinds: null first, bytes last.
pub open spec fn kind_rank(v: Value) -> int {
    match v {
        Value::Null => 0,
        Value::Bool(_) => 1,
        Value::Int(_) => 2,
        Value::UnsignedInt(_) => 3,
        Value::Timestamp(_) => 4,
        Value::Text(_) => 5,
        Value::Bytes(_) => 6,
    }
}

/// The natural order of values: by kind first; within one kind `false` before `true`,
/// numbers by size, texts by their UTF-8 bytes and byte strings lexicographically.
pub open spec fn compare_values(a: Value, b: Value) -> Comparison {
    if kind_rank(a) != kind_rank(b) {
        compare_ints(kind_rank(a), kind_rank(b))
    } else {
        match (a, b) {
            (Value::Bool(x), Value::Bool(y)) => compare_ints(
                if x {
                    1
                } else {
                    0
                },
                if y {
                    1
                } else {
                    0
                },
            ),
            (Value::Int(x), Value::Int(y)) => compare_ints(x, y),
            (Value::UnsignedInt(x), Value::UnsignedInt(y)) => compare_ints(x, y),
            (Value::Timestamp(x), Value::Timestamp(y)) => compare_ints(x, y),
            (Value::Text(x), Value::Text(y)) => compare_bytes(encode_utf8(x), encode_utf8(y)),
            (Value::Bytes(x), Value::Bytes(y)) => compare_bytes(x, y),
            _ => Comparison::Equal,
        }
    }
}

/// Comparing byte strings the other way round gives the reverse outcome.
pub proof fn lemma_compare_bytes_reverse(a: Seq<u8>, b: Seq<u8>)
    ensures
        compare_bytes(b, a) == compare_bytes(a, b).spec_reverse(),
    decreases a.len(),
{
    if a.len() > 0 && b.len() > 0 && a[0] == b[0] {
        lemma_compare_bytes_reverse(a.skip(1), b.skip(1));
    }
}

/// Byte strings compare equal exactly when they are the same.
pub proof fn lemma_compare_bytes_equal(a: Seq<u8>, b: Seq<u8>)
    ensures
        (compare_bytes(a, b) == Comparison::Equal) <==> a == b,
    decreases a.len(),
{
    if a.len() > 0 && b.len() > 0 && a[0] == b[0] {
        lemma_compare_bytes_equal(a.skip(1), b.skip(1));
        if a.skip(1) == b.skip(1) {
            assert(a =~= seq![a[0]] + a.skip(1));
            assert(b =~= seq![b[0]] + b.skip(1));
        }
        if a == b {
            assert(a.skip(1) == b.skip(1));
        }
    } else if a.len() == 0 && b.len() == 0 {
        assert(a =~= b);
    }
}

/// The order of byte strings is transitive.
pub proof fn lemma_compare_bytes_transitive(a: Seq<u8>, b: Seq<u8>, c: Seq<u8>)
    requires
        compare_bytes(a, b) != Comparison::Greater,
        compare_bytes(b, c) != Comparison::Greater,
    ensures
        compare_bytes(a, c) != Comparison::Greater,
        compare_bytes(a, b) == Comparison::Less || compare_bytes(b, c) == Comparison::Less
            ==> compare_bytes(a, c) == Comparison::Less,
    decreases a.len(),
{
    if a.len() > 0 && b.len() > 0 && c.len() > 0 && a[0] == b[0] && b[0] == c[0] {
        lemma_compare_bytes_transitive(a.skip(1), b.skip(1), c.skip(1));
    }
}

/// Comparing values the other way round gives the reverse outcome.
pub proof fn lemma_compare_values_reverse(a: Value, b: Value)
    ensures
        compare_values(b, a) == compare_values(a, b).spec_reverse(),
{
    match (a, b) {
        (Value::Text(x), Value::Text(y)) => {
            lemma_compare_bytes_reverse(encode_utf8(x), encode_utf8(y));
        },
        (Value::Bytes(x), Value::Bytes(y)) => {
            lemma_compare_bytes_reverse(x, y);
        },
        _ => {},
    }
}

/// The order of values is transitive.
pub proof fn lemma_compare_values_transitive(a: Value, b: Value, c: Value)
    requires
        compare_values(a, b) != Comparison::Greater,
        compare_values(b, c) != Comparison::Greater,
    ensures
        compare_values(a, c) != Comparison::Greater,
        compare_values(a, b) == Comparison::Less || compare_values(b, c) == Comparison::Less
            ==> compare_values(a, c) == Comparison::Less,
{
    match (a, b, c) {
        (Value::Text(x), Value::Text(y), Value::Text(z)) => {
            lemma_compare_bytes_transitive(encode_utf8(x), encode_utf8(y), encode_utf8(z));
        },
        (Value::Bytes(x), Value::Bytes(y), Value::Bytes(z)) => {
            lemma_compare_bytes_transitive(x, y, z);
        },
        _ => {},
    }
}

/// Compares two byte strings lexicographically.
pub fn compare_byte_slices(a: &[u8], b: &[u8]) -> (c: Comparison)
    ensures
        c == compare_bytes(a@, b@),
{
    let mut i: usize = 0;
    proof {
        assert(a@.skip(0) =~= a@);
        assert(b@.skip(0) =~= b@);
    }
    while i < a.len() && i < b.len()
        invariant
            i <= a@.len(),
            i <= b@.len(),
            compare_bytes(a@, b@) == compare_bytes(a@.skip(i as int), b@.skip(i as int)),
        decreases a@.len() - i,
    {
        proof {
            assert(a@.skip(i as int).skip(1) =~= a@.skip(i + 1));
            assert(b@.skip(i as int).skip(1) =~= b@.skip(i + 1));
        }
        if a[i] < b[i] {
            return Comparison::Less;
        }
        if a[i] > b[i] {
            return Comparison::Greater;
        }
        i += 1;
    }
    if i == a.len() && i == b.len() {
        Comparison::Equal
    } else if i == a.len() {
        Comparison::Less
    } else {
        Comparison::Greater
    }
}

fn compare_i64(a: i64, b: i64) -> (c: Comparison)
    ensures
        c == compare_ints(a as int, b as int),
{
    if a < b {
        Comparison::Less
    } else if a == b {
        Comparison::Equal
    } else {
        Comparison::Greater
    }
}

fn compare_u64(a: u64, b: u64) -> (c: Comparison)
    ensures
        c == compare_ints(a as int, b as int),
{
    if a < b {
        Comparison::Less
    } else if a == b {
        Comparison::Equal
    } else {
        Comparison::Greater
    }
}

impl DataType {
    /// The position of this value's kind in the order of the kinds.
    fn rank(&self) -> (r: u64)
        ensures
            r == kind_rank(self@),
    {
        match self {
            DataType::Null => 0,
            DataType::Bool(_) => 1,
            DataType::Int(_) => 2,
            DataType::UnsignedInt(_) => 3,
            DataType::Timestamp(_) => 4,
            DataType::Text(_) => 5,
            DataType::Bytes(_) => 6,
        }
    }

    /// Compares this value with another in the natural order of values.
    pub fn compare(&self, other: &DataType) -> (c: Comparison)
        ensures
            c == compare_values(self@, other@),
    {
        let ra: u64 = self.rank();
        let rb: u64 = other.rank();
        if ra != rb {
            return compare_u64(ra, rb);
        }
        match (self, other) {
            (DataType::Bool(x), DataType::Bool(y)) => compare_u64(
                if *x {
                    1
                } else {
                    0
                },
                if *y {
                    1
                } else {
                    0
                },
            ),
            (DataType::Int(x), DataType::Int(y)) => compare_i64(*x, *y),
            (DataType::UnsignedInt(x), DataType::UnsignedInt(y)) => compare_u64(*x, *y),
            (DataType::Timestamp(x), DataType::Timestamp(y)) => compare_i64(*x, *y),
            (DataType::Text(x), DataType::Text(y)) => compare_byte_slices(
                x.as_str().as_bytes(),
                y.as_str().as_bytes(),
            ),
            (DataType::Bytes(x), DataType::Bytes(y)) => compare_byte_slices(
                x.as_slice(),
                y.as_slice(),
            ),
            _ => Comparison::Equal,
        }
    }

    /// Whether this value and another stand for the same value.
    pub fn equals(&self, other: &DataType) -> (b: bool)
        ensures
            b == (self@ == other@),
    {
        match (self, other) {
            (DataType::Null, DataType::Null) => true,
            (DataType::Bool(x), DataType::Bool(y)) => *x == *y,
            (DataType::Int(x), DataType::Int(y)) => *x == *y,
            (DataType::UnsignedInt(x), DataType::UnsignedInt(y)) => *x == *y,
            (DataType::Timestamp(x), DataType::Timestamp(y)) => *x == *y,
            (DataType::Text(x), DataType::Text(y)) => *x == *y,
            (DataType::Bytes(x), DataType::Bytes(y)) => {
                let c = compare_byte_slices(x.as_slice(), y.as_slice());
                proof {
                    lemma_compare_bytes_equal(x@, y@);
                }
                c == Comparison::Equal
            },
            _ => false,
        }
    }

    /// A copy of this value that shares nothing with it.
    pub fn deep_clone(&self) -> (d: DataType)
        ensures
            d@ == self@,
    {
        match self {
            DataType::Null => DataType::Null,
            DataType::Bool(x) => DataType::Bool(*x),
            DataType::Int(x) => DataType::Int(*x),
            DataType::UnsignedInt(x) => DataType::UnsignedInt(*x),
            DataType::Timestamp(x) => DataType::Timestamp(*x),
            DataType::Text(x) => DataType::Text(x.clone()),
            DataType::Bytes(x) => {
                let y = x.clone();
                assert(y@ =~= x@);
                DataType::Bytes(y)
            },
        }
    }

    /// Whether this is the null value.
    pub fn is_none(&self) -> (b: bool)
        ensures
            b == (self@ == Value::Null),
    {
        match self {
            DataType::Null => true,
            _ => false,
        }
    }
}

impl PartialEq for DataType {
    fn eq(&self, other: &DataType) -> (e: bool) {
        self.equals(other)
    }
}

impl PartialEqSpecImpl for DataType {
    open spec fn obeys_eq_spec() -> bool {
        true
    }

    open spec fn eq_spec(&self, other: &DataType) -> bool {
        self@ == other@
    }
}

impl Clone for DataType {
    fn clone(&self) -> (d: DataType)
        ensures
            d@ == self@,
    {
        self.deep_clone()
    }
}

impl From<i64> for DataType {
    fn from(n: i64) -> (d: DataType) {
        DataType::Int(n)
    }
}

impl vstd::std_specs::convert::FromSpecImpl<i64> for DataType {
    open spec fn obeys_from_spec() -> bool {
        true
    }

    open spec fn from_spec(n: i64) -> DataType {
        DataType::Int(n)
    }
}

impl From<i32> for DataType {
    fn from(n: i32) -> (d: DataType) {
        DataType::Int(n as i64)
    }
}

impl vstd::std_specs::convert::FromSpecImpl<i32> for DataType {
    open spec fn obeys_from_spec() -> bool {
        true
    }

    open spec fn from_spec(n: i32) -> DataType {
        DataType::Int(n as i64)
    }
}

impl From<u64> for DataType {
    fn from(n: u64) -> (d: DataType) {
        DataType::UnsignedInt(n)
    }
}

impl vstd::std_specs::convert::FromSpecImpl<u64> for DataType {
    open spec fn obeys_from_spec() -> bool {
        true
    }

    open spec fn from_spec(n: u64) -> DataType {
        DataType::UnsignedInt(n)
    }
}

impl From<bool> for DataType {
    fn from(b: bool) -> (d: DataType) {
        DataType::Bool(b)
    }
}

impl vstd::std_specs::convert::FromSpecImpl<bool> for DataType {
    open spec fn obeys_from_spec() -> bool {
        true
    }

    open spec fn from_spec(b: bool) -> DataType {
        DataType::Bool(b)
    }
}

impl From<String> for DataType {
    fn from(s: String) -> (d: DataType) {
        DataType::Text(s)
    }
}

impl vstd::std_specs::convert::FromSpecImpl<String> for DataType {
    open spec fn obeys_from_spec() -> bool {
        true
    }

    open spec fn from_spec(s: String) -> DataType {
        DataType::Text(s)
    }
}

impl<'a> From<&'a str> for DataType {
    fn from(s: &'a str) -> (d: DataType)
        ensures
            d@ == Value::Text(s@),
    {
        DataType::Text(String::from_str(s))
    }
}

impl<'a> vstd::std_specs::convert::FromSpecImpl<&'a str> for DataType {
    open spec fn obeys_from_spec() -> bool {
        false
    }

    open spec fn from_spec(s: &'a str) -> DataType {
        DataType::Null
    }
}

/// The values that a row stands for.
pub type Row = Seq<Value>;

/// Whether two rows hold the same values.
pub fn rows_equal(a: &Vec<DataType>, b: &Vec<DataType>) -> (e: bool)
    ensures
        e == (a.deep_view() == b.deep_view()),
{
    if a.len() != b.len() {
        proof {
            assert(a.deep_view().len() == a@.len());
            assert(b.deep_view().len() == b@.len());
        }
        return false;
    }
    let mut i: usize = 0;
    while i < a.len()
        invariant
            a@.len() == b@.len(),
            i <= a@.len(),
            forall|j: int| 0 <= j < i ==> a@[j]@ == b@[j]@,
        decreases a@.len() - i,
    {
        if !a[i].equals(&b[i]) {
            proof {
                assert(a.deep_view()[i as int] == a@[i as int]@);
                assert(b.deep_view()[i as int] == b@[i as int]@);
            }
            return false;
        }
        i += 1;
    }
    assert(a.deep_view() =~= b.deep_view());
    true
}

/// A copy of a row that shares nothing with it.
pub fn clone_row(row: &Vec<DataType>) -> (r: Vec<DataType>)
    ensures
        r.deep_view() == row.deep_view(),
{
    let mut r: Vec<DataType> = Vec::with_capacity(row.len());
    let mut i: usize = 0;
    while i < row.len()
        invariant
            i <= row@.len(),
            r@.len() == i,
            forall|j: int| 0 <= j < i ==> r@[j]@ == row@[j]@,
        decreases row@.len() - i,
    {
        r.push(row[i].deep_clone());
        i += 1;
    }
    assert(r.deep_view() =~= row.deep_view());
    r
}

/// A copy of a list of rows that shares nothing with it.
pub fn clone_rows(rows: &Vec<Vec<DataType>>) -> (r: Vec<Vec<DataType>>)
    ensures
        r.deep_view() == rows.deep_view(),
{
    let mut r: Vec<Vec<DataType>> = Vec::with_capacity(rows.len());
    let mut i: usize = 0;
    while i < rows.len()
        invariant
            i <= rows@.len(),
            r@.len() == i,
            forall|j: int| 0 <= j < i ==> r@[j].deep_view() == rows@[j].deep_view(),
        decreases rows@.len() - i,
    {
        r.push(clone_row(&rows[i]));
        i += 1;
    }
    assert(r.deep_view() =~= rows.deep_view());
    r
}

/// The values of `row` at the columns `cols`, in the order of `cols`.
pub open spec fn project(row: Row, cols: Seq<usize>) -> Row {
    Seq::new(cols.len(), |i: int| row[cols[i] as int])
}

/// Whether every column of `cols` exists in a row of `width` values.
pub open spec fn columns_within(cols: Seq<usize>, width: nat) -> bool {
    forall|i: int| 0 <= i < cols.len() ==> (#[trigger] cols[i]) < width
}

/// Checks that every column of `cols` exists in a row of `width` values.
pub fn check_columns_within(cols: &Vec<usize>, width: usize) -> (b: bool)
    ensures
        b == columns_within(cols@, width as nat),
{
    let mut i: usize = 0;
    while i < cols.len()
        invariant
            i <= cols@.len(),
            forall|j: int| 0 <= j < i ==> (#[trigger] cols@[j]) < width,
        decreases cols@.len() - i,
    {
        if cols[i] >= width {
            return false;
        }
        i += 1;
    }
    true
}

/// Whether two lists of columns are the same.
pub fn same_columns(a: &Vec<usize>, b: &Vec<usize>) -> (e: bool)
    ensures
        e == (a@ == b@),
{
    if a.len() != b.len() {
        return false;
    }
    let mut i: usize = 0;
    while i < a.len()
        invariant
            a@.len() == b@.len(),
            i <= a@.len(),
            forall|j: int| 0 <= j < i ==> a@[j] == b@[j],
        decreases a@.len() - i,
    {
        if a[i] != b[i] {
            return false;
        }
        i += 1;
    }
    assert(a@ =~= b@);
    true
}

/// Copies out the values of `row` at the columns `cols`.
pub fn project_row(row: &Vec<DataType>, cols: &Vec<usize>) -> (r: Vec<DataType>)
    requires
        columns_within(cols@, row@.len()),
    ensures
        r.deep_view() == project(row.deep_view(), cols@),
{
    let mut r: Vec<DataType> = Vec::with_capacity(cols.len());
    let mut i: usize = 0;
    while i < cols.len()
        invariant
            columns_within(cols@, row@.len()),
            i <= cols@.len(),
            r@.len() == i,
            forall|j: int| 0 <= j < i ==> r@[j]@ == row@[cols@[j] as int]@,
        decreases cols@.len() - i,
    {
        r.push(row[cols[i]].deep_clone());
        i += 1;
    }
    assert(r.deep_view() =~= project(row.deep_view(), cols@));
    r
}

/// What a [`Record`] stands for: a row and a sign.
pub struct SignedRow {
    /// Whether the record inserts the row (`true`) or deletes it (`false`).
    pub positive: bool,
    /// The row.
    pub row: Row,
}

/// A row tagged as an insertion or a deletion.
#[derive(Debug)]
pub enum Record {
    /// The row is inserted.
    Positive(Vec<DataType>),
    /// The row is deleted.
    Negative(Vec<DataType>),
}

impl View for Record {
    type V = SignedRow;

    open spec fn view(&self) -> SignedRow {
        match *self {
            Record::Positive(r) => SignedRow { positive: true, row: r.deep_view() },
            Record::Negative(r) => SignedRow { positive: false, row: r.deep_view() },
        }
    }
}

impl DeepView for Record {
    type V = SignedRow;

    open spec fn deep_view(&self) -> SignedRow {
        self@
    }
}

impl Record {
    /// The row of this record.
    pub fn row(&self) -> (r: &Vec<DataType>)
        ensures
            r.deep_view() == self@.row,
    {
        match self {
            Record::Positive(r) => r,
            Record::Negative(r) => r,
        }
    }

    /// Whether this record inserts its row.
    pub fn is_positive(&self) -> (b: bool)
        ensures
            b == self@.positive,
    {
        match self {
            Record::Positive(_) => true,
            Record::Negative(_) => false,
        }
    }

    /// A record with the given sign and row.
    pub fn signed(positive: bool, row: Vec<DataType>) -> (r: Record)
        ensures
            r@ == (SignedRow { positive, row: row.deep_view() }),
    {
        if positive {
            Record::Positive(row)
        } else {
            Record::Negative(row)
        }
    }

    /// A copy of this record that shares nothing with it.
    pub fn deep_clone(&self) -> (r: Record)
        ensures
            r@ == self@,
    {
        match self {
            Record::Positive(row) => Record::Positive(clone_row(row)),
            Record::Negative(row) => Record::Negative(clone_row(row)),
        }
    }

    /// Whether this record and another have the same sign and hold the same values.
    pub fn equals(&self, other: &Record) -> (b: bool)
        ensures
            b == (self@ == other@),
    {
        if self.is_positive() != other.is_positive() {
            return false;
        }
        rows_equal(self.row(), other.row())
    }
}

impl PartialEq for Record {
    fn eq(&self, other: &Record) -> (e: bool) {
        self.equals(other)
    }
}

impl PartialEqSpecImpl for Record {
    open spec fn obeys_eq_spec() -> bool {
        true
    }

    open spec fn eq_spec(&self, other: &Record) -> bool {
        self@ == other@
    }
}

impl Clone for Record {
    fn clone(&self) -> (r: Record)
        ensures
            r@ == self@,
    {
        self.deep_clone()
    }
}

impl From<Vec<DataType>> for Record {
    fn from(row: Vec<DataType>) -> (r: Record) {
        Record::Positive(row)
    }
}

impl vstd::std_specs::convert::FromSpecImpl<Vec<DataType>> for Record {
    open spec fn obeys_from_spec() -> bool {
        true
    }

    open spec fn from_spec(row: Vec<DataType>) -> Record {
        Record::Positive(row)
    }
}

/// A delta: the records of one batch, in order.
pub type Delta = Seq<SignedRow>;

/// A copy of a batch of records that shares nothing with it.
pub fn clone_records(rs: &Vec<Record>) -> (r: Vec<Record>)
    ensures
        r.deep_view() == rs.deep_view(),
{
    let mut r: Vec<Record> = Vec::with_capacity(rs.len());
    let mut i: usize = 0;
    while i < rs.len()
        invariant
            i <= rs@.len(),
            r@.len() == i,
            forall|j: int| 0 <= j < i ==> r@[j]@ == rs@[j]@,
        decreases rs@.len() - i,
    {
        r.push(rs[i].deep_clone());
        i += 1;
    }
    assert(r.deep_view() =~= rs.deep_view());
    r
}

/// Whether every row of `delta` has exactly `width` values.
pub open spec fn rows_have_width(delta: Delta, width: nat) -> bool {
    forall|i: int| 0 <= i < delta.len() ==> (#[trigger] delta[i]).row.len() == width
}

/// Checks that every row of a batch has exactly `width` values.
pub fn check_rows_have_width(rs: &Vec<Record>, width: usize) -> (b: bool)
    ensures
        b == rows_have_width(rs.deep_view(), width as nat),
{
    let mut i: usize = 0;
    while i < rs.len()
        invariant
            i <= rs@.len(),
            forall|j: int| 0 <= j < i ==> (#[trigger] rs.deep_view()[j]).row.len() == width,
        decreases rs@.len() - i,
    {
        let row = rs[i].row();
        proof {
            assert(rs.deep_view()[i as int] == rs@[i as int]@);
            assert(row.deep_view().len() == row@.len());
        }
        if row.len() != width {
            return false;
        }
        i += 1;
    }
    true
}

/// Whether two batches hold the same records in the same order.
pub fn records_equal(a: &Vec<Record>, b: &Vec<Record>) -> (e: bool)
    ensures
        e == (a.deep_view() == b.deep_view()),
{
    if a.len() != b.len() {
        proof {
            assert(a.deep_view().len() == a@.len());
            assert(b.deep_view().len() == b@.len());
        }
        return false;
    }
    let mut i: usize = 0;
    while i < a.len()
        invariant
            a@.len() == b@.len(),
            i <= a@.len(),
            forall|j: int| 0 <= j < i ==> a@[j]@ == b@[j]@,
        decreases a@.len() - i,
    {
        if !a[i].equals(&b[i]) {
            proof {
                assert(a.deep_view()[i as int] == a@[i as int]@);
                assert(b.deep_view()[i as int] == b@[i as int]@);
            }
            return false;
        }
        i += 1;
    }
    assert(a.deep_view() =~= b.deep_view());
    true
}

} // verus!
