//! The columnar source: a schema and a row count taken from a file's
//! footer, and columns put together from the file's record batches.

use crate::batch::{
    batch_field_zone, batch_float_column, batch_floats, batch_index_of, batch_names,
    batch_timestamp_column, batch_timestamps, batch_zone, schema_field_name, schema_field_type,
    schema_len, schema_names, schema_types, Batch,
};
use crate::bits::{is_nan_bits, lemma_nan_bits, NAN_BITS};
use crate::dataframe::{find_name, first_index, DataFrame, LoadError, ReadError};
use arrow::datatypes::Schema;
use vstd::prelude::*;

verus! {

/// The name of the field that holds the index of the rows.
pub const INDEX_NAME: &'static str = "__index_level_0__";

/// The values of a column of floats, a missing one replaced by `NAN_BITS`.
pub open spec fn nan_filled(cells: Seq<Option<u64>>) -> Seq<u64> {
    Seq::new(
        cells.len(),
        |i: int|
            match cells[i] {
                Some(bits) => bits,
                None => NAN_BITS,
            },
    )
}

/// A column read keeps its length and every value that is there, and has
/// what is not a number wherever a value is missing.
pub proof fn lemma_nan_filled(cells: Seq<Option<u64>>)
    ensures
        nan_filled(cells).len() == cells.len(),
        forall|i: int|
            0 <= i < cells.len() ==> match cells[i] {
                Some(bits) => #[trigger] nan_filled(cells)[i] == bits,
                None => is_nan_bits(nan_filled(cells)[i]),
            },
{
    lemma_nan_bits();
}

/// Appends the values of `cells` to `values`, a missing one as `NAN_BITS`.
pub fn append_floats(values: &mut Vec<u64>, cells: &Vec<Option<u64>>)
    ensures
        final(values)@ == old(values)@ + nan_filled(cells@),
{
    let mut i: usize = 0;
    while i < cells.len()
        invariant
            i <= cells.len(),
            values@ == old(values)@ + nan_filled(cells@.take(i as int)),
        decreases cells.len() - i,
    {
        let bits = match cells[i] {
            Some(bits) => bits,
            None => NAN_BITS,
        };
        values.push(bits);
        i += 1;
        assert(values@ =~= old(values)@ + nan_filled(cells@.take(i as int)));
    }
    assert(cells@.take(cells.len() as int) =~= cells@);
}

/// What a batch yields for the float column named `name`: its values, or
/// why it has none.
pub open spec fn float_batch(batch: Batch, name: Seq<char>) -> Result<Seq<u64>, ReadError> {
    match first_index(batch_names(batch), name) {
        None => Err(ReadError::ColumnNotFound),
        Some(i) => match batch_floats(batch, i) {
            None => Err(ReadError::TypeMismatch),
            Some(cells) => Ok(nan_filled(cells)),
        },
    }
}

/// A batch that has the column as floats yields a value for every row, with
/// no error: the value that is there, and what is not a number where there
/// is none.
pub proof fn lemma_null_reads_as_nan(batch: Batch, name: Seq<char>, i: int, cells: Seq<Option<u64>>)
    requires
        first_index(batch_names(batch), name) == Some(i),
        batch_floats(batch, i) == Some(cells),
    ensures
        float_batch(batch, name) matches Ok(values) && values.len() == cells.len() && forall|
            row: int,
        |
            0 <= row < cells.len() ==> match cells[row] {
                Some(bits) => #[trigger] values[row] == bits,
                None => is_nan_bits(values[row]),
            },
{
    lemma_nan_filled(cells);
}

/// Appends to `values` the float column named `column_name` of one batch.
/// On an error `values` stays as it was.
pub fn append_float_batch(values: &mut Vec<u64>, batch: &Batch, column_name: &str) -> (r: Result<
    (),
    ReadError,
>)
    ensures
        match float_batch(*batch, column_name@) {
            Ok(cells) => r is Ok && final(values)@ == old(values)@ + cells,
            Err(e) => r == Err::<(), ReadError>(e) && final(values)@ == old(values)@,
        },
{
    let i = match batch_index_of(batch, column_name) {
        Ok(i) => i,
        Err(_) => {
            return Err(ReadError::ColumnNotFound);
        },
    };
    match batch_float_column(batch, i) {
        Some(cells) => {
            append_floats(values, &cells);
            Ok(())
        },
        None => Err(ReadError::TypeMismatch),
    }
}

/// What the batches yield, one after the other, for the float column named
/// `name`: all its values in the order of the batches, or the error of the
/// first batch that has one.
pub open spec fn floats_over(batches: Seq<Batch>, name: Seq<char>) -> Result<Seq<u64>, ReadError>
    decreases batches.len(),
{
    if batches.len() == 0 {
        Ok(Seq::<u64>::empty())
    } else {
        match floats_over(batches.drop_last(), name) {
            Err(e) => Err(e),
            Ok(values) => match float_batch(batches.last(), name) {
                Err(e) => Err(e),
                Ok(cells) => Ok(values + cells),
            },
        }
    }
}

/// An error among the first batches is the error of all of them.
pub proof fn lemma_floats_fail(batches: Seq<Batch>, name: Seq<char>, n: int)
    requires
        0 <= n <= batches.len(),
        floats_over(batches.take(n), name) is Err,
    ensures
        floats_over(batches, name) == floats_over(batches.take(n), name),
    decreases batches.len() - n,
{
    if n == batches.len() {
        assert(batches.take(n) =~= batches);
    } else {
        assert(batches.take(n + 1).drop_last() =~= batches.take(n));
        lemma_floats_fail(batches, name, n + 1);
    }
}

/// The values of a column that has as many of them as the source declares
/// rows, and the mismatch otherwise.
pub open spec fn checked<T>(values: Seq<T>, expected: usize) -> Result<Seq<T>, ReadError> {
    if values.len() == expected {
        Ok(values)
    } else {
        Err(ReadError::RowCountMismatch { expected, found: values.len() as usize })
    }
}

/// Hands `values` on where they are as many as `expected`.
pub fn check_row_count<T>(values: Vec<T>, expected: usize) -> (r: Result<Vec<T>, ReadError>)
    ensures
        match checked(values@, expected) {
            Ok(_) => r == Ok::<Vec<T>, ReadError>(values),
            Err(e) => r == Err::<Vec<T>, ReadError>(e),
        },
{
    if values.len() == expected {
        Ok(values)
    } else {
        let found = values.len();
        Err(ReadError::RowCountMismatch { expected, found })
    }
}

/// A read of a float column in progress: the batches taken in so far, and
/// the values that they yielded.
pub struct FloatScan {
    name: String,
    expected: usize,
    values: Vec<u64>,
    seen: Ghost<Seq<Batch>>,
}

impl FloatScan {
    #[verifier::type_invariant]
    spec fn well_formed(&self) -> bool {
        floats_over(self.seen@, self.name@) == Ok::<Seq<u64>, ReadError>(self.values@)
    }

    /// The name of the column that is read.
    pub closed spec fn column(&self) -> Seq<char> {
        self.name@
    }

    /// The number of rows that the source declares.
    pub closed spec fn rows(&self) -> usize {
        self.expected
    }

    /// The batches taken in so far, in their order.
    pub closed spec fn batches(&self) -> Seq<Batch> {
        self.seen@
    }

    /// The values read so far.
    pub closed spec fn values(&self) -> Seq<u64> {
        self.values@
    }

    /// Takes in the next batch of the file: the scan with the values of that
    /// batch added, or the reason why the batch has none.
    pub fn push(self, batch: &Batch) -> (r: Result<FloatScan, ReadError>)
        ensures
            floats_over(self.batches(), self.column()) == Ok::<Seq<u64>, ReadError>(self.values()),
            match float_batch(*batch, self.column()) {
                Ok(cells) => {
                    &&& r matches Ok(next)
                    &&& next.column() == self.column()
                    &&& next.rows() == self.rows()
                    &&& next.batches() == self.batches().push(*batch)
                    &&& next.values() == self.values() + cells
                },
                Err(e) => r == Err::<FloatScan, ReadError>(e),
            },
    {
        proof {
            use_type_invariant(&self);
        }
        let FloatScan { name, expected, mut values, seen } = self;
        match append_float_batch(&mut values, batch, name.as_str()) {
            Ok(()) => {
                proof {
                    assert(seen@.push(*batch).drop_last() =~= seen@);
                }
                Ok(FloatScan { name, expected, values, seen: Ghost(seen@.push(*batch)) })
            },
            Err(e) => Err(e),
        }
    }

    /// Ends the read after the last batch: the values of all batches, which
    /// have to be as many as the source declares rows.
    pub fn finish(self) -> (r: Result<Vec<u64>, ReadError>)
        ensures
            floats_over(self.batches(), self.column()) == Ok::<Seq<u64>, ReadError>(self.values()),
            match checked(self.values(), self.rows()) {
                Ok(values) => r matches Ok(v) && v@ == values,
                Err(e) => r == Err::<Vec<u64>, ReadError>(e),
            },
    {
        proof {
            use_type_invariant(&self);
        }
        check_row_count(self.values, self.expected)
    }
}

/// Whether `j` is the position of the first missing value among `cells`.
pub open spec fn is_first_null(cells: Seq<Option<i64>>, j: int) -> bool {
    &&& 0 <= j < cells.len()
    &&& cells[j] is None
    &&& forall|k: int| 0 <= k < j ==> cells[k] is Some
}

/// The values of `cells`, for cells of which none is missing.
pub open spec fn present(cells: Seq<Option<i64>>) -> Seq<i64> {
    Seq::new(cells.len(), |i: int| cells[i]->Some_0)
}

/// Cells either are all present or have a first missing one, and only one
/// position is that of the first missing one.
pub proof fn lemma_first_null(cells: Seq<Option<i64>>)
    ensures
        (forall|k: int| 0 <= k < cells.len() ==> cells[k] is Some) != (exists|j: int|
            is_first_null(cells, j)),
        forall|i: int, j: int| is_first_null(cells, i) && is_first_null(cells, j) ==> i == j,
    decreases cells.len(),
{
    if cells.len() > 0 {
        let front = cells.drop_last();
        lemma_first_null(front);
        if exists|j: int| is_first_null(front, j) {
            let j = choose|j: int| is_first_null(front, j);
            assert(cells[j] == front[j]);
            assert forall|k: int| 0 <= k < j implies cells[k] is Some by {
                assert(front[k] is Some);
            }
            assert(is_first_null(cells, j));
        } else if cells.last() is None {
            assert forall|k: int| 0 <= k < cells.len() - 1 implies cells[k] is Some by {
                assert(front[k] is Some);
            }
            assert(is_first_null(cells, cells.len() - 1));
        } else {
            assert forall|k: int| 0 <= k < cells.len() implies cells[k] is Some by {
                if k < cells.len() - 1 {
                    assert(front[k] is Some);
                }
            }
        }
    }
    assert forall|i: int, j: int| is_first_null(cells, i) && is_first_null(cells, j) implies i
        == j by {
        if i < j {
            assert(cells[i] is Some);
        } else if j < i {
            assert(cells[j] is Some);
        }
    }
}

/// The timestamps of `cells`, which follow `before` rows of the index: a
/// missing one is an error that names its row.
pub open spec fn index_values(cells: Seq<Option<i64>>, before: nat) -> Result<Seq<i64>, ReadError> {
    if exists|j: int| is_first_null(cells, j) {
        let j = choose|j: int| is_first_null(cells, j);
        Err(ReadError::IndexNullEncountered { row: (before + j) as usize })
    } else {
        Ok(present(cells))
    }
}

/// Appends the timestamps of `cells` to `values`, which hold the rows before
/// them. On an error `values` stay as they were.
pub fn append_index(values: &mut Vec<i64>, cells: &Vec<Option<i64>>) -> (r: Result<(), ReadError>)
    ensures
        match index_values(cells@, old(values)@.len()) {
            Ok(more) => r is Ok && final(values)@ == old(values)@ + more,
            Err(e) => r == Err::<(), ReadError>(e) && final(values)@ == old(values)@,
        },
{
    let start = values.len();
    let mut i: usize = 0;
    while i < cells.len()
        invariant
            i <= cells.len(),
            start == old(values)@.len(),
            values@.len() == start + i,
            forall|k: int| 0 <= k < i ==> cells@[k] is Some,
            values@ == old(values)@ + present(cells@.take(i as int)),
        decreases cells.len() - i,
    {
        match cells[i] {
            Some(t) => {
                values.push(t);
            },
            None => {
                let row = values.len();
                values.truncate(start);
                proof {
                    assert(values@ =~= old(values)@);
                    assert(is_first_null(cells@, i as int));
                    lemma_first_null(cells@);
                }
                return Err(ReadError::IndexNullEncountered { row });
            },
        }
        i += 1;
        assert(values@ =~= old(values)@ + present(cells@.take(i as int)));
    }
    proof {
        assert(cells@.take(cells.len() as int) =~= cells@);
        lemma_first_null(cells@);
    }
    Ok(())
}

/// Whether a field is declared as microseconds in UTC, given the time zone
/// it has as a timestamp in microseconds, if it is one.
pub fn is_utc_microseconds(zone: &Option<Option<String>>) -> (b: bool)
    ensures
        b == (zone.deep_view() == Some(Some("UTC"@))),
{
    match zone {
        Some(Some(name)) => *name == "UTC".to_owned(),
        _ => false,
    }
}

/// The cells that a batch holds for the index: those of the column named
/// `INDEX_NAME`, which has to be declared as microseconds in UTC and to be
/// stored as microsecond timestamps.
pub open spec fn index_batch(batch: Batch) -> Result<Seq<Option<i64>>, ReadError> {
    match first_index(batch_names(batch), INDEX_NAME@) {
        None => Err(ReadError::ColumnNotFound),
        Some(i) => if batch_zone(batch, i) != Some(Some("UTC"@)) {
            Err(ReadError::IndexTypeMismatch)
        } else {
            match batch_timestamps(batch, i) {
                None => Err(ReadError::TypeMismatch),
                Some(cells) => Ok(cells),
            }
        },
    }
}

/// The cells that `batch` holds for the index.
pub fn index_cells(batch: &Batch) -> (r: Result<Vec<Option<i64>>, ReadError>)
    ensures
        match index_batch(*batch) {
            Ok(cells) => r matches Ok(v) && v@ == cells,
            Err(e) => r == Err::<Vec<Option<i64>>, ReadError>(e),
        },
{
    let i = match batch_index_of(batch, INDEX_NAME) {
        Ok(i) => i,
        Err(_) => {
            return Err(ReadError::ColumnNotFound);
        },
    };
    let zone = batch_field_zone(batch, i);
    if !is_utc_microseconds(&zone) {
        return Err(ReadError::IndexTypeMismatch);
    }
    match batch_timestamp_column(batch, i) {
        Some(cells) => Ok(cells),
        None => Err(ReadError::TypeMismatch),
    }
}

/// What a batch adds to an index of `before` rows: the timestamps of its
/// index cells, or why it has none.
pub open spec fn index_step(batch: Batch, before: nat) -> Result<Seq<i64>, ReadError> {
    match index_batch(batch) {
        Err(e) => Err(e),
        Ok(cells) => index_values(cells, before),
    }
}

/// Appends to `values`, the index so far, the index of one batch. On an
/// error `values` stay as they were.
pub fn append_index_batch(values: &mut Vec<i64>, batch: &Batch) -> (r: Result<(), ReadError>)
    ensures
        match index_step(*batch, old(values)@.len()) {
            Ok(more) => r is Ok && final(values)@ == old(values)@ + more,
            Err(e) => r == Err::<(), ReadError>(e) && final(values)@ == old(values)@,
        },
{
    match index_cells(batch) {
        Ok(cells) => append_index(values, &cells),
        Err(e) => Err(e),
    }
}

/// The index that the batches yield, one after the other: all their
/// timestamps in the order of the batches, or the first error. A missing
/// timestamp is an error that names its row over all batches.
pub open spec fn index_over(batches: Seq<Batch>) -> Result<Seq<i64>, ReadError>
    decreases batches.len(),
{
    if batches.len() == 0 {
        Ok(Seq::<i64>::empty())
    } else {
        match index_over(batches.drop_last()) {
            Err(e) => Err(e),
            Ok(values) => match index_step(batches.last(), values.len()) {
                Err(e) => Err(e),
                Ok(more) => Ok(values + more),
            },
        }
    }
}

/// An error among the first batches is the error of all of them.
pub proof fn lemma_index_fails(batches: Seq<Batch>, n: int)
    requires
        0 <= n <= batches.len(),
        index_over(batches.take(n)) is Err,
    ensures
        index_over(batches) == index_over(batches.take(n)),
    decreases batches.len() - n,
{
    if n == batches.len() {
        assert(batches.take(n) =~= batches);
    } else {
        assert(batches.take(n + 1).drop_last() =~= batches.take(n));
        lemma_index_fails(batches, n + 1);
    }
}

/// A read of the index in progress: the batches taken in so far, and the
/// timestamps that they yielded.
pub struct IndexScan {
    expected: usize,
    values: Vec<i64>,
    seen: Ghost<Seq<Batch>>,
}

impl IndexScan {
    #[verifier::type_invariant]
    spec fn well_formed(&self) -> bool {
        index_over(self.seen@) == Ok::<Seq<i64>, ReadError>(self.values@)
    }

    /// The number of rows that the source declares.
    pub closed spec fn rows(&self) -> usize {
        self.expected
    }

    /// The batches taken in so far, in their order.
    pub closed spec fn batches(&self) -> Seq<Batch> {
        self.seen@
    }

    /// The timestamps read so far.
    pub closed spec fn values(&self) -> Seq<i64> {
        self.values@
    }

    /// Takes in the next batch of the file: the scan with the index of that
    /// batch added, or the reason why the batch has none.
    pub fn push(self, batch: &Batch) -> (r: Result<IndexScan, ReadError>)
        ensures
            index_over(self.batches()) == Ok::<Seq<i64>, ReadError>(self.values()),
            match index_step(*batch, self.values().len()) {
                Ok(more) => {
                    &&& r matches Ok(next)
                    &&& next.rows() == self.rows()
                    &&& next.batches() == self.batches().push(*batch)
                    &&& next.values() == self.values() + more
                },
                Err(e) => r == Err::<IndexScan, ReadError>(e),
            },
    {
        proof {
            use_type_invariant(&self);
        }
        let IndexScan { expected, mut values, seen } = self;
        match append_index_batch(&mut values, batch) {
            Ok(()) => {
                proof {
                    assert(seen@.push(*batch).drop_last() =~= seen@);
                }
                Ok(IndexScan { expected, values, seen: Ghost(seen@.push(*batch)) })
            },
            Err(e) => Err(e),
        }
    }

    /// Ends the read after the last batch: the index of all batches, which
    /// has to have as many rows as the source declares.
    pub fn finish(self) -> (r: Result<Vec<i64>, ReadError>)
        ensures
            index_over(self.batches()) == Ok::<Seq<i64>, ReadError>(self.values()),
            match checked(self.values(), self.rows()) {
                Ok(values) => r matches Ok(v) && v@ == values,
                Err(e) => r == Err::<Vec<i64>, ReadError>(e),
            },
    {
        proof {
            use_type_invariant(&self);
        }
        check_row_count(self.values, self.expected)
    }
}

/// The sum of `counts`.
pub open spec fn total(counts: Seq<i64>) -> int
    decreases counts.len(),
{
    if counts.len() == 0 {
        0
    } else {
        total(counts.drop_last()) + counts.last()
    }
}

/// Whether a footer's row counts are sound: none is negative, those of the
/// row groups add up to the file's, and that fits a `usize`.
pub open spec fn footer_agrees(file_rows: i64, group_rows: Seq<i64>) -> bool {
    &&& 0 <= file_rows <= usize::MAX
    &&& forall|i: int| 0 <= i < group_rows.len() ==> group_rows[i] >= 0
    &&& total(group_rows) == file_rows
}

/// A sum of counts of which none is negative is at least the sum of the
/// first of them.
pub proof fn lemma_total_grows(counts: Seq<i64>, n: int)
    requires
        0 <= n <= counts.len(),
        forall|i: int| 0 <= i < counts.len() ==> counts[i] >= 0,
    ensures
        total(counts.take(n)) <= total(counts),
    decreases counts.len() - n,
{
    if n == counts.len() {
        assert(counts.take(n) =~= counts);
    } else {
        assert(counts.take(n + 1).drop_last() =~= counts.take(n));
        lemma_total_grows(counts, n + 1);
    }
}

/// The number of rows that a footer declares: the file's count, which the
/// counts of the row groups have to add up to.
pub fn footer_row_count(file_rows: i64, group_rows: &Vec<i64>) -> (r: Result<usize, LoadError>)
    ensures
        match r {
            Ok(n) => footer_agrees(file_rows, group_rows@) && n == file_rows,
            Err(e) => e == LoadError::CorruptFooter && !footer_agrees(file_rows, group_rows@),
        },
{
    if file_rows < 0 || file_rows as u64 > usize::MAX as u64 {
        return Err(LoadError::CorruptFooter);
    }
    let mut sum: i64 = 0;
    let mut i: usize = 0;
    assert(group_rows@.take(0) =~= Seq::<i64>::empty());
    while i < group_rows.len()
        invariant
            i <= group_rows.len(),
            0 <= sum <= file_rows <= usize::MAX,
            sum == total(group_rows@.take(i as int)),
            forall|k: int| 0 <= k < i ==> group_rows@[k] >= 0,
        decreases group_rows.len() - i,
    {
        let count = group_rows[i];
        proof {
            assert(group_rows@.take(i + 1).drop_last() =~= group_rows@.take(i as int));
            assert(group_rows@.take(i + 1).last() == count);
        }
        if count < 0 {
            return Err(LoadError::CorruptFooter);
        }
        if count > file_rows - sum {
            proof {
                if forall|k: int| 0 <= k < group_rows@.len() ==> group_rows@[k] >= 0 {
                    lemma_total_grows(group_rows@, i + 1);
                }
            }
            return Err(LoadError::CorruptFooter);
        }
        sum = sum + count;
        i += 1;
    }
    assert(group_rows@.take(group_rows.len() as int) =~= group_rows@);
    if sum == file_rows {
        Ok(file_rows as usize)
    } else {
        Err(LoadError::CorruptFooter)
    }
}

/// `names` without any occurrence of `name`.
pub open spec fn excluding(names: Seq<Seq<char>>, name: Seq<char>) -> Seq<Seq<char>>
    decreases names.len(),
{
    if names.len() == 0 {
        names
    } else if names.last() == name {
        excluding(names.drop_last(), name)
    } else {
        excluding(names.drop_last(), name).push(names.last())
    }
}

/// A columnar source: where its file is, the fields of its schema, and the
/// number of its rows. It holds no data: a column is read from the batches
/// of the file each time it is asked for.
pub struct ArrowDataFrame {
    path: String,
    field_names: Vec<String>,
    field_types: Vec<String>,
    row_count: usize,
}

impl ArrowDataFrame {
    #[verifier::type_invariant]
    spec fn well_formed(&self) -> bool {
        self.field_names@.len() == self.field_types@.len()
    }

    /// Where the file is.
    pub closed spec fn location(&self) -> Seq<char> {
        self.path@
    }

    /// The names of all fields of the schema, the index among them.
    pub closed spec fn fields(&self) -> Seq<Seq<char>> {
        self.field_names.deep_view()
    }

    /// The data type of each field of the schema, as `Debug` prints it.
    pub closed spec fn kinds(&self) -> Seq<Seq<char>> {
        self.field_types.deep_view()
    }

    /// The number of rows that the footer declares.
    pub closed spec fn declared_rows(&self) -> usize {
        self.row_count
    }

    /// A source for the file at `path`, with the schema and the row count
    /// that its footer holds.
    pub fn new(path: String, schema: &Schema, row_count: usize) -> (r: Self)
        ensures
            r.location() == path@,
            r.fields() == schema_names(*schema),
            r.kinds() == schema_types(*schema),
            r.declared_rows() == row_count,
    {
        let n = schema_len(schema);
        let mut field_names: Vec<String> = Vec::new();
        let mut field_types: Vec<String> = Vec::new();
        let mut i: usize = 0;
        while i < n
            invariant
                i <= n == schema_names(*schema).len() == schema_types(*schema).len(),
                field_names@.len() == i,
                field_types@.len() == i,
                forall|k: int| 0 <= k < i ==> (#[trigger] field_names@[k])@ == schema_names(*schema)[k],
                forall|k: int| 0 <= k < i ==> (#[trigger] field_types@[k])@ == schema_types(*schema)[k],
            decreases n - i,
        {
            field_names.push(schema_field_name(schema, i));
            field_types.push(schema_field_type(schema, i));
            i += 1;
        }
        assert(field_names.deep_view() =~= schema_names(*schema));
        assert(field_types.deep_view() =~= schema_types(*schema));
        ArrowDataFrame { path, field_names, field_types, row_count }
    }

    /// Where the file is.
    pub fn path(&self) -> (r: &String)
        ensures
            r@ == self.location(),
    {
        &self.path
    }

    /// Text columns are not offered by this source.
    pub fn read_column_string(&self, column_name: &str) -> (r: Result<Vec<String>, ReadError>)
        ensures
            r == Err::<Vec<String>, ReadError>(ReadError::Unsupported),
    {
        Err(ReadError::Unsupported)
    }

    /// Integer columns are not offered by this source.
    pub fn read_column_i64(&self, column_name: &str) -> (r: Result<Vec<i64>, ReadError>)
        ensures
            r == Err::<Vec<i64>, ReadError>(ReadError::Unsupported),
    {
        Err(ReadError::Unsupported)
    }

    /// What a read of the float column named `name` yields from the batches
    /// of the file: an error where the schema has no such field, else what
    /// the batches yield, which has to be as many values as there are rows.
    pub open spec fn float_column(&self, name: Seq<char>, batches: Seq<Batch>) -> Result<
        Seq<u64>,
        ReadError,
    > {
        if first_index(self.fields(), name) is None {
            Err(ReadError::ColumnNotFound)
        } else {
            match floats_over(batches, name) {
                Err(e) => Err(e),
                Ok(values) => checked(values, self.declared_rows()),
            }
        }
    }

    /// What a read of the index yields from the batches of the file: what
    /// the batches yield, which has to be as many values as there are rows.
    pub open spec fn index_column(&self, batches: Seq<Batch>) -> Result<Seq<i64>, ReadError> {
        match index_over(batches) {
            Err(e) => Err(e),
            Ok(values) => checked(values, self.declared_rows()),
        }
    }

    /// Begins a read of the float column named `column_name`, before the
    /// first batch. It is an error if the schema has no field of that name.
    pub fn begin_column_f64(&self, column_name: &str) -> (r: Result<FloatScan, ReadError>)
        ensures
            match first_index(self.fields(), column_name@) {
                None => r == Err::<FloatScan, ReadError>(ReadError::ColumnNotFound),
                Some(_) => {
                    &&& r matches Ok(scan)
                    &&& scan.column() == column_name@
                    &&& scan.rows() == self.declared_rows()
                    &&& scan.batches() == Seq::<Batch>::empty()
                    &&& scan.values() == Seq::<u64>::empty()
                },
            },
    {
        if find_name(&self.field_names, column_name).is_none() {
            return Err(ReadError::ColumnNotFound);
        }
        let values: Vec<u64> = Vec::new();
        assert(values@ =~= Seq::<u64>::empty());
        Ok(
            FloatScan {
                name: column_name.to_owned(),
                expected: self.row_count,
                values,
                seen: Ghost(Seq::<Batch>::empty()),
            },
        )
    }

    /// Begins a read of the index, before the first batch.
    pub fn begin_index(&self) -> (scan: IndexScan)
        ensures
            scan.rows() == self.declared_rows(),
            scan.batches() == Seq::<Batch>::empty(),
            scan.values() == Seq::<i64>::empty(),
    {
        let values: Vec<i64> = Vec::new();
        assert(values@ =~= Seq::<i64>::empty());
        IndexScan { expected: self.row_count, values, seen: Ghost(Seq::<Batch>::empty()) }
    }

    /// Reads the column named `column_name` from `batches`, the batches of
    /// the file in their order, as the bits of 64-bit floats. A missing
    /// value reads as `NAN_BITS`.
    pub fn read_column_f64(&self, column_name: &str, batches: &Vec<Batch>) -> (r: Result<
        Vec<u64>,
        ReadError,
    >)
        ensures
            match self.float_column(column_name@, batches@) {
                Ok(values) => r matches Ok(v) && v@ == values,
                Err(e) => r == Err::<Vec<u64>, ReadError>(e),
            },
    {
        let mut scan = match self.begin_column_f64(column_name) {
            Ok(scan) => scan,
            Err(e) => {
                return Err(e);
            },
        };
        let mut i: usize = 0;
        assert(batches@.take(0) =~= Seq::<Batch>::empty());
        while i < batches.len()
            invariant
                i <= batches.len(),
                scan.column() == column_name@,
                scan.rows() == self.declared_rows(),
                scan.batches() == batches@.take(i as int),
                first_index(self.fields(), column_name@) is Some,
            decreases batches.len() - i,
        {
            proof {
                assert(batches@.take(i + 1) =~= batches@.take(i as int).push(batches@[i as int]));
                assert(batches@.take(i + 1).drop_last() =~= batches@.take(i as int));
            }
            scan = match scan.push(&batches[i]) {
                Ok(next) => next,
                Err(e) => {
                    proof {
                        lemma_floats_fail(batches@, column_name@, i + 1);
                    }
                    return Err(e);
                },
            };
            i += 1;
        }
        assert(batches@.take(batches.len() as int) =~= batches@);
        scan.finish()
    }

    /// Reads the index from `batches`, the batches of the file in their
    /// order, as microseconds.
    pub fn read_index_microsecond(&self, batches: &Vec<Batch>) -> (r: Result<Vec<i64>, ReadError>)
        ensures
            match self.index_column(batches@) {
                Ok(values) => r matches Ok(v) && v@ == values,
                Err(e) => r == Err::<Vec<i64>, ReadError>(e),
            },
    {
        let mut scan = self.begin_index();
        let mut i: usize = 0;
        assert(batches@.take(0) =~= Seq::<Batch>::empty());
        while i < batches.len()
            invariant
                i <= batches.len(),
                scan.rows() == self.declared_rows(),
                scan.batches() == batches@.take(i as int),
            decreases batches.len() - i,
        {
            proof {
                assert(batches@.take(i + 1) =~= batches@.take(i as int).push(batches@[i as int]));
                assert(batches@.take(i + 1).drop_last() =~= batches@.take(i as int));
            }
            scan = match scan.push(&batches[i]) {
                Ok(next) => next,
                Err(e) => {
                    proof {
                        lemma_index_fails(batches@, i + 1);
                    }
                    return Err(e);
                },
            };
            i += 1;
        }
        assert(batches@.take(batches.len() as int) =~= batches@);
        scan.finish()
    }
}

impl DataFrame for ArrowDataFrame {
    /// The names of the fields, but for the index.
    open spec fn names(&self) -> Seq<Seq<char>> {
        excluding(self.fields(), INDEX_NAME@)
    }

    open spec fn rows(&self) -> nat {
        self.declared_rows() as nat
    }

    /// Every field of the schema, the index among them, with its data type.
    open spec fn types(&self) -> Seq<(Seq<char>, Seq<char>)> {
        Seq::new(self.fields().len(), |i: int| (self.fields()[i], self.kinds()[i]))
    }

    fn shape(&self) -> (r: (usize, usize)) {
        let names = self.column_names();
        (self.row_count, names.len())
    }

    fn column_names(&self) -> (r: Vec<String>) {
        let index = INDEX_NAME.to_owned();
        let mut r: Vec<String> = Vec::new();
        let mut i: usize = 0;
        assert(self.fields().take(0) =~= Seq::<Seq<char>>::empty());
        assert(r.deep_view() =~= Seq::<Seq<char>>::empty());
        while i < self.field_names.len()
            invariant
                i <= self.field_names.len(),
                index@ == INDEX_NAME@,
                r.deep_view() == excluding(self.fields().take(i as int), INDEX_NAME@),
            decreases self.field_names.len() - i,
        {
            let ghost before = r.deep_view();
            proof {
                assert(self.fields().take(i + 1).drop_last() =~= self.fields().take(i as int));
                assert(self.fields().take(i + 1).last() == self.field_names@[i as int]@);
            }
            if self.field_names[i] != index {
                r.push(self.field_names[i].clone());
                assert(r.deep_view() =~= before.push(self.field_names@[i as int]@));
            }
            i += 1;
        }
        assert(self.fields().take(self.field_names.len() as int) =~= self.fields());
        r
    }

    fn column_types(&self) -> (r: Vec<(String, String)>) {
        proof {
            use_type_invariant(self);
        }
        let mut r: Vec<(String, String)> = Vec::new();
        let mut i: usize = 0;
        while i < self.field_names.len()
            invariant
                i <= self.field_names.len() == self.field_types.len(),
                r@.len() == i,
                forall|k: int|
                    0 <= k < i ==> (#[trigger] r@[k]).0@ == self.field_names@[k]@ && r@[k].1@
                        == self.field_types@[k]@,
            decreases self.field_names.len() - i,
        {
            r.push((self.field_names[i].clone(), self.field_types[i].clone()));
            i += 1;
        }
        assert(r.deep_view() =~= self.types());
        r
    }
}

} // verus!
