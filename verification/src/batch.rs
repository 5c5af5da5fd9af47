//! What a record batch and a schema of the `arrow` crate hold, as far as a
//! column read needs it. Nothing in this file is proved: each function
//! here makes one query of an `arrow` value, and its contract states what
//! the crate's source shows of it. The rest of the library is proved from
//! these contracts.

use arrow::array::{Array, Float64Array, TimestampMicrosecondArray};
use arrow::datatypes::{DataType, Schema, TimeUnit};
use arrow::error::ArrowError;
use arrow::record_batch::RecordBatch;
use vstd::prelude::*;

use crate::dataframe::first_index;

verus! {

/// A chunk of rows: a schema, and one array of cells for each of its fields.
/// It holds a `RecordBatch` as it came from a reader. The verifier does not
/// look inside: what a batch holds is known from the functions of this file
/// alone.
#[verifier::external_body]
pub struct Batch {
    pub rows: RecordBatch,
}

/// An ordered list of fields, each with a name and a data type.
#[verifier::external_type_specification]
#[verifier::external_body]
pub struct ExSchema(Schema);

/// What an `arrow` call reports when it fails.
#[verifier::external_type_specification]
#[verifier::external_body]
pub struct ExArrowError(ArrowError);

/// The names of the fields of a batch's schema, in order.
pub uninterp spec fn batch_names(batch: Batch) -> Seq<Seq<char>>;

/// The cells of the column at position `i` of a batch, where that column is
/// an array of 64-bit floats: the bits of each value, and `None` for a null.
/// `None` where the batch has no such column or it holds another type.
pub uninterp spec fn batch_floats(batch: Batch, i: int) -> Option<Seq<Option<u64>>>;

/// The cells of the column at position `i` of a batch, where that column is
/// an array of microsecond timestamps: each value, and `None` for a null.
/// `None` where the batch has no such column or it holds another type.
pub uninterp spec fn batch_timestamps(batch: Batch, i: int) -> Option<Seq<Option<i64>>>;

/// The time zone that the schema of a batch declares for the field at
/// position `i`, where it declares that field as a timestamp in
/// microseconds. `None` where there is no such field or it is declared
/// otherwise.
pub uninterp spec fn batch_zone(batch: Batch, i: int) -> Option<Option<Seq<char>>>;

/// The names of the fields of a schema, in order.
pub uninterp spec fn schema_names(schema: Schema) -> Seq<Seq<char>>;

/// The data type of each field of a schema, as `Debug` prints it; as many
/// as the schema has names.
pub uninterp spec fn schema_types(schema: Schema) -> Seq<Seq<char>>;

/// `Schema::index_of` on the schema of `batch`: the position of the first
/// field named `name`, and an error where no field has that name.
#[verifier::external_body]
pub(crate) fn batch_index_of(batch: &Batch, name: &str) -> (r: Result<usize, ArrowError>)
    ensures
        match first_index(batch_names(*batch), name@) {
            Some(i) => r matches Ok(k) && k == i,
            None => r is Err,
        },
{
    batch.rows.schema_ref().index_of(name)
}

/// The column at position `i` of `batch`, from `RecordBatch::columns`,
/// downcast to `Float64Array`, with each value handed out as its bits.
#[verifier::external_body]
pub(crate) fn batch_float_column(batch: &Batch, i: usize) -> (r: Option<Vec<Option<u64>>>)
    ensures
        r.deep_view() == batch_floats(*batch, i as int),
{
    let column = batch.rows.columns().get(i)?.as_any().downcast_ref::<Float64Array>()?;
    Some(column.iter().map(|cell| cell.map(|value| value.to_bits())).collect())
}

/// The column at position `i` of `batch`, from `RecordBatch::columns`,
/// downcast to `TimestampMicrosecondArray`.
#[verifier::external_body]
pub(crate) fn batch_timestamp_column(batch: &Batch, i: usize) -> (r: Option<
    Vec<Option<i64>>,
>)
    ensures
        r.deep_view() == batch_timestamps(*batch, i as int),
{
    let column = batch.rows.columns().get(i)?.as_any().downcast_ref::<TimestampMicrosecondArray>()?;
    Some(column.iter().collect())
}

/// `Field::data_type` of the field at position `i` of the schema of
/// `batch`: its time zone where the type is a timestamp in microseconds.
#[verifier::external_body]
pub(crate) fn batch_field_zone(batch: &Batch, i: usize) -> (r: Option<Option<String>>)
    ensures
        r.deep_view() == batch_zone(*batch, i as int),
{
    match batch.rows.schema_ref().fields().get(i)?.data_type() {
        DataType::Timestamp(TimeUnit::Microsecond, zone) => Some(zone.as_deref().map(String::from)),
        _ => None,
    }
}

/// The number of fields of `schema`, from `Schema::fields`.
#[verifier::external_body]
pub(crate) fn schema_len(schema: &Schema) -> (n: usize)
    ensures
        n == schema_names(*schema).len(),
        n == schema_types(*schema).len(),
{
    schema.fields().len()
}

/// `Field::name` of the field at position `i` of `schema`.
#[verifier::external_body]
pub(crate) fn schema_field_name(schema: &Schema, i: usize) -> (name: String)
    requires
        i < schema_names(*schema).len(),
    ensures
        name@ == schema_names(*schema)[i as int],
{
    schema.field(i).name().clone()
}

/// `Field::data_type` of the field at position `i` of `schema`, printed
/// with `Debug`.
#[verifier::external_body]
pub(crate) fn schema_field_type(schema: &Schema, i: usize) -> (printed: String)
    requires
        i < schema_types(*schema).len(),
    ensures
        printed@ == schema_types(*schema)[i as int],
{
    format!("{:?}", schema.field(i).data_type())
}

} // verus!
