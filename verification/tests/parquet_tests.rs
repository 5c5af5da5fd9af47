use std::sync::Arc;

use arrow::array::{ArrayRef, Float64Array, Int64Array, StringArray, TimestampMicrosecondArray,
    TimestampMillisecondArray};
use arrow::datatypes::{DataType, Field, Schema, TimeUnit};
use arrow::record_batch::RecordBatch;
use ds_util::batch::Batch;
use ds_util::bits::NAN_BITS;
use ds_util::dataframe::{DataFrame, LoadError, ReadError};
use ds_util::parquet::{
    append_float_batch, append_floats, append_index, append_index_batch, check_row_count,
    footer_row_count, index_cells, is_utc_microseconds, ArrowDataFrame, INDEX_NAME,
};

fn utc() -> DataType {
    DataType::Timestamp(TimeUnit::Microsecond, Some("UTC".into()))
}

fn schema() -> Schema {
    Schema::new(vec![
        Field::new(INDEX_NAME, utc(), true),
        Field::new("x", DataType::Float64, true),
        Field::new("n", DataType::Int64, true),
    ])
}

fn batch(index: Vec<Option<i64>>, x: Vec<Option<f64>>, n: Vec<Option<i64>>) -> Batch {
    let columns: Vec<ArrayRef> = vec![
        Arc::new(TimestampMicrosecondArray::from(index).with_timezone("UTC")),
        Arc::new(Float64Array::from(x)),
        Arc::new(Int64Array::from(n)),
    ];
    Batch { rows: RecordBatch::try_new(Arc::new(schema()), columns).unwrap() }
}

fn two_batches() -> Vec<Batch> {
    vec![
        batch(vec![Some(10), Some(20)], vec![Some(1.5), None], vec![Some(1), Some(2)]),
        batch(vec![Some(30)], vec![Some(-2.0)], vec![None]),
    ]
}

fn frame(rows: usize) -> ArrowDataFrame {
    ArrowDataFrame::new("data.parquet".to_string(), &schema(), rows)
}

fn floats_of_batches(batches: &Vec<Batch>, name: &str) -> Result<Vec<u64>, ReadError> {
    let mut values = Vec::new();
    for b in batches {
        append_float_batch(&mut values, b, name)?;
    }
    Ok(values)
}

fn index_of_batches(batches: &Vec<Batch>) -> Result<Vec<i64>, ReadError> {
    let mut values = Vec::new();
    for b in batches {
        append_index_batch(&mut values, b)?;
    }
    Ok(values)
}

fn floats(bits: &[u64]) -> Vec<f64> {
    bits.iter().map(|b| f64::from_bits(*b)).collect()
}

#[test]
fn frame_keeps_path_and_row_count() {
    let df = frame(3);
    assert_eq!(df.path(), "data.parquet");
    assert_eq!(df.shape().0, 3);
}

#[test]
fn column_names_leave_the_index_out() {
    let df = frame(3);
    assert_eq!(df.column_names(), vec!["x".to_string(), "n".to_string()]);
    assert_eq!(df.shape(), (3, 2));
}

#[test]
fn column_names_without_an_index() {
    let schema = Schema::new(vec![
        Field::new("a", DataType::Float64, true),
        Field::new("b", DataType::Utf8, true),
    ]);
    let df = ArrowDataFrame::new("f".to_string(), &schema, 0);
    assert_eq!(df.column_names(), vec!["a".to_string(), "b".to_string()]);
    assert_eq!(df.shape(), (0, 2));
}

#[test]
fn column_types_describe_every_field() {
    let df = frame(3);
    assert_eq!(
        df.column_types(),
        vec![
            (INDEX_NAME.to_string(), "Timestamp(Microsecond, Some(\"UTC\"))".to_string()),
            ("x".to_string(), "Float64".to_string()),
            ("n".to_string(), "Int64".to_string()),
        ]
    );
}

#[test]
fn empty_schema() {
    let df = ArrowDataFrame::new(String::new(), &Schema::empty(), 0);
    assert_eq!(df.shape(), (0, 0));
    assert!(df.column_names().is_empty());
    assert!(df.column_types().is_empty());
}

#[test]
fn text_and_integer_reads_are_unsupported() {
    let df = frame(3);
    assert_eq!(df.read_column_string("x"), Err(ReadError::Unsupported));
    assert_eq!(df.read_column_i64("n"), Err(ReadError::Unsupported));
    assert_eq!(df.read_column_string("absent"), Err(ReadError::Unsupported));
}

#[test]
fn float_column_over_batches() {
    let df = frame(3);
    let values = df.read_column_f64("x", &two_batches()).unwrap();
    assert_eq!(values.len(), 3);
    assert_eq!(f64::from_bits(values[0]), 1.5);
    assert_eq!(values[1], NAN_BITS);
    assert_eq!(f64::from_bits(values[2]), -2.0);
}

#[test]
fn null_reads_as_nan_at_its_row() {
    let df = frame(3);
    let values = floats(&df.read_column_f64("x", &two_batches()).unwrap());
    assert!(!values[0].is_nan());
    assert!(values[1].is_nan());
    assert!(!values[2].is_nan());
}

#[test]
fn nan_bits_are_not_a_number() {
    assert!(f64::from_bits(NAN_BITS).is_nan());
}

#[test]
fn stored_nan_and_infinities_keep_their_bits() {
    let b = batch(
        vec![Some(1), Some(2), Some(3), Some(4)],
        vec![Some(f64::INFINITY), Some(f64::NEG_INFINITY), Some(-0.0), Some(f64::NAN)],
        vec![None, None, None, None],
    );
    let values = floats_of_batches(&vec![b], "x").unwrap();
    assert_eq!(values[0], f64::INFINITY.to_bits());
    assert_eq!(values[1], f64::NEG_INFINITY.to_bits());
    assert_eq!(values[2], (-0.0f64).to_bits());
    assert_eq!(values[3], f64::NAN.to_bits());
}

#[test]
fn float_column_absent_from_the_schema() {
    let df = frame(3);
    assert_eq!(df.read_column_f64("y", &two_batches()), Err(ReadError::ColumnNotFound));
    assert_eq!(df.read_column_f64("y", &Vec::new()), Err(ReadError::ColumnNotFound));
}

#[test]
fn float_column_absent_from_a_batch() {
    let schema = Schema::new(vec![Field::new("y", DataType::Float64, true)]);
    let df = ArrowDataFrame::new("f".to_string(), &schema, 3);
    assert_eq!(df.read_column_f64("y", &two_batches()), Err(ReadError::ColumnNotFound));
    assert_eq!(floats_of_batches(&two_batches(), "y"), Err(ReadError::ColumnNotFound));
}

#[test]
fn float_column_of_another_type() {
    let df = frame(3);
    assert_eq!(df.read_column_f64("n", &two_batches()), Err(ReadError::TypeMismatch));
    assert_eq!(df.read_column_f64(INDEX_NAME, &two_batches()), Err(ReadError::TypeMismatch));
}

#[test]
fn float_column_with_the_wrong_number_of_rows() {
    assert_eq!(
        frame(4).read_column_f64("x", &two_batches()),
        Err(ReadError::RowCountMismatch { expected: 4, found: 3 })
    );
    assert_eq!(
        frame(1).read_column_f64("x", &Vec::new()),
        Err(ReadError::RowCountMismatch { expected: 1, found: 0 })
    );
    assert_eq!(frame(0).read_column_f64("x", &Vec::new()), Ok(vec![]));
}

#[test]
fn first_field_of_a_name_is_read() {
    let schema = Arc::new(Schema::new(vec![
        Field::new("x", DataType::Float64, true),
        Field::new("x", DataType::Int64, true),
    ]));
    let columns: Vec<ArrayRef> =
        vec![Arc::new(Float64Array::from(vec![2.5])), Arc::new(Int64Array::from(vec![7]))];
    let b = Batch { rows: RecordBatch::try_new(schema, columns).unwrap() };
    assert_eq!(floats_of_batches(&vec![b], "x"), Ok(vec![2.5f64.to_bits()]));
}

#[test]
fn one_batch_is_appended() {
    let mut values = vec![7u64];
    let batches = two_batches();
    assert_eq!(append_float_batch(&mut values, &batches[0], "x"), Ok(()));
    assert_eq!(values, vec![7, 1.5f64.to_bits(), NAN_BITS]);
    assert_eq!(append_float_batch(&mut values, &batches[0], "n"), Err(ReadError::TypeMismatch));
    assert_eq!(append_float_batch(&mut values, &batches[0], "q"), Err(ReadError::ColumnNotFound));
    assert_eq!(values, vec![7, 1.5f64.to_bits(), NAN_BITS]);
}

#[test]
fn cells_are_appended_with_nan_for_null() {
    let mut values = vec![1u64];
    append_floats(&mut values, &vec![Some(2), None, Some(3), None]);
    assert_eq!(values, vec![1, 2, NAN_BITS, 3, NAN_BITS]);
    append_floats(&mut values, &Vec::new());
    assert_eq!(values.len(), 5);
}

#[test]
fn index_over_batches() {
    let df = frame(3);
    assert_eq!(df.read_index_microsecond(&two_batches()), Ok(vec![10, 20, 30]));
    assert_eq!(index_of_batches(&Vec::new()), Ok(vec![]));
}

#[test]
fn index_with_the_wrong_number_of_rows() {
    assert_eq!(
        frame(2).read_index_microsecond(&two_batches()),
        Err(ReadError::RowCountMismatch { expected: 2, found: 3 })
    );
}

#[test]
fn null_in_the_index_names_its_row() {
    let batches = vec![
        batch(vec![Some(10), Some(20)], vec![None, None], vec![None, None]),
        batch(vec![Some(30), None, None], vec![None, None, None], vec![None, None, None]),
    ];
    assert_eq!(
        frame(5).read_index_microsecond(&batches),
        Err(ReadError::IndexNullEncountered { row: 3 })
    );
}

#[test]
fn index_cells_are_appended_or_left() {
    let mut values = vec![5i64, 6];
    assert_eq!(append_index(&mut values, &vec![Some(7), Some(8)]), Ok(()));
    assert_eq!(values, vec![5, 6, 7, 8]);
    assert_eq!(
        append_index(&mut values, &vec![Some(9), None, Some(10), None]),
        Err(ReadError::IndexNullEncountered { row: 5 })
    );
    assert_eq!(values, vec![5, 6, 7, 8]);
    assert_eq!(append_index(&mut values, &Vec::new()), Ok(()));
}

fn index_batch_of(field: Field, column: ArrayRef) -> Batch {
    Batch { rows: RecordBatch::try_new(Arc::new(Schema::new(vec![field])), vec![column]).unwrap() }
}

#[test]
fn index_has_to_be_there() {
    let b = index_batch_of(
        Field::new("time", utc(), false),
        Arc::new(TimestampMicrosecondArray::from(vec![1]).with_timezone("UTC")),
    );
    assert_eq!(index_cells(&b), Err(ReadError::ColumnNotFound));
    assert_eq!(index_of_batches(&vec![b]), Err(ReadError::ColumnNotFound));
}

#[test]
fn index_has_to_be_in_utc() {
    let no_zone = index_batch_of(
        Field::new(INDEX_NAME, DataType::Timestamp(TimeUnit::Microsecond, None), false),
        Arc::new(TimestampMicrosecondArray::from(vec![1])),
    );
    assert_eq!(index_cells(&no_zone), Err(ReadError::IndexTypeMismatch));
    let other_zone = index_batch_of(
        Field::new(
            INDEX_NAME,
            DataType::Timestamp(TimeUnit::Microsecond, Some("Europe/Paris".into())),
            false,
        ),
        Arc::new(TimestampMicrosecondArray::from(vec![1]).with_timezone("Europe/Paris")),
    );
    assert_eq!(index_cells(&other_zone), Err(ReadError::IndexTypeMismatch));
}

#[test]
fn index_has_to_be_in_microseconds() {
    let millis = index_batch_of(
        Field::new(INDEX_NAME, DataType::Timestamp(TimeUnit::Millisecond, Some("UTC".into())), false),
        Arc::new(TimestampMillisecondArray::from(vec![1]).with_timezone("UTC")),
    );
    assert_eq!(index_cells(&millis), Err(ReadError::IndexTypeMismatch));
    let integers =
        index_batch_of(Field::new(INDEX_NAME, DataType::Int64, false), Arc::new(Int64Array::from(vec![1])));
    assert_eq!(index_cells(&integers), Err(ReadError::IndexTypeMismatch));
    let text = index_batch_of(
        Field::new(INDEX_NAME, DataType::Utf8, false),
        Arc::new(StringArray::from(vec!["1"])),
    );
    assert_eq!(index_of_batches(&vec![text]), Err(ReadError::IndexTypeMismatch));
}

#[test]
fn index_cells_of_a_batch() {
    let batches = two_batches();
    assert_eq!(index_cells(&batches[0]), Ok(vec![Some(10), Some(20)]));
    let with_null = batch(vec![None, Some(1)], vec![None, None], vec![None, None]);
    assert_eq!(index_cells(&with_null), Ok(vec![None, Some(1)]));
}

#[test]
fn first_error_ends_the_read() {
    let bad = index_batch_of(
        Field::new("x", DataType::Int64, false),
        Arc::new(Int64Array::from(vec![1])),
    );
    let mut batches = two_batches();
    batches.insert(1, bad);
    assert_eq!(floats_of_batches(&batches, "x"), Err(ReadError::TypeMismatch));
    assert_eq!(index_of_batches(&batches), Err(ReadError::ColumnNotFound));
}

#[test]
fn float_scan_takes_batches_one_by_one() {
    let df = frame(3);
    let batches = two_batches();
    let scan = df.begin_column_f64("x").ok().unwrap();
    let scan = scan.push(&batches[0]).ok().unwrap();
    let scan = scan.push(&batches[1]).ok().unwrap();
    assert_eq!(scan.finish(), Ok(vec![1.5f64.to_bits(), NAN_BITS, (-2.0f64).to_bits()]));
}

#[test]
fn float_scan_ends_early_or_late() {
    let df = frame(3);
    let batches = two_batches();
    let scan = df.begin_column_f64("x").ok().unwrap();
    assert_eq!(scan.finish(), Err(ReadError::RowCountMismatch { expected: 3, found: 0 }));
    let scan = df.begin_column_f64("x").ok().unwrap().push(&batches[0]).ok().unwrap();
    assert_eq!(scan.finish(), Err(ReadError::RowCountMismatch { expected: 3, found: 2 }));
    let mut scan = df.begin_column_f64("x").ok().unwrap();
    for b in [&batches[0], &batches[1], &batches[1]] {
        scan = scan.push(b).ok().unwrap();
    }
    assert_eq!(scan.finish(), Err(ReadError::RowCountMismatch { expected: 3, found: 4 }));
}

#[test]
fn float_scan_fails_where_a_batch_does() {
    let df = frame(3);
    let batches = two_batches();
    assert_eq!(df.begin_column_f64("y").err(), Some(ReadError::ColumnNotFound));
    let scan = df.begin_column_f64("n").ok().unwrap();
    assert_eq!(scan.push(&batches[0]).err(), Some(ReadError::TypeMismatch));
}

#[test]
fn index_scan_takes_batches_one_by_one() {
    let df = frame(3);
    let batches = two_batches();
    let scan = df.begin_index().push(&batches[0]).ok().unwrap();
    let scan = scan.push(&batches[1]).ok().unwrap();
    assert_eq!(scan.finish(), Ok(vec![10, 20, 30]));
    assert_eq!(frame(0).begin_index().finish(), Ok(vec![]));
    assert_eq!(
        df.begin_index().finish(),
        Err(ReadError::RowCountMismatch { expected: 3, found: 0 })
    );
}

#[test]
fn index_scan_counts_rows_over_batches() {
    let batches = two_batches();
    let with_null = batch(vec![Some(40), None], vec![None, None], vec![None, None]);
    let scan = frame(5).begin_index().push(&batches[0]).ok().unwrap();
    let scan = scan.push(&batches[1]).ok().unwrap();
    assert_eq!(scan.push(&with_null).err(), Some(ReadError::IndexNullEncountered { row: 4 }));
}

#[test]
fn index_of_one_batch_is_appended() {
    let batches = two_batches();
    let mut values = vec![1i64];
    assert_eq!(append_index_batch(&mut values, &batches[0]), Ok(()));
    assert_eq!(values, vec![1, 10, 20]);
    let with_null = batch(vec![None], vec![None], vec![None]);
    assert_eq!(
        append_index_batch(&mut values, &with_null),
        Err(ReadError::IndexNullEncountered { row: 3 })
    );
    assert_eq!(values, vec![1, 10, 20]);
}

#[test]
fn utc_microseconds() {
    assert!(is_utc_microseconds(&Some(Some("UTC".to_string()))));
    assert!(!is_utc_microseconds(&Some(Some("utc".to_string()))));
    assert!(!is_utc_microseconds(&Some(Some("+00:00".to_string()))));
    assert!(!is_utc_microseconds(&Some(None)));
    assert!(!is_utc_microseconds(&None));
}

#[test]
fn row_count_is_checked() {
    assert_eq!(check_row_count(vec![1, 2, 3], 3), Ok(vec![1, 2, 3]));
    assert_eq!(
        check_row_count(vec![1, 2, 3], 2),
        Err(ReadError::RowCountMismatch { expected: 2, found: 3 })
    );
    assert_eq!(check_row_count(Vec::<u8>::new(), 0), Ok(vec![]));
}

#[test]
fn footer_counts_that_agree() {
    assert_eq!(footer_row_count(0, &vec![]), Ok(0));
    assert_eq!(footer_row_count(0, &vec![0, 0]), Ok(0));
    assert_eq!(footer_row_count(10, &vec![10]), Ok(10));
    assert_eq!(footer_row_count(10, &vec![3, 0, 7]), Ok(10));
}

#[test]
fn footer_counts_that_disagree() {
    assert_eq!(footer_row_count(10, &vec![]), Err(LoadError::CorruptFooter));
    assert_eq!(footer_row_count(10, &vec![3, 6]), Err(LoadError::CorruptFooter));
    assert_eq!(footer_row_count(10, &vec![3, 8]), Err(LoadError::CorruptFooter));
    assert_eq!(footer_row_count(10, &vec![11, -1]), Err(LoadError::CorruptFooter));
    assert_eq!(footer_row_count(-1, &vec![-1]), Err(LoadError::CorruptFooter));
    assert_eq!(footer_row_count(0, &vec![1, -1]), Err(LoadError::CorruptFooter));
    assert_eq!(footer_row_count(i64::MAX, &vec![i64::MAX, 1]), Err(LoadError::CorruptFooter));
}
