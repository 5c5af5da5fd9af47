//! Column-oriented reading of tabular data: tables read from delimited
//! text, columnar sources read from record batches, and the interface that
//! both offer.

pub mod batch;
pub mod bits;
pub mod csv;
pub mod dataframe;
pub mod decimal;
pub mod header;
pub mod parquet;
pub mod stats;
pub mod text;

pub use csv::{parse_i64_lossy, read_csv, CsvDataFrame};
pub use dataframe::{DataFrame, LoadError, ReadError};
pub use parquet::ArrowDataFrame;
