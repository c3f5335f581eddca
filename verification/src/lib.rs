//! Column profiling for CSV data: value classification, per-column
//! statistics, type inference, frequency tables and joins of value counts.

pub mod analyzer;
pub mod correlate;
pub mod freq;
pub mod profiler;
pub mod table;
pub mod text;

pub use analyzer::{stream_csv, ColumnAnalyzer, ColumnType, CsvProfError, StatsAnalyzer};
