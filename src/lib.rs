//! Per-station temperature statistics over `name;value` records: a
//! fixed-point measurement parser, a running min/max/sum/count accumulator
//! with its merge, record-aligned partitioning of the input bytes, a scanner
//! that builds one table per partition, and the merge of those tables.
pub mod fixed_point;
pub mod station;
pub mod partition;
pub mod table;
pub mod scanner;
pub mod aggregate;
