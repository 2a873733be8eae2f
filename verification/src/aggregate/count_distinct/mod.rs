//! The distinct values of each group.

pub mod batch_laws;
pub mod batches;
pub mod bytes_group_accumulator;
pub mod collect_set;
pub mod distinct_value;
pub mod emit_laws;
pub mod helpers;
pub mod index_table;
pub mod laws;
pub mod lists;
pub mod native_group_accumulator;
