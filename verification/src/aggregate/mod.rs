//! Accumulators.

pub mod array_agg;
pub mod array_agg_laws;
pub mod count_distinct;
pub mod ordered_groups_accumulator;
pub mod prim_op;
