//! Columnar builders that keep their values in blocks, and grouping state on top of them.

pub mod aggregate;
pub mod arrow_buffers;
pub mod blocked_helpers;
mod collections;
pub mod groups_accumulator;
pub mod memory;
pub mod multi_group_by;
pub mod ordered_groups_accumulator;
pub mod ordered_groups_laws;
