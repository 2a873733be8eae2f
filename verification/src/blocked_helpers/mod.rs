//! Builders that spread their values over a queue of blocks, so that a finished
//! block can be handed out without moving what comes after it.

pub mod bits;
pub mod blocked_boolean_builder;
pub mod blocked_byte_array_builder;
pub mod blocked_bytes_buffer_builder;
pub mod blocked_custom_input_builder;
pub mod blocked_nulls_builder;
pub mod blocked_offset_buffer_builder;
pub mod blocked_vec;
pub mod blocked_vec_builder;
pub mod builder_laws;
pub mod byte_array_laws;
pub mod item_laws;
pub mod laws;
pub mod layout;
pub mod layout_laws;
pub mod offset_block;
pub mod offset_size;
pub mod take_n_helpers;
