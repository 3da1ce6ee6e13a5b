//! Collections for game workloads: a generational free list, a sparse set,
//! a slot vector with index reuse, a fixed-size bit set and a small vector
//! that holds up to a fixed number of elements before it spills.

pub mod free_list;
mod word_bits;
pub mod bit_set;
pub mod sparse_set;
pub mod slot_vec;
pub mod small_vec;
