//! Dataset nodes built on other dataset nodes.

pub mod pair_rdd;
pub mod shuffled_rdd;
