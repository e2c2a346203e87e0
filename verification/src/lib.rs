//! Two sets over values that are filed under a 64-bit lookup key: a plain
//! hash-indexed set, and a set that keeps its elements in the order in which
//! they were first inserted.

pub mod entries;
pub mod key;
pub mod list;
pub mod ordered_set;
pub mod render;
pub mod set;
