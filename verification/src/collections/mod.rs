//! Collections of the standard-library layer.

pub mod hashbrown;
pub mod hash_map;
