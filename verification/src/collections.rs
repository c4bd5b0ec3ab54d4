//! Containers that can hand out a point-in-time view of themselves.

pub mod hash_map;
pub(crate) mod key_order;
pub mod model;
pub mod snapshot_slab;
