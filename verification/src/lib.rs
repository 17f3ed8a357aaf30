//! Verified parts of a small ArceOS-based application loader: the early
//! bump allocator, the device-tree summary, the hash map of the standard
//! library layer and the loader's header parsing.

pub mod allocator;
pub mod bytes;
pub mod collections;
pub mod dtb;
pub mod fdt_walk;
pub mod loader;
