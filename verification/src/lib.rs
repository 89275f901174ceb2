//! Content-addressed snapshots of directory trees: building a hashed tree
//! from raw directory data, flattening it to a path-to-hash index, diffing
//! two indices, and persisting a snapshot as text.
pub mod codec;
pub mod command;
pub mod common;
pub mod diff;
pub mod map;
pub mod order;
