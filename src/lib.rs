//! Packed flag sets: a compiler from nested flag and group declarations to
//! resolved bit patterns, and the fixed-width bitset they are stored in.

pub mod bitmask;
pub mod codec;
pub mod compile;
pub mod decl;
pub mod dep_graph;
pub mod error;
pub mod internal;
pub mod laws;
pub mod layout;
mod sealed;
pub mod shared;
