//! A bidirectional multimap: a set of (key, value) relations kept in a
//! fixed two-dimensional grid of buckets, so that the values of a key and
//! the keys of a value can both be found by scanning one row or one column.
mod grid;
pub mod hasher;
pub mod map;
pub mod range;

pub use hasher::{HashProvider, StdHashProvider};
pub use map::{BiMultiMap, MapError};
pub use range::FstRange;
