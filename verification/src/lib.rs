//! An in-memory table: a grid of values addressed by a hashable column key
//! and a row index, stored as one row-major buffer beside a map from column
//! key to slot index.

pub mod buffer;
pub mod column;
pub mod laws;
pub mod model;
pub mod row;
pub mod slots;
pub mod table;
pub mod walk;

pub use std::collections::hash_map::Keys;
pub use std::collections::HashMap;
pub use std::hash::Hash;
pub use table::HashTable;
