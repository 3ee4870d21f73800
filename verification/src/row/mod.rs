//! Views of one row of a table.

pub mod borrowed;
pub mod mutable;
pub mod owned;
pub mod value_owned;
