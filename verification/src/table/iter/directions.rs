//! The directions in which a table can be taken apart.

use vstd::prelude::*;

verus! {

/// A direction of iteration over a table.
pub trait IterDirection {

}

/// Column by column.
#[derive(Debug, Clone, Copy)]
pub struct Column;

impl IterDirection for Column {

}

/// Row by row.
#[derive(Debug, Clone, Copy)]
pub struct Row;

impl IterDirection for Row {

}

/// Element by element, from the last element of the last row to the first
/// element of the first row.
#[derive(Debug, Clone, Copy)]
pub struct ElementsReverse;

impl IterDirection for ElementsReverse {

}

} // verus!
