//! A table wrapped with the direction in which it is to be taken apart.

use crate::table::iter::directions::{Column, ElementsReverse, IterDirection, Row};
use crate::table::iter::owned::{
    TableColumnWiseOwnedIter, TableElementWiseReverseOwnedIter, TableOwnedIterWrapper, TableRowWiseOwnedIter,
};
use crate::table::HashTable;
use std::marker::PhantomData;
use vstd::prelude::*;

verus! {

/// A table together with the direction in which it is to be taken apart.
pub struct TableIterWrapper<K, V, D> {
    pub table: HashTable<K, V>,
    pub dir_phantom: PhantomData<D>,
}

impl<K, V, D: IterDirection> TableIterWrapper<K, V, D> {
    /// Wraps the table.
    pub fn new(table: HashTable<K, V>) -> (wrapper: Self)
        ensures
            wrapper.table == table,
    {
        Self { table, dir_phantom: PhantomData }
    }
}

impl<K, V> TableIterWrapper<K, V, Row> {
    /// The iterator that hands out the rows, the first row first.
    pub fn into_iter(self) -> (iter: TableRowWiseOwnedIter<K, V>)
        requires
            self.table.wf(),
        ensures
            iter.wf(),
            iter.table_view() == self.table@,
    {
        TableOwnedIterWrapper::<K, V, Row>::new(self.table).into_iter()
    }
}

impl<K, V> TableIterWrapper<K, V, Column> {
    /// The iterator that hands out the columns, in the order in which the
    /// table's map yields their keys.
    pub fn into_iter(self) -> (iter: TableColumnWiseOwnedIter<K, V>)
        requires
            self.table.wf(),
        ensures
            iter.wf(),
            iter.table_view() == self.table@,
    {
        TableOwnedIterWrapper::<K, V, Column>::new(self.table).into_iter()
    }
}

impl<K, V> TableIterWrapper<K, V, ElementsReverse> {
    /// The iterator that hands out the elements, the last element of the
    /// last row first.
    pub fn into_iter(self) -> (iter: TableElementWiseReverseOwnedIter<K, V>)
        requires
            self.table.wf(),
        ensures
            iter.wf(),
            iter.columns() == self.table@.columns,
            iter.remaining() == self.table.buffer(),
    {
        TableOwnedIterWrapper::<K, V, ElementsReverse>::new(self.table).into_iter()
    }
}

} // verus!
