//! Views of one column of a table.

pub mod borrowed;
pub mod owned;

use crate::table::HashTable;
use std::hash::Hash;
use vstd::prelude::*;

verus! {

/// A column of a table, seen through the table: the view holds the table
/// and the key, and looks every value up when it is asked for.
pub struct HashTableColumn<'t, 'k, K, Q, V> {
    pub(crate) parent_table: &'t HashTable<K, V>,
    pub(crate) column: &'k Q,
}

impl<'t, 'k, K, Q, V> Clone for HashTableColumn<'t, 'k, K, Q, V> {
    fn clone(&self) -> (column: Self)
        ensures
            column == *self,
    {
        HashTableColumn { parent_table: self.parent_table, column: self.column }
    }
}

impl<'t, 'k, K, Q, V> Copy for HashTableColumn<'t, 'k, K, Q, V> {

}

impl<'t, 'k, K, Q, V> HashTableColumn<'t, 'k, K, Q, V> {
    /// The table that the column is seen through.
    pub closed spec fn table(&self) -> HashTable<K, V> {
        *self.parent_table
    }

    /// The key of the column.
    pub closed spec fn key(&self) -> Q {
        *self.column
    }

    /// Makes the view of the column of `column` in `parent_table`. The
    /// table need not have such a column: the view is then empty.
    pub fn new(parent_table: &'t HashTable<K, V>, column: &'k Q) -> (view: Self)
        ensures
            view.table() == *parent_table,
            view.key() == *column,
    {
        HashTableColumn { parent_table, column }
    }

    /// The key of the column.
    pub fn column_key(&self) -> (key: &'k Q)
        ensures
            *key == self.key(),
    {
        self.column
    }
}

impl<'t, 'k, K: Hash + Eq, V> HashTableColumn<'t, 'k, K, K, V> {
    /// The value of the column in the given row: `None` where the table
    /// has no such column or no such row.
    pub fn get(&self, row: usize) -> (r: Option<&'t V>)
        requires
            self.table().wf(),
        ensures
            r == (if self.table()@.has_cell(self.key(), row as int) {
                Some(&self.table()@.cell(self.key(), row as int))
            } else {
                None
            }),
    {
        self.parent_table.get(self.column, row)
    }

    /// Walks the column row by row, from the first row on.
    pub fn into_iter(self) -> (iter: ColumnIter<'t, 'k, K, K, V>)
        ensures
            iter.column() == self,
            iter.position() == 0,
    {
        ColumnIter { column: self, row_idx: 0 }
    }
}

/// Iterator over the values of a column, in row order.
pub struct ColumnIter<'t, 'k, K, Q, V> {
    column: HashTableColumn<'t, 'k, K, Q, V>,
    row_idx: usize,
}

impl<'t, 'k, K, Q, V> Clone for ColumnIter<'t, 'k, K, Q, V> {
    fn clone(&self) -> (iter: Self)
        ensures
            iter == *self,
    {
        ColumnIter { column: self.column, row_idx: self.row_idx }
    }
}

impl<'t, 'k, K, Q, V> Copy for ColumnIter<'t, 'k, K, Q, V> {

}

impl<'t, 'k, K, Q, V> ColumnIter<'t, 'k, K, Q, V> {
    /// The column that is walked.
    pub closed spec fn column(&self) -> HashTableColumn<'t, 'k, K, Q, V> {
        self.column
    }

    /// The index of the row that comes next.
    pub closed spec fn position(&self) -> nat {
        self.row_idx as nat
    }
}

impl<'t, 'k, K: Hash + Eq, V> ColumnIter<'t, 'k, K, K, V> {
    /// The value of the column in the next row; `None`, with the cursor
    /// left where it is, where the table has no such column or no more
    /// rows.
    pub fn next(&mut self) -> (r: Option<&'t V>)
        requires
            old(self).column().table().wf(),
        ensures
            final(self).column() == old(self).column(),
            match r {
                Some(value) => {
                    let table = old(self).column().table()@;
                    let key = old(self).column().key();
                    &&& table.has_cell(key, old(self).position() as int)
                    &&& *value == table.cell(key, old(self).position() as int)
                    &&& final(self).position() == old(self).position() + 1
                },
                None => !old(self).column().table()@.has_cell(
                    old(self).column().key(),
                    old(self).position() as int,
                ) && final(self).position() == old(self).position(),
            },
    {
        let val = self.column.get(self.row_idx);
        if val.is_some() {
            proof {
                self.column.parent_table.lemma_wf_view();
            }
            let rows = self.column.parent_table.rows_len();
            assert(self.row_idx < rows);
            self.row_idx = self.row_idx + 1;
        }
        val
    }
}

} // verus!
