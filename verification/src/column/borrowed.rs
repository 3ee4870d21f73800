//! Borrowed column access

use crate::model::ColumnView;
use vstd::prelude::*;

verus! {

/// Borrowed view into a table's column
#[derive(Debug)]
pub struct HashTableColumnBorrowed<'t, 'k, Q, V> {
    pub(crate) column: &'k Q,
    pub(crate) values: Vec<&'t V>,
}

impl<'t, 'k, Q, V> View for HashTableColumnBorrowed<'t, 'k, Q, V> {
    type V = ColumnView<Q, V>;

    closed spec fn view(&self) -> ColumnView<Q, V> {
        ColumnView { key: *self.column, values: Seq::new(self.values@.len(), |r: int| *self.values@[r]) }
    }
}

impl<'t, 'k, Q, V> HashTableColumnBorrowed<'t, 'k, Q, V> {
    /// Makes the column from its key and the references to its values, one
    /// per row.
    pub(crate) fn new(column: &'k Q, values: Vec<&'t V>) -> (col: Self)
        ensures
            col@.key == *column,
            col@.values.len() == values@.len(),
            forall|r: int| 0 <= r < values@.len() ==> #[trigger] col@.values[r] == *values@[r],
    {
        HashTableColumnBorrowed { column, values }
    }

    /// Get the key of the table column
    pub fn column_key(&self) -> (key: &'k Q)
        ensures
            *key == self@.key,
    {
        self.column
    }

    /// The number of values of the column.
    pub fn len(&self) -> (n: usize)
        ensures
            n == self@.values.len(),
    {
        self.values.len()
    }

    /// The value of the column in the given row, or `None` where the column
    /// has no such row.
    pub fn get(&self, row: usize) -> (value: Option<&'t V>)
        ensures
            value == (if row < self@.values.len() {
                Some(&self@.values[row as int])
            } else {
                None
            }),
    {
        if row < self.values.len() {
            Some(self.values[row])
        } else {
            None
        }
    }

    /// The references to the values of the column, one per row, in row
    /// order.
    pub fn into_values(self) -> (values: Vec<&'t V>)
        ensures
            values@.len() == self@.values.len(),
            forall|r: int| 0 <= r < values@.len() ==> *(#[trigger] values@[r]) == self@.values[r],
    {
        self.values
    }
}

impl<'t, 'k, Q, V> Clone for HashTableColumnBorrowed<'t, 'k, Q, V> {
    fn clone(&self) -> (column: Self)
        ensures
            column@ == self@,
    {
        let mut values: Vec<&'t V> = Vec::with_capacity(self.values.len());
        let mut i: usize = 0;
        while i < self.values.len()
            invariant
                i <= self.values@.len(),
                values@ == self.values@.subrange(0, i as int),
            decreases self.values@.len() - i,
        {
            values.push(self.values[i]);
            proof {
                assert(values@ =~= self.values@.subrange(0, i + 1));
            }
            i = i + 1;
        }
        proof {
            assert(values@ =~= self.values@);
        }
        HashTableColumnBorrowed { column: self.column, values }
    }
}

impl<'t, 'k, Q, V> std::ops::Deref for HashTableColumnBorrowed<'t, 'k, Q, V> {
    type Target = Vec<&'t V>;

    /// The references to the values of the column, so that the column can
    /// be used as a vector.
    fn deref(&self) -> (values: &Vec<&'t V>)
        ensures
            values@.len() == self@.values.len(),
            forall|r: int| 0 <= r < values@.len() ==> *(#[trigger] values@[r]) == self@.values[r],
    {
        &self.values
    }
}

} // verus!
