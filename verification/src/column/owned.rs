//! Owned column access

use crate::model::ColumnView;
use vstd::prelude::*;

verus! {

/// A column of a table.
///
/// Takes ownership over the key of the column and its values
#[derive(Debug)]
pub struct HashTableColumnOwned<K, V> {
    pub key: K,
    pub values: Vec<V>,
}

impl<K, V> View for HashTableColumnOwned<K, V> {
    type V = ColumnView<K, V>;

    open spec fn view(&self) -> ColumnView<K, V> {
        ColumnView { key: self.key, values: self.values@ }
    }
}

impl<K, V> HashTableColumnOwned<K, V> {
    /// Makes a column from its key and its values, one per row.
    pub fn new(key: K, values: Vec<V>) -> (column: Self)
        ensures
            column@ == (ColumnView { key, values: values@ }),
    {
        HashTableColumnOwned { key, values }
    }

    /// Get the key of the column
    pub fn key(&self) -> (key: &K)
        ensures
            *key == self@.key,
    {
        &self.key
    }

    /// The values of the column, one per row, in row order.
    pub fn values(&self) -> (values: &Vec<V>)
        ensures
            values@ == self@.values,
    {
        &self.values
    }

    /// The number of values of the column.
    pub fn len(&self) -> (n: usize)
        ensures
            n == self@.values.len(),
    {
        self.values.len()
    }

    /// The value of the column in the given row, or `None` where the column
    /// has no such row.
    pub fn get(&self, row: usize) -> (value: Option<&V>)
        ensures
            value == (if row < self@.values.len() {
                Some(&self@.values[row as int])
            } else {
                None
            }),
    {
        if row < self.values.len() {
            Some(&self.values[row])
        } else {
            None
        }
    }

    /// Take the values of the column and drop the key
    pub fn into_values(self) -> (values: Vec<V>)
        ensures
            values@ == self@.values,
    {
        self.values
    }

    /// Take the key of the column and drop the values
    pub fn into_key(self) -> (key: K)
        ensures
            key == self@.key,
    {
        self.key
    }

    /// Take the inner key and values
    pub fn into_pair(self) -> (pair: (K, Vec<V>))
        ensures
            pair.0 == self@.key,
            pair.1@ == self@.values,
    {
        (self.key, self.values)
    }
}

impl<K, V> From<(K, Vec<V>)> for HashTableColumnOwned<K, V> {
    /// Makes a column from its key and its values, one per row.
    fn from(value: (K, Vec<V>)) -> (column: Self) {
        HashTableColumnOwned { key: value.0, values: value.1 }
    }
}

impl<K, V> vstd::std_specs::convert::FromSpecImpl<(K, Vec<V>)> for HashTableColumnOwned<K, V> {
    open spec fn obeys_from_spec() -> bool {
        true
    }

    open spec fn from_spec(value: (K, Vec<V>)) -> Self {
        HashTableColumnOwned { key: value.0, values: value.1 }
    }
}

impl<K, V> std::ops::Deref for HashTableColumnOwned<K, V> {
    type Target = Vec<V>;

    /// The values of the column, so that the column can be used as a
    /// vector.
    fn deref(&self) -> (values: &Vec<V>)
        ensures
            values@ == self@.values,
    {
        &self.values
    }
}

} // verus!
