//! Owned row access

use std::collections::HashMap;
use vstd::prelude::*;

verus! {

/// `HashTable` row that takes ownership over the row's values, each under a
/// reference to its column key.
#[derive(Debug)]
pub struct HashTableRowOwned<'t, K, V> {
    pub(crate) inner: HashMap<&'t K, V>,
}

impl<'t, K, V> HashTableRowOwned<'t, K, V> {
    /// The values of the row by the references to their column keys.
    pub closed spec fn entries(&self) -> Map<&'t K, V> {
        self.inner@
    }

    /// Wraps the map from key reference to value.
    pub fn new(inner: HashMap<&'t K, V>) -> (row: Self)
        ensures
            row.entries() == inner@,
    {
        HashTableRowOwned { inner }
    }

    /// The map from key reference to value.
    pub fn into_inner(self) -> (inner: HashMap<&'t K, V>)
        ensures
            inner@ == self.entries(),
    {
        self.inner
    }

    /// The map from key reference to value.
    pub fn inner(&self) -> (inner: &HashMap<&'t K, V>)
        ensures
            inner@ == self.entries(),
    {
        &self.inner
    }
}

} // verus!
