//! Iterators that take a table apart: row by row, column by column, or
//! element by element from the end.

use crate::column::owned::HashTableColumnOwned;
use crate::model::TableView;
use crate::slots::{first_slot, lemma_slots_agree, slot_keys, slots_agree};
use crate::table::iter::directions::{Column, ElementsReverse, IterDirection, Row};
use crate::table::HashTable;
use std::hash::Hash;
use std::marker::PhantomData;
use vstd::prelude::*;
use vstd::std_specs::hash::obeys_key_model;

verus! {

broadcast use vstd::std_specs::hash::group_hash_axioms;

/// A table together with the direction in which it is to be taken apart.
pub struct TableOwnedIterWrapper<K, V, D> {
    pub table: HashTable<K, V>,
    pub dir_phantom: PhantomData<D>,
}

impl<K, V, D: IterDirection> TableOwnedIterWrapper<K, V, D> {
    /// Wraps the table.
    pub fn new(table: HashTable<K, V>) -> (wrapper: Self)
        ensures
            wrapper.table == table,
    {
        Self { table, dir_phantom: PhantomData }
    }
}

impl<K, V> TableOwnedIterWrapper<K, V, Row> {
    /// The iterator that hands out the rows, the first row first.
    pub fn into_iter(self) -> (iter: TableRowWiseOwnedIter<K, V>)
        requires
            self.table.wf(),
        ensures
            iter.wf(),
            iter.table_view() == self.table@,
    {
        TableRowWiseOwnedIter { table: self.table }
    }
}

impl<K, V> TableOwnedIterWrapper<K, V, Column> {
    /// The iterator that hands out the columns, in the order in which the
    /// table's map yields their keys.
    pub fn into_iter(self) -> (iter: TableColumnWiseOwnedIter<K, V>)
        requires
            self.table.wf(),
        ensures
            iter.wf(),
            iter.table_view() == self.table@,
    {
        TableColumnWiseOwnedIter { table: self.table }
    }
}

impl<K, V> TableOwnedIterWrapper<K, V, ElementsReverse> {
    /// The iterator that hands out the elements, the last element of the
    /// last row first.
    pub fn into_iter(self) -> (iter: TableElementWiseReverseOwnedIter<K, V>)
        requires
            self.table.wf(),
        ensures
            iter.wf(),
            iter.columns() == self.table@.columns,
            iter.remaining() == self.table.buffer(),
    {
        proof {
            self.table.lemma_wf_view();
        }
        let ghost order = self.table@.columns;
        let (indices_table, values_vector) = self.table.into_parts();
        TableElementWiseReverseOwnedIter { indices_table, values_vector, column_order: Ghost(order) }
    }
}

/// Row-wise iterator with ownership over the table: every step takes the
/// first row out of the table.
pub struct TableRowWiseOwnedIter<K, V> {
    table: HashTable<K, V>,
}

impl<K, V> TableRowWiseOwnedIter<K, V> {
    /// The table that is left is well-formed.
    pub closed spec fn wf(&self) -> bool {
        self.table.wf()
    }

    /// What is left of the table: the rows still to come, in order.
    pub closed spec fn table_view(&self) -> TableView<K, V> {
        self.table@
    }
}

impl<K: Clone + Hash + Eq, V> TableRowWiseOwnedIter<K, V> {
    /// Takes the first row out of the table and hands it out as `(key,
    /// value)` pairs in slot order, each key a clone of the column key;
    /// `None` where no row is left.
    pub fn next(&mut self) -> (r: Option<Vec<(K, V)>>)
        requires
            old(self).wf(),
        ensures
            final(self).wf(),
            match r {
                Some(pairs) => {
                    let old_view = old(self).table_view();
                    &&& old_view.rows_len() > 0
                    &&& final(self).table_view() == old_view.without_row(0)
                    &&& pairs@.len() == old_view.columns_len()
                    &&& forall|s: int|
                        0 <= s < pairs@.len() ==> cloned(old_view.columns[s], (#[trigger] pairs@[s]).0)
                            && pairs@[s].1 == old_view.rows[0][s]
                },
                None => old(self).table_view().rows_len() == 0 && final(self).table_view() == old(
                    self,
                ).table_view(),
            },
    {
        match self.table.remove_row(0) {
            Some(row) => Some(row.into_cloned_pairs()),
            None => None,
        }
    }
}

/// Column-wise iterator with ownership over the table: every step takes
/// out of the table the column whose key the table's map yields first.
pub struct TableColumnWiseOwnedIter<K, V> {
    table: HashTable<K, V>,
}

impl<K, V> TableColumnWiseOwnedIter<K, V> {
    /// The table that is left is well-formed.
    pub closed spec fn wf(&self) -> bool {
        self.table.wf()
    }

    /// What is left of the table: the columns still to come.
    pub closed spec fn table_view(&self) -> TableView<K, V> {
        self.table@
    }
}

impl<K: Hash + Eq, V> TableColumnWiseOwnedIter<K, V> {
    /// Takes one column out of the table and hands it out with its key and
    /// its values; `None` where no column is left. Which column comes is
    /// the choice of the table's map.
    pub fn next(&mut self) -> (r: Option<HashTableColumnOwned<K, V>>)
        requires
            old(self).wf(),
        ensures
            final(self).wf(),
            match r {
                Some(col) => old(self).table_view().has_column(col@.key) && col@.values == old(
                    self,
                ).table_view().column(col@.key) && final(self).table_view() == old(
                    self,
                ).table_view().without_column(col@.key),
                None => old(self).table_view().columns_len() == 0 && final(self).table_view() == old(
                    self,
                ).table_view(),
            },
    {
        proof {
            self.table.lemma_wf_view();
        }
        let (slots, _) = self.table.parts();
        match first_slot(slots) {
            Some(slot) => {
                proof {
                    lemma_slots_agree(slots@, self.table@.columns);
                    let k = choose|k: K| #[trigger] slots@.contains_key(k) && slots@[k] == slot;
                    assert(self.table@.columns[slot as int] == k);
                    assert(self.table@.slot(k) == slot);
                }
                Some(self.table.remove_column_at(slot))
            },
            None => {
                proof {
                    lemma_slots_agree(slots@, self.table@.columns);
                }
                None
            },
        }
    }
}

/// Element-wise iterator with ownership over the table: every step takes
/// the last value off the buffer, so the elements come from the last
/// element of the last row to the first element of the first row.
pub struct TableElementWiseReverseOwnedIter<K, V> {
    indices_table: std::collections::HashMap<K, usize>,
    values_vector: Vec<V>,
    column_order: Ghost<Seq<K>>,
}

impl<K, V> TableElementWiseReverseOwnedIter<K, V> {
    /// The map's slot indices are a gapless run from zero, and without
    /// columns there are no values.
    pub closed spec fn wf(&self) -> bool {
        &&& obeys_key_model::<K>()
        &&& slots_agree(self.indices_table@, self.column_order@)
        &&& self.column_order@.len() == 0 ==> self.values_vector@.len() == 0
    }

    /// The column keys by slot index.
    pub closed spec fn columns(&self) -> Seq<K> {
        self.column_order@
    }

    /// The values still to come, as they lie in the buffer: the last one
    /// comes first.
    pub closed spec fn remaining(&self) -> Seq<V> {
        self.values_vector@
    }
}

impl<K: Clone + Hash + Eq, V> TableElementWiseReverseOwnedIter<K, V> {
    /// Takes the last value off the buffer and hands it out with its
    /// coordinates: a clone of its column key and its row index; `None`
    /// where no value is left. The value at place `p` of the buffer belongs
    /// to row `p / columns` and to the column of slot `p % columns`.
    pub fn next(&mut self) -> (r: Option<((K, usize), V)>)
        requires
            old(self).wf(),
        ensures
            final(self).wf(),
            final(self).columns() == old(self).columns(),
            match r {
                Some(element) => {
                    let at = old(self).remaining().len() - 1;
                    let width = old(self).columns().len() as int;
                    &&& old(self).remaining().len() > 0
                    &&& width > 0
                    &&& element.1 == old(self).remaining()[at]
                    &&& final(self).remaining() == old(self).remaining().drop_last()
                    &&& (element.0).1 == at / width
                    &&& cloned(old(self).columns()[at % width], (element.0).0)
                },
                None => old(self).remaining().len() == 0 && final(self).remaining() == old(self).remaining(),
            },
    {
        if self.values_vector.is_empty() {
            None
        } else {
            proof {
                lemma_slots_agree(self.indices_table@, self.column_order@);
            }
            let columns = self.indices_table.len();
            let val = self.values_vector.pop().unwrap();
            let left = self.values_vector.len();
            let row_idx = left / columns;
            let col_idx = left % columns;
            let keys = slot_keys(&self.indices_table, Ghost(self.column_order@));
            let col_key = keys[col_idx].clone();
            Some(((col_key, row_idx), val))
        }
    }
}

} // verus!
