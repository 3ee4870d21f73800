//! Mutable borrow row access

use crate::model::{pair_keys, RowView};
use crate::slots::{each_key_once, lemma_slots_agree, lookup_slot, slots_agree};
use crate::walk::{lemma_pairs_walk_rest, pairs_walk, ColumnWalk};
use crate::table::iter::lemma_walk_visits_each;
use std::collections::HashMap;
use std::hash::Hash;
use vstd::prelude::*;
use vstd::std_specs::hash::obeys_key_model;

verus! {

/// Row of a table with mutable access to the values
pub struct HashTableMutableBorrowedRow<'t, K, V> {
    pub indices_table: &'t HashMap<K, usize>,
    pub values: &'t mut [V],
    pub column_order: Ghost<Seq<K>>,
}

impl<'t, K, V> HashTableMutableBorrowedRow<'t, K, V> {
    /// The borrowed map's slot indices are a gapless run from zero, and the
    /// row holds one value for each of them.
    pub open spec fn wf(&self) -> bool {
        &&& obeys_key_model::<K>()
        &&& slots_agree(self.indices_table@, self.column_order@)
        &&& self.values@.len() == self.column_order@.len()
    }

    /// The column keys and the values of the row, both by slot index.
    pub open spec fn view(&self) -> RowView<K, V> {
        RowView { columns: self.column_order@, values: self.values@ }
    }
}

impl<'t, K: Hash + Eq, V> HashTableMutableBorrowedRow<'t, K, V> {
    /// Get an element of this row in the requested `column`: `None` where
    /// there is no such column. What is written through the reference
    /// becomes the element.
    pub fn get(&mut self, column: &K) -> (r: Option<&mut V>)
        requires
            old(self).wf(),
        ensures
            final(self).wf(),
            match r {
                Some(v) => old(self)@.has_column(*column) && *v == old(self)@.value(*column) && final(self)@
                    == old(self)@.with_value(*column, *final(v)),
                None => !old(self)@.has_column(*column) && final(self)@ == old(self)@,
            },
    {
        proof {
            lemma_slots_agree(self.indices_table@, self.column_order@);
        }
        match lookup_slot(self.indices_table, column) {
            Some(i) => Some(&mut self.values[i]),
            None => None,
        }
    }
}

impl<'t, K, V> HashTableMutableBorrowedRow<'t, K, V> {
    /// Walks the row column by column, in the order in which the table's
    /// map yields the column keys. Every column comes once.
    pub fn into_iter(self) -> (iter: HashTableMutableBorrowedRowIntoIter<'t, K, V>)
        requires
            self.wf(),
        ensures
            iter.wf(),
            iter.values@ == old(self.values)@,
            iter.column_order@ == self.column_order@,
            each_key_once(iter.remaining(), self.column_order@),
            final(self.values)@ == final(iter.values)@,
    {
        proof {
            lemma_slots_agree(self.indices_table@, self.column_order@);
        }
        let walk = ColumnWalk::new(self.indices_table, Ghost(self.column_order@));
        proof {
            lemma_walk_visits_each(walk.upcoming(), self.column_order@);
        }
        HashTableMutableBorrowedRowIntoIter {
            indices_table_iter: walk,
            values: self.values,
            column_order: self.column_order,
        }
    }
}

/// Iterator over mutable references to values of a table row.
///
/// Returned by [`HashTableMutableBorrowedRow::into_iter`]. It lends one
/// reference at a time: the reference to one value is given back before
/// the next one is handed out.
pub struct HashTableMutableBorrowedRowIntoIter<'t, K, V> {
    pub indices_table_iter: ColumnWalk<'t, K>,
    pub values: &'t mut [V],
    pub column_order: Ghost<Seq<K>>,
}

impl<'t, K, V> HashTableMutableBorrowedRowIntoIter<'t, K, V> {
    /// The walk stays among the columns of the row, no column comes twice,
    /// and the row holds one value for each column.
    pub open spec fn wf(&self) -> bool {
        &&& self.indices_table_iter.wf()
        &&& pairs_walk(self.indices_table_iter.upcoming(), self.column_order@)
        &&& self.values@.len() == self.column_order@.len()
    }

    /// The keys of the columns still to come, in the order in which they
    /// will come.
    pub open spec fn remaining(&self) -> Seq<K> {
        pair_keys(self.indices_table_iter.upcoming())
    }

    /// The slot indices of the columns still to come, in the order in
    /// which they will come.
    pub open spec fn remaining_slots(&self) -> Seq<usize> {
        Seq::new(self.indices_table_iter.upcoming().len(), |i: int| self.indices_table_iter.upcoming()[i].1)
    }

    /// The next column key with a mutable reference to the row's value in
    /// that column, or `None` where every column has come. What is written
    /// through the reference becomes the value; no other value changes.
    pub fn next(&mut self) -> (r: Option<(&'t K, &mut V)>)
        requires
            old(self).wf(),
        ensures
            final(self).wf(),
            final(self).column_order@ == old(self).column_order@,
            match r {
                Some(pair) => {
                    let slot = old(self).remaining_slots()[0] as int;
                    &&& old(self).remaining().len() > 0
                    &&& *pair.0 == old(self).remaining()[0]
                    &&& old(self).column_order@[slot] == *pair.0
                    &&& *pair.1 == old(self).values@[slot]
                    &&& final(self).values@ == old(self).values@.update(slot, *final(pair.1))
                    &&& final(self).remaining() == old(self).remaining().drop_first()
                },
                None => old(self).remaining().len() == 0 && final(self).remaining() == old(self).remaining()
                    && final(self).values@ == old(self).values@,
            },
    {
        let ghost up = self.indices_table_iter.upcoming();
        proof {
            if up.len() > 0 {
                lemma_pairs_walk_rest(up, self.column_order@);
            }
        }
        match self.indices_table_iter.next() {
            Some((key, idx)) => {
                proof {
                    assert(self.remaining() =~= old(self).remaining().drop_first());
                }
                Some((key, &mut self.values[idx]))
            },
            None => None,
        }
    }
}

} // verus!
