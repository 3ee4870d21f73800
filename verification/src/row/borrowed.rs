//! Borrowed row access

use crate::model::{has_key, row_matches, RowView};
use crate::slots::{each_key_once, lemma_slots_agree, lookup_slot, map_keys, slots_agree};
use std::collections::hash_map::Keys;
use vstd::std_specs::iter::IteratorSpec;
use crate::walk::{lemma_pairs_walk_rest, pairs_walk, ColumnWalk};
use std::collections::HashMap;
use std::hash::Hash;
use vstd::prelude::*;
use vstd::std_specs::hash::obeys_key_model;

verus! {

/// A row of a hash table that gives a borrowed access to its values
pub struct HashTableRowBorrowed<'t, K, V> {
    pub(crate) indices_table: &'t HashMap<K, usize>,
    pub(crate) row_values: &'t [V],
    pub(crate) column_order: Ghost<Seq<K>>,
}

impl<'t, K, V> View for HashTableRowBorrowed<'t, K, V> {
    type V = RowView<K, V>;

    closed spec fn view(&self) -> RowView<K, V> {
        RowView { columns: self.column_order@, values: self.row_values@ }
    }
}

impl<'t, K, V> Clone for HashTableRowBorrowed<'t, K, V> {
    fn clone(&self) -> (row: Self)
        ensures
            row == *self,
    {
        HashTableRowBorrowed {
            indices_table: self.indices_table,
            row_values: self.row_values,
            column_order: self.column_order,
        }
    }
}

impl<'t, K, V> Copy for HashTableRowBorrowed<'t, K, V> {

}

impl<'t, K, V> HashTableRowBorrowed<'t, K, V> {
    /// The representation invariant: the borrowed map's slot indices are a
    /// gapless run from zero, and the row holds one value for each of them.
    pub closed spec fn wf(&self) -> bool {
        &&& obeys_key_model::<K>()
        &&& slots_agree(self.indices_table@, self.column_order@)
        &&& self.row_values@.len() == self.column_order@.len()
    }

    /// Makes the row from the table's slot map and the row's values in slot
    /// order.
    pub(crate) fn new(
        indices_table: &'t HashMap<K, usize>,
        row_values: &'t [V],
        column_order: Ghost<Seq<K>>,
    ) -> (row: Self)
        requires
            obeys_key_model::<K>(),
            slots_agree(indices_table@, column_order@),
            row_values@.len() == column_order@.len(),
        ensures
            row.wf(),
            row@ == (RowView { columns: column_order@, values: row_values@ }),
    {
        HashTableRowBorrowed { indices_table, row_values, column_order }
    }

    /// A well-formed row shows a well-formed view.
    pub proof fn lemma_wf_view(&self)
        requires
            self.wf(),
        ensures
            self@.wf(),
    {
        lemma_slots_agree(self.indices_table@, self.column_order@);
    }

    /// Return an iterator over the keys of the columns of the table: the
    /// iterator of the table's map over its keys, which yields every column
    /// key once, in the map's own order.
    pub fn columns_keys(&self) -> (keys: Keys<'t, K, usize>)
        requires
            self.wf(),
        ensures
            each_key_once(IteratorSpec::remaining(&keys).unref(), self@.columns),
    {
        map_keys(self.indices_table, Ghost(self.column_order@))
    }

    /// Return an amount of columns in the row
    pub fn columns_len(&self) -> (n: usize)
        requires
            self.wf(),
        ensures
            n == self@.columns.len(),
    {
        self.indices_table.len()
    }

    /// The values of the row, in slot order.
    pub fn values(&self) -> (values: &'t [V])
        ensures
            values@ == self@.values,
    {
        self.row_values
    }
}

impl<'t, K: Hash + Eq, V> HashTableRowBorrowed<'t, K, V> {
    /// Get an element of the row in the requested `column`: `None` where
    /// there is no such column.
    pub fn get(&self, column: &K) -> (r: Option<&'t V>)
        requires
            self.wf(),
        ensures
            r == (if self@.has_column(*column) {
                Some(&self@.value(*column))
            } else {
                None
            }),
    {
        proof {
            lemma_slots_agree(self.indices_table@, self.column_order@);
        }
        match lookup_slot(self.indices_table, column) {
            Some(i) => Some(&self.row_values[i]),
            None => None,
        }
    }
}

impl<'t, K, V> HashTableRowBorrowed<'t, K, V> {
    /// Walks the row column by column, in the order in which the table's
    /// map yields the column keys. Every column comes once, with the row's
    /// value in it.
    pub fn into_iter(self) -> (iter: BorrowedRowIter<'t, K, V>)
        requires
            self.wf(),
        ensures
            iter.wf(),
            row_matches(self@.columns, iter.remaining()),
            forall|i: int|
                0 <= i < iter.remaining().len() ==> (#[trigger] iter.remaining()[i]).1 == self@.value(
                    iter.remaining()[i].0,
                ),
    {
        let walk = ColumnWalk::new(self.indices_table, Ghost(self.column_order@));
        let iter = BorrowedRowIter { walk, values: self.row_values, column_order: self.column_order };
        proof {
            lemma_slots_agree(self.indices_table@, self.column_order@);
            let up = walk.upcoming();
            let rem = iter.remaining();
            assert forall|s: int| 0 <= s < self@.columns.len() implies has_key(rem, #[trigger] self@.columns[s]) by {
                assert(has_key(up, self@.columns[s]));
                let i = choose|i: int| 0 <= i < up.len() && (#[trigger] up[i]).0 == self@.columns[s];
                assert(rem[i].0 == self@.columns[s]);
            }
            assert forall|i: int| 0 <= i < rem.len() implies self@.columns.contains((#[trigger] rem[i]).0) && rem[i].1
                == self@.value(rem[i].0) by {
                assert(up[i].1 < self@.columns.len());
                assert(self@.columns[up[i].1 as int] == rem[i].0);
            }
        }
        iter
    }
}

/// Iterator over a row of a borrowed table
///
/// Returned by [`HashTableRowBorrowed::into_iter`]
pub struct BorrowedRowIter<'t, K, V> {
    walk: ColumnWalk<'t, K>,
    values: &'t [V],
    column_order: Ghost<Seq<K>>,
}

impl<'t, K, V> BorrowedRowIter<'t, K, V> {
    /// The walk stays among the columns of the row, and the row holds one
    /// value for each column.
    pub closed spec fn wf(&self) -> bool {
        &&& self.walk.wf()
        &&& pairs_walk(self.walk.upcoming(), self.column_order@)
        &&& self.values@.len() == self.column_order@.len()
    }

    /// The `(key, value)` pairs still to come, in the order in which they
    /// will come.
    pub closed spec fn remaining(&self) -> Seq<(K, V)> {
        Seq::new(
            self.walk.upcoming().len(),
            |i: int| (self.walk.upcoming()[i].0, self.values@[self.walk.upcoming()[i].1 as int]),
        )
    }

    /// The number of pairs still to come.
    pub fn len(&self) -> (n: usize)
        requires
            self.wf(),
        ensures
            n == self.remaining().len(),
    {
        self.walk.len()
    }

    /// The number of pairs still to come, as lower and upper bound.
    pub fn size_hint(&self) -> (hint: (usize, Option<usize>))
        requires
            self.wf(),
        ensures
            hint.0 == self.remaining().len(),
            hint.1 == Some(hint.0),
    {
        let n = self.walk.len();
        (n, Some(n))
    }

    /// The next column key with the row's value in that column, or `None`
    /// where every column has come.
    pub fn next(&mut self) -> (r: Option<(&'t K, &'t V)>)
        requires
            old(self).wf(),
        ensures
            final(self).wf(),
            match r {
                Some(pair) => old(self).remaining().len() > 0 && (*pair.0, *pair.1) == old(self).remaining()[0]
                    && final(self).remaining() == old(self).remaining().drop_first(),
                None => old(self).remaining().len() == 0 && final(self).remaining() == old(self).remaining(),
            },
    {
        proof {
            if self.walk.upcoming().len() > 0 {
                lemma_pairs_walk_rest(self.walk.upcoming(), self.column_order@);
            }
        }
        match self.walk.next() {
            Some((key, idx)) => {
                let val = &self.values[idx];
                proof {
                    assert(self.remaining() =~= old(self).remaining().drop_first());
                }
                Some((key, val))
            },
            None => None,
        }
    }
}

impl<'t, K, V> Clone for BorrowedRowIter<'t, K, V> {
    fn clone(&self) -> (iter: Self)
        ensures
            iter.wf() == self.wf(),
            iter.remaining() == self.remaining(),
    {
        BorrowedRowIter { walk: self.walk.clone(), values: self.values, column_order: self.column_order }
    }
}

} // verus!
