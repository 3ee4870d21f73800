//! Value-owned row access

use crate::model::{has_key, row_matches, RowView};
use crate::slots::{lemma_slots_agree, lookup_slot, slot_keys, slots_agree, wrap_all};
use crate::walk::{lemma_pairs_walk_rest, pairs_walk, ColumnWalk};
use std::collections::HashMap;
use std::hash::Hash;
use vstd::prelude::*;
use vstd::std_specs::hash::obeys_key_model;

verus! {

/// `HashTable` row that takes ownership over the row's values.
///
/// The keys stay with the table: the row borrows the table's map from column
/// key to slot index, by which its values are found.
pub struct HashTableRowValueOwned<'t, K, V> {
    pub(crate) parent_indices_table: &'t HashMap<K, usize>,
    pub(crate) values: Vec<V>,
    pub(crate) column_order: Ghost<Seq<K>>,
}

impl<'t, K, V> View for HashTableRowValueOwned<'t, K, V> {
    type V = RowView<K, V>;

    closed spec fn view(&self) -> RowView<K, V> {
        RowView { columns: self.column_order@, values: self.values@ }
    }
}

impl<'t, K, V> HashTableRowValueOwned<'t, K, V> {
    /// The representation invariant: the borrowed map's slot indices are a
    /// gapless run from zero, and the row holds one value for each of them.
    pub closed spec fn wf(&self) -> bool {
        &&& obeys_key_model::<K>()
        &&& slots_agree(self.parent_indices_table@, self.column_order@)
        &&& self.values@.len() == self.column_order@.len()
    }

    /// Makes the row from the table's slot map and the row's values in slot
    /// order.
    pub(crate) fn new(
        parent_indices_table: &'t HashMap<K, usize>,
        values: Vec<V>,
        column_order: Ghost<Seq<K>>,
    ) -> (row: Self)
        requires
            obeys_key_model::<K>(),
            slots_agree(parent_indices_table@, column_order@),
            values@.len() == column_order@.len(),
        ensures
            row.wf(),
            row@ == (RowView { columns: column_order@, values: values@ }),
    {
        HashTableRowValueOwned { parent_indices_table, values, column_order }
    }

    /// A well-formed row shows a well-formed view.
    pub proof fn lemma_wf_view(&self)
        requires
            self.wf(),
        ensures
            self@.wf(),
    {
        lemma_slots_agree(self.parent_indices_table@, self.column_order@);
    }
}

impl<'t, K: Hash + Eq, V> HashTableRowValueOwned<'t, K, V> {
    /// The value of the row in the column of the given key, or `None` where
    /// there is no such column.
    pub fn get(&self, key: &K) -> (r: Option<&V>)
        requires
            self.wf(),
        ensures
            r == (if self@.has_column(*key) {
                Some(&self@.value(*key))
            } else {
                None
            }),
    {
        proof {
            lemma_slots_agree(self.parent_indices_table@, self.column_order@);
        }
        match lookup_slot(self.parent_indices_table, key) {
            Some(idx) => Some(&self.values[idx]),
            None => None,
        }
    }

    /// The values of the row, in slot order.
    pub fn into_values(self) -> (values: Vec<V>)
        ensures
            values@ == self@.values,
    {
        self.values
    }
}

impl<'t, K, V> HashTableRowValueOwned<'t, K, V> {
    /// Walks the row column by column, in the order in which the table's
    /// map yields the column keys. Every column comes once, with the row's
    /// value in it.
    pub fn into_iter(self) -> (iter: HashTableRowValueOwnedIntoIter<'t, K, V>)
        requires
            self.wf(),
        ensures
            iter.wf(),
            row_matches(self@.columns, iter.remaining()),
            forall|i: int|
                0 <= i < iter.remaining().len() ==> (#[trigger] iter.remaining()[i]).1 == self@.value(
                    iter.remaining()[i].0,
                ),
    {
        let ghost row = self@;
        let ghost order = self.column_order@;
        proof {
            lemma_slots_agree(self.parent_indices_table@, order);
        }
        let walk = ColumnWalk::new(self.parent_indices_table, Ghost(order));
        let values = wrap_all(self.values);
        let iter = HashTableRowValueOwnedIntoIter { values, indices_table_iter: walk, column_order: Ghost(order) };
        proof {
            let up = walk.upcoming();
            let rem = iter.remaining();
            assert forall|s: int| 0 <= s < row.columns.len() implies has_key(rem, #[trigger] row.columns[s]) by {
                assert(has_key(up, row.columns[s]));
                let i = choose|i: int| 0 <= i < up.len() && (#[trigger] up[i]).0 == row.columns[s];
                assert(rem[i].0 == row.columns[s]);
            }
            assert forall|i: int| 0 <= i < rem.len() implies row.columns.contains((#[trigger] rem[i]).0) && rem[i].1
                == row.value(rem[i].0) by {
                assert(up[i].1 < row.columns.len());
                assert(row.columns[up[i].1 as int] == rem[i].0);
            }
        }
        iter
    }
}

impl<'t, K: Clone, V> HashTableRowValueOwned<'t, K, V> {
    /// The row as `(key, value)` pairs in slot order, each key being a clone
    /// of the table's column key.
    pub fn into_cloned_pairs(self) -> (pairs: Vec<(K, V)>)
        requires
            self.wf(),
        ensures
            pairs@.len() == self@.columns.len(),
            forall|s: int|
                0 <= s < pairs@.len() ==> cloned(self@.columns[s], (#[trigger] pairs@[s]).0) && pairs@[s].1
                    == self@.values[s],
    {
        let ghost row = self@;
        let keys = slot_keys(self.parent_indices_table, Ghost(self.column_order@));
        let mut pairs: Vec<(K, V)> = Vec::with_capacity(keys.len());
        for value in it: self.values
            invariant
                it.seq() == row.values,
                row.values.len() == row.columns.len(),
                keys@.len() == row.columns.len(),
                forall|i: int| 0 <= i < keys@.len() ==> *(#[trigger] keys@[i]) == row.columns[i],
                pairs@.len() == it.index(),
                forall|s: int|
                    0 <= s < it.index() ==> cloned(row.columns[s], (#[trigger] pairs@[s]).0) && pairs@[s].1
                        == row.values[s],
        {
            let ghost had = pairs@;
            let at = pairs.len();
            let key = keys[at].clone();
            pairs.push((key, value));
            proof {
                assert forall|s: int| 0 <= s < at + 1 implies cloned(row.columns[s], (#[trigger] pairs@[s]).0)
                    && pairs@[s].1 == row.values[s] by {
                    if s < at {
                        assert(pairs@[s] == had[s]);
                    }
                }
            }
        }
        pairs
    }
}

/// Iterator over a row whose values were taken out of the table
///
/// Returned by [`HashTableRowValueOwned::into_iter`]
pub struct HashTableRowValueOwnedIntoIter<'t, K, V> {
    values: Vec<Option<V>>,
    indices_table_iter: ColumnWalk<'t, K>,
    column_order: Ghost<Seq<K>>,
}

impl<'t, K, V> HashTableRowValueOwnedIntoIter<'t, K, V> {
    /// The walk stays among the columns of the row, and the value of every
    /// column still to come is still there.
    pub closed spec fn wf(&self) -> bool {
        &&& self.indices_table_iter.wf()
        &&& pairs_walk(self.indices_table_iter.upcoming(), self.column_order@)
        &&& self.values@.len() == self.column_order@.len()
        &&& forall|i: int|
            0 <= i < self.indices_table_iter.upcoming().len() ==> self.values@[(
            #[trigger] self.indices_table_iter.upcoming()[i]).1 as int] is Some
    }

    /// The `(key, value)` pairs still to come, in the order in which they
    /// will come.
    pub closed spec fn remaining(&self) -> Seq<(K, V)> {
        Seq::new(
            self.indices_table_iter.upcoming().len(),
            |i: int|
                (
                    self.indices_table_iter.upcoming()[i].0,
                    self.values@[self.indices_table_iter.upcoming()[i].1 as int]->0,
                ),
        )
    }

    /// The number of pairs still to come.
    pub fn len(&self) -> (n: usize)
        requires
            self.wf(),
        ensures
            n == self.remaining().len(),
    {
        self.indices_table_iter.len()
    }

    /// The number of pairs still to come, as lower and upper bound.
    pub fn size_hint(&self) -> (hint: (usize, Option<usize>))
        requires
            self.wf(),
        ensures
            hint.0 == self.remaining().len(),
            hint.1 == Some(hint.0),
    {
        let n = self.indices_table_iter.len();
        (n, Some(n))
    }

    /// The next column key with the row's value in that column, or `None`
    /// where every column has come. Each value is handed out once.
    pub fn next(&mut self) -> (r: Option<(&'t K, V)>)
        requires
            old(self).wf(),
        ensures
            final(self).wf(),
            match r {
                Some(pair) => old(self).remaining().len() > 0 && (*pair.0, pair.1) == old(self).remaining()[0]
                    && final(self).remaining() == old(self).remaining().drop_first(),
                None => old(self).remaining().len() == 0 && final(self).remaining() == old(self).remaining(),
            },
    {
        let ghost up = self.indices_table_iter.upcoming();
        proof {
            if up.len() > 0 {
                lemma_pairs_walk_rest(up, self.column_order@);
            }
        }
        match self.indices_table_iter.next() {
            Some((key, idx)) => {
                assert(up[0].1 == idx);
                let value = self.values[idx].take().unwrap();
                proof {
                    let rest = up.drop_first();
                    assert forall|i: int| 0 <= i < rest.len() implies self.values@[(#[trigger] rest[i]).1 as int]
                        == old(self).values@[rest[i].1 as int] by {
                        assert(rest[i].1 != up[0].1);
                    }
                    assert forall|i: int| 0 <= i < rest.len() implies self.values@[(#[trigger] rest[i]).1 as int] is Some by {
                        assert(rest[i] == up[i + 1]);
                    }
                    assert forall|i: int| 0 <= i < rest.len() implies #[trigger] self.remaining()[i] == old(
                        self,
                    ).remaining().drop_first()[i] by {
                        assert(rest[i] == up[i + 1]);
                    }
                    assert(self.remaining() =~= old(self).remaining().drop_first());
                }
                Some((key, value))
            },
            None => None,
        }
    }
}

} // verus!
