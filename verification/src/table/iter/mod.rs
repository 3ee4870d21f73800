//! Implementation of various ways to iterate over a hashtable

pub mod directions;
pub mod owned;
pub mod wrapper;

use crate::column::borrowed::HashTableColumnBorrowed;
use crate::column::owned::HashTableColumnOwned;
use crate::model::{
    lemma_cell_in_buffer, lemma_cell_place_unique, lemma_complete_rows_exact, pair_keys, ColumnView, TableView,
};
use crate::row::borrowed::HashTableRowBorrowed;
use crate::slots::{each_key_once, into_pairs, wrap_all};
use crate::table::HashTable;
use crate::walk::{lemma_pairs_of_walk, lemma_pairs_walk_rest, pairs_cover, pairs_walk, ColumnWalk};
use std::hash::Hash;
use vstd::prelude::*;

verus! {

broadcast use vstd::std_specs::hash::group_hash_axioms;

/// A walk over all columns visits each column once.
pub proof fn lemma_walk_visits_each<K>(pairs: Seq<(K, usize)>, order: Seq<K>)
    requires
        order.no_duplicates(),
        pairs_walk(pairs, order),
        pairs_cover(pairs, order),
    ensures
        each_key_once(pair_keys(pairs), order),
{
    let keys = pair_keys(pairs);
    assert forall|i: int, j: int| 0 <= i < keys.len() && 0 <= j < keys.len() && i != j implies keys[i] != keys[j] by {
        if i < j {
            assert(pairs[i].1 != pairs[j].1);
        } else {
            assert(pairs[j].1 != pairs[i].1);
        }
        assert(order[pairs[i].1 as int] == keys[i]);
        assert(order[pairs[j].1 as int] == keys[j]);
    }
    assert forall|i: int| 0 <= i < keys.len() implies order.contains(#[trigger] keys[i]) by {
        assert(order[pairs[i].1 as int] == keys[i]);
    }
    assert forall|s: int| 0 <= s < order.len() implies keys.contains(#[trigger] order[s]) by {
        let i = choose|i: int| 0 <= i < pairs.len() && (#[trigger] pairs[i]).0 == order[s];
        assert(keys[i] == order[s]);
    }
}

impl<K, V> HashTable<K, V> {
    /// Row-wise iterator that borrows the table
    pub fn iter(&self) -> (iter: HashTableBorrowedIter<'_, K, V>)
        requires
            self.wf(),
        ensures
            iter.wf(),
            iter.table_view() == self@,
            iter.position() == 0,
    {
        HashTableBorrowedIter { row: 0, table: self }
    }

    /// Column-wise iterator that borrows the values from the table. The
    /// columns come in the order in which the table's map yields their
    /// keys, each column once.
    pub fn iter_columns(&self) -> (iter: HashTableBorrowedIterColumn<'_, K, V>)
        requires
            self.wf(),
        ensures
            iter.wf(),
            iter.table_view() == self@,
            each_key_once(iter.remaining(), self@.columns),
    {
        proof {
            self.lemma_wf_view();
        }
        let row_len = self.columns_len();
        let (slots, values) = self.parts();
        let walk = ColumnWalk::new(slots, Ghost(self@.columns));
        proof {
            lemma_walk_visits_each(walk.upcoming(), self@.columns);
        }
        HashTableBorrowedIterColumn { indices_iter: walk, values, row_len, table: Ghost(self@) }
    }

    /// Column-wise iterator that takes ownership of the keys and values.
    /// The columns come in the order in which the table's map yields their
    /// keys, each column once.
    pub fn into_iter_columns(self) -> (iter: HashTableOwnedIntoIterColumn<K, V>)
        requires
            self.wf(),
        ensures
            iter.wf(),
            iter.table_view() == self@,
            each_key_once(iter.remaining(), self@.columns),
    {
        proof {
            self.lemma_wf_view();
        }
        let ghost view = self@;
        let row_len = self.columns_len();
        let (slots, values) = self.into_parts();
        let ghost map = slots@;
        let pairs = into_pairs(slots);
        let values = wrap_all(values);
        let iter = HashTableOwnedIntoIterColumn { indices_iter: pairs, values, row_len, table: Ghost(view) };
        proof {
            lemma_pairs_of_walk(map, view.columns, pairs@);
            lemma_walk_visits_each(pairs@, view.columns);
            let keys = pair_keys(pairs@);
            let rem = iter.remaining();
            assert forall|i: int, r: int| 0 <= i < pairs@.len() && 0 <= r < view.rows_len() implies values@[r
                * view.columns_len() + pairs@[i].1] == Some(#[trigger] view.rows[r][pairs@[i].1 as int]) by {
                lemma_cell_in_buffer(view.rows_len() as int, view.columns_len() as int, r, pairs@[i].1 as int);
            }
            assert forall|i: int| 0 <= i < rem.len() implies #[trigger] rem[i] == keys[keys.len() - 1 - i] by {}
            assert forall|i: int, j: int| 0 <= i < rem.len() && 0 <= j < rem.len() && i != j implies rem[i] != rem[j] by {
                assert(keys[keys.len() - 1 - i] != keys[keys.len() - 1 - j]);
            }
            assert forall|i: int| 0 <= i < rem.len() implies view.columns.contains(#[trigger] rem[i]) by {
                assert(view.columns.contains(keys[keys.len() - 1 - i]));
            }
            assert forall|s: int| 0 <= s < view.columns.len() implies rem.contains(#[trigger] view.columns[s]) by {
                assert(keys.contains(view.columns[s]));
                let i = choose|i: int| 0 <= i < keys.len() && keys[i] == view.columns[s];
                assert(rem[keys.len() - 1 - i] == view.columns[s]);
            }
        }
        iter
    }
}

impl<K: Clone, V> HashTable<K, V> {
    /// Row-wise iterator that takes ownership of both keys and values,
    /// cloning the keys for every row. It hands out the last row first.
    pub fn into_iter(self) -> (iter: HashTableIntoIter<K, V>)
        requires
            self.wf(),
        ensures
            iter.wf(),
            iter.table_view() == self@,
    {
        HashTableIntoIter { inner: self }
    }
}

/// Row-wise iterator with ownership over the [`HashTable`]
///
/// Returned by [`HashTable::into_iter`]
pub struct HashTableIntoIter<K, V> {
    inner: HashTable<K, V>,
}

impl<K, V> HashTableIntoIter<K, V> {
    /// The table that is left is well-formed.
    pub closed spec fn wf(&self) -> bool {
        self.inner.wf()
    }

    /// What is left of the table: the rows still to come.
    pub closed spec fn table_view(&self) -> TableView<K, V> {
        self.inner@
    }

    /// The number of rows still to come, as lower and upper bound.
    pub fn size_hint(&self) -> (hint: (usize, Option<usize>))
        requires
            self.wf(),
        ensures
            hint.0 == self.table_view().rows_len(),
            hint.1 == Some(hint.0),
    {
        let len = self.inner.rows_len();
        (len, Some(len))
    }
}

impl<K: Clone + Hash + Eq, V> HashTableIntoIter<K, V> {
    /// Takes the last row out of the table and hands it out as `(key,
    /// value)` pairs in slot order, each key a clone of the column key;
    /// `None` where no row is left.
    pub fn next(&mut self) -> (r: Option<Vec<(K, V)>>)
        requires
            old(self).wf(),
        ensures
            final(self).wf(),
            match r {
                Some(pairs) => {
                    let old_view = old(self).table_view();
                    let last = old_view.rows_len() - 1;
                    &&& old_view.rows_len() > 0
                    &&& final(self).table_view() == old_view.without_row(last)
                    &&& pairs@.len() == old_view.columns_len()
                    &&& forall|s: int|
                        0 <= s < pairs@.len() ==> cloned(old_view.columns[s], (#[trigger] pairs@[s]).0)
                            && pairs@[s].1 == old_view.rows[last][s]
                },
                None => old(self).table_view().rows_len() == 0 && final(self).table_view() == old(
                    self,
                ).table_view(),
            },
    {
        let rows = self.inner.rows_len();
        if rows == 0 {
            None
        } else {
            match self.inner.remove_row(rows - 1) {
                Some(row) => Some(row.into_cloned_pairs()),
                None => None,
            }
        }
    }
}

impl<K: Clone + Hash + Eq, V> HashTableIntoIter<K, V> {
    /// Takes all rows that are left out of the table, the last row first.
    /// A table of `R` rows gives `R` rows of pairs, and each of them holds
    /// every column key once, in slot order, with the row's value in that
    /// column.
    pub fn into_rows(self) -> (rows: Vec<Vec<(K, V)>>)
        requires
            self.wf(),
        ensures
            rows@.len() == self.table_view().rows_len(),
            forall|i: int|
                #![trigger rows@[i]]
                0 <= i < rows@.len() ==> rows@[i]@.len() == self.table_view().columns_len() && forall|s: int|
                    0 <= s < rows@[i]@.len() ==> cloned(self.table_view().columns[s], (#[trigger] rows@[i]@[s]).0)
                        && rows@[i]@[s].1 == self.table_view().rows[self.table_view().rows_len() - 1 - i][s],
    {
        let ghost view = self.table_view();
        let ghost total = view.rows_len() as int;
        let mut iter = self;
        let mut rows: Vec<Vec<(K, V)>> = Vec::new();
        loop
            invariant
                iter.wf(),
                view == self.table_view(),
                iter.table_view().columns == view.columns,
                total == view.rows_len(),
                rows@.len() + iter.table_view().rows_len() == total,
                iter.table_view().rows == view.rows.subrange(0, total - rows@.len()),
                forall|i: int|
                    #![trigger rows@[i]]
                    0 <= i < rows@.len() ==> rows@[i]@.len() == view.columns_len() && forall|s: int|
                        0 <= s < rows@[i]@.len() ==> cloned(view.columns[s], (#[trigger] rows@[i]@[s]).0)
                            && rows@[i]@[s].1 == view.rows[total - 1 - i][s],
            decreases iter.table_view().rows_len(),
        {
            let ghost had = rows@;
            let ghost left = iter.table_view();
            match iter.next() {
                Some(pairs) => {
                    rows.push(pairs);
                    proof {
                        let last = left.rows_len() - 1;
                        assert(left.rows[last] == view.rows[last]);
                        assert(iter.table_view().rows =~= view.rows.subrange(0, total - rows@.len()));
                        assert forall|i: int| #![trigger rows@[i]] 0 <= i < rows@.len() implies rows@[i]@.len()
                            == view.columns_len() && forall|s: int|
                            0 <= s < rows@[i]@.len() ==> cloned(view.columns[s], (#[trigger] rows@[i]@[s]).0)
                                && rows@[i]@[s].1 == view.rows[total - 1 - i][s] by {
                            if i < had.len() {
                                assert(rows@[i] == had[i]);
                            }
                        }
                    }
                },
                None => {
                    return rows;
                },
            }
        }
    }
}

/// Row-wise iterator that borrows the table
///
/// Returned by [`HashTable::iter`]
pub struct HashTableBorrowedIter<'t, K, V> {
    row: usize,
    table: &'t HashTable<K, V>,
}

impl<'t, K, V> HashTableBorrowedIter<'t, K, V> {
    /// The borrowed table is well-formed.
    pub closed spec fn wf(&self) -> bool {
        self.table.wf()
    }

    /// The table that is walked.
    pub closed spec fn table_view(&self) -> TableView<K, V> {
        self.table@
    }

    /// The index of the row that comes next.
    pub closed spec fn position(&self) -> nat {
        self.row as nat
    }

    /// The next row, or `None` where the cursor has reached the number of
    /// rows.
    pub fn next(&mut self) -> (r: Option<HashTableRowBorrowed<'t, K, V>>)
        requires
            old(self).wf(),
        ensures
            final(self).wf(),
            final(self).table_view() == old(self).table_view(),
            match r {
                Some(row) => old(self).position() < old(self).table_view().rows_len() && row.wf() && row@ == old(
                    self,
                ).table_view().row(old(self).position() as int) && final(self).position() == old(self).position()
                    + 1,
                None => old(self).position() >= old(self).table_view().rows_len() && final(self).position() == old(
                    self,
                ).position(),
            },
    {
        if self.row < self.table.rows_len() {
            let val = self.table.get_row(self.row);
            self.row = self.row + 1;
            val
        } else {
            None
        }
    }

    /// The number of rows still to come, as lower and upper bound.
    pub fn size_hint(&self) -> (hint: (usize, Option<usize>))
        requires
            self.wf(),
        ensures
            hint.0 == (if self.position() <= self.table_view().rows_len() {
                self.table_view().rows_len() - self.position()
            } else {
                0
            }),
            hint.1 == Some(hint.0),
    {
        let len = self.table.rows_len();
        let remainder = if self.row <= len {
            len - self.row
        } else {
            0
        };
        (remainder, Some(remainder))
    }
}

/// The place of element `slot` of row `row` in a row-major buffer.
pub open spec fn place(row: int, width: int, slot: int) -> int {
    row * width + slot
}

/// The buffer holds the rows of the table, row after row.
pub open spec fn buffer_of<K, V>(values: Seq<V>, table: TableView<K, V>) -> bool {
    &&& table.wf()
    &&& values.len() == table.rows_len() * table.columns_len()
    &&& forall|r: int, s: int|
        0 <= r < table.rows_len() && 0 <= s < table.columns_len() ==> #[trigger] table.rows[r][s]
            == values[r * table.columns_len() + s]
}

/// Column-wise iterator that borrows the table
///
/// Returned by [`HashTable::iter_columns`]
pub struct HashTableBorrowedIterColumn<'t, K, V> {
    indices_iter: ColumnWalk<'t, K>,
    values: &'t [V],
    row_len: usize,
    table: Ghost<TableView<K, V>>,
}

impl<'t, K, V> HashTableBorrowedIterColumn<'t, K, V> {
    /// The walk stays among the columns of the table, and the borrowed
    /// buffer holds the table's rows.
    pub closed spec fn wf(&self) -> bool {
        &&& self.indices_iter.wf()
        &&& pairs_walk(self.indices_iter.upcoming(), self.table@.columns)
        &&& self.row_len == self.table@.columns_len()
        &&& buffer_of(self.values@, self.table@)
    }

    /// The table that is walked.
    pub closed spec fn table_view(&self) -> TableView<K, V> {
        self.table@
    }

    /// The keys of the columns still to come, in the order in which they
    /// will come.
    pub closed spec fn remaining(&self) -> Seq<K> {
        pair_keys(self.indices_iter.upcoming())
    }

    /// The number of columns still to come.
    pub fn len(&self) -> (n: usize)
        requires
            self.wf(),
        ensures
            n == self.remaining().len(),
    {
        self.indices_iter.len()
    }

    /// The number of columns still to come, as lower and upper bound.
    pub fn size_hint(&self) -> (hint: (usize, Option<usize>))
        requires
            self.wf(),
        ensures
            hint.0 == self.remaining().len(),
            hint.1 == Some(hint.0),
    {
        let n = self.indices_iter.len();
        (n, Some(n))
    }

    /// The next column, with one reference for each row, or `None` where
    /// every column has come.
    pub fn next(&mut self) -> (r: Option<HashTableColumnBorrowed<'t, 't, K, V>>)
        requires
            old(self).wf(),
        ensures
            final(self).wf(),
            final(self).table_view() == old(self).table_view(),
            match r {
                Some(col) => old(self).remaining().len() > 0 && col@ == (ColumnView {
                    key: old(self).remaining()[0],
                    values: old(self).table_view().column(old(self).remaining()[0]),
                }) && final(self).remaining() == old(self).remaining().drop_first(),
                None => old(self).remaining().len() == 0 && final(self).remaining() == old(self).remaining(),
            },
    {
        let ghost up = self.indices_iter.upcoming();
        let ghost view = self.table@;
        proof {
            if up.len() > 0 {
                lemma_pairs_walk_rest(up, view.columns);
            }
        }
        match self.indices_iter.next() {
            Some((key, idx)) => {
                let width = self.row_len;
                assert(self.values.len() == self.values@.len());
                let rows = self.values.len() / width;
                proof {
                    assert(up[0] == (*key, idx));
                    lemma_complete_rows_exact(view.rows_len(), width as nat);
                    assert(rows == view.rows_len());
                }
                let mut values: Vec<&'t V> = Vec::with_capacity(rows);
                let mut r: usize = 0;
                while r < rows
                    invariant
                        r <= rows,
                        rows == view.rows_len(),
                        width == view.columns_len(),
                        idx < width,
                        buffer_of(self.values@, view),
                        values@.len() == r,
                        forall|i: int| 0 <= i < r ==> *(#[trigger] values@[i]) == view.rows[i][idx as int],
                    decreases rows - r,
                {
                    proof {
                        lemma_cell_in_buffer(rows as int, width as int, r as int, idx as int);
                        assert(view.rows[r as int][idx as int] == self.values@[r * width + idx]);
                        assert(self.values.len() == self.values@.len());
                    }
                    values.push(&self.values[r * width + idx]);
                    r = r + 1;
                }
                let col = HashTableColumnBorrowed::new(key, values);
                proof {
                    assert(view.columns.no_duplicates());
                    assert(view.columns[idx as int] == *key);
                    assert(view.slot(*key) == idx);
                    assert(col@.values =~= view.column(*key));
                    assert(self.remaining() =~= old(self).remaining().drop_first());
                }
                Some(col)
            },
            None => None,
        }
    }
}

impl<'t, K, V> Clone for HashTableBorrowedIterColumn<'t, K, V> {
    fn clone(&self) -> (iter: Self)
        ensures
            iter.wf() == self.wf(),
            iter.remaining() == self.remaining(),
            iter.table_view() == self.table_view(),
    {
        HashTableBorrowedIterColumn {
            indices_iter: self.indices_iter.clone(),
            values: self.values,
            row_len: self.row_len,
            table: self.table,
        }
    }
}

/// Column-wise iterator with ownership over the keys and values of a table
///
/// Returned by [`HashTable::into_iter_columns`]
pub struct HashTableOwnedIntoIterColumn<K, V> {
    indices_iter: Vec<(K, usize)>,
    values: Vec<Option<V>>,
    row_len: usize,
    table: Ghost<TableView<K, V>>,
}

impl<K, V> HashTableOwnedIntoIterColumn<K, V> {
    /// The columns still to come are columns of the table, none of them
    /// twice, and each of their values is still in the buffer.
    pub closed spec fn wf(&self) -> bool {
        &&& pairs_walk(self.indices_iter@, self.table@.columns)
        &&& self.row_len == self.table@.columns_len()
        &&& self.table@.wf()
        &&& self.values@.len() == self.table@.rows_len() * self.table@.columns_len()
        &&& forall|i: int, r: int|
            0 <= i < self.indices_iter@.len() && 0 <= r < self.table@.rows_len() ==> self.values@[r
                * self.table@.columns_len() + self.indices_iter@[i].1] == Some(
                #[trigger] self.table@.rows[r][self.indices_iter@[i].1 as int],
            )
    }

    /// The table that is taken apart.
    pub closed spec fn table_view(&self) -> TableView<K, V> {
        self.table@
    }

    /// The keys of the columns still to come, in the order in which they
    /// will come.
    pub closed spec fn remaining(&self) -> Seq<K> {
        Seq::new(self.indices_iter@.len(), |i: int| self.indices_iter@[self.indices_iter@.len() - 1 - i].0)
    }

    /// The number of columns still to come.
    pub fn len(&self) -> (n: usize)
        ensures
            n == self.remaining().len(),
    {
        self.indices_iter.len()
    }

    /// The number of columns still to come, as lower and upper bound.
    pub fn size_hint(&self) -> (hint: (usize, Option<usize>))
        ensures
            hint.0 == self.remaining().len(),
            hint.1 == Some(hint.0),
    {
        let n = self.indices_iter.len();
        (n, Some(n))
    }

    /// The next column, with its key and its values, or `None` where every
    /// column has come. Each value is handed out once.
    pub fn next(&mut self) -> (r: Option<HashTableColumnOwned<K, V>>)
        requires
            old(self).wf(),
        ensures
            final(self).wf(),
            final(self).table_view() == old(self).table_view(),
            match r {
                Some(col) => old(self).remaining().len() > 0 && col@ == (ColumnView {
                    key: old(self).remaining()[0],
                    values: old(self).table_view().column(old(self).remaining()[0]),
                }) && final(self).remaining() == old(self).remaining().drop_first(),
                None => old(self).remaining().len() == 0 && final(self).remaining() == old(self).remaining(),
            },
    {
        let ghost pairs = self.indices_iter@;
        let ghost view = self.table@;
        let ghost before = self.values@;
        match self.indices_iter.pop() {
            Some((key, idx)) => {
                let width = self.row_len;
                assert(self.values.len() == self.values@.len());
                let rows = self.values.len() / width;
                proof {
                    assert(pairs[pairs.len() - 1] == (key, idx));
                    lemma_complete_rows_exact(view.rows_len(), width as nat);
                    assert(rows == view.rows_len());
                }
                let mut values: Vec<V> = Vec::with_capacity(rows);
                let mut r: usize = 0;
                while r < rows
                    invariant
                        r <= rows,
                        rows == view.rows_len(),
                        width == view.columns_len(),
                        idx < width,
                        self.values@.len() == before.len(),
                        before.len() == rows * width,
                        self.row_len == old(self).row_len,
                        self.table == old(self).table,
                        self.indices_iter@ == pairs.drop_last(),
                        forall|r2: int, s: int|
                            0 <= r2 < rows && 0 <= s < width ==> self.values@[#[trigger] place(r2, width as int, s)]
                                == (if s == idx && r2 < r {
                                None
                            } else {
                                before[place(r2, width as int, s)]
                            }),
                        forall|r2: int| 0 <= r2 < rows ==> before[r2 * width + idx] == Some(#[trigger] view.rows[r2][idx as int]),
                        values@.len() == r,
                        forall|i: int| 0 <= i < r ==> #[trigger] values@[i] == view.rows[i][idx as int],
                    decreases rows - r,
                {
                    let ghost had = self.values@;
                    proof {
                        lemma_cell_in_buffer(rows as int, width as int, r as int, idx as int);
                        assert(self.values.len() == self.values@.len());
                        assert(before[r * width + idx] == Some(view.rows[r as int][idx as int]));
                        assert(self.values@[place(r as int, width as int, idx as int)] == before[place(
                            r as int,
                            width as int,
                            idx as int,
                        )]);
                    }
                    let value = self.values[r * width + idx].take().unwrap();
                    values.push(value);
                    proof {
                        assert forall|r2: int, s: int| 0 <= r2 < rows && 0 <= s < width implies self.values@[#[trigger] place(
                            r2,
                            width as int,
                            s,
                        )] == (if s == idx && r2 < r + 1 {
                            None
                        } else {
                            before[place(r2, width as int, s)]
                        }) by {
                            lemma_cell_in_buffer(rows as int, width as int, r2, s);
                            if r2 == r && s == idx {
                            } else {
                                if place(r2, width as int, s) == r * width + idx {
                                    lemma_cell_place_unique(width as int, r2, s, r as int, idx as int);
                                }
                                assert(self.values@[place(r2, width as int, s)] == had[place(r2, width as int, s)]);
                            }
                        }
                    }
                    r = r + 1;
                }
                let col = HashTableColumnOwned::new(key, values);
                proof {
                    let rest = pairs.drop_last();
                    assert(view.columns.no_duplicates());
                    assert(view.columns[idx as int] == key);
                    assert(view.slot(key) == idx);
                    assert(col@.values =~= view.column(key));
                    assert(self.remaining() =~= old(self).remaining().drop_first());
                    assert forall|i: int, j: int| 0 <= i < j < rest.len() implies (#[trigger] rest[i]).1 != (#[trigger] rest[j]).1 by {
                        assert(rest[i] == pairs[i]);
                        assert(rest[j] == pairs[j]);
                    }
                    assert forall|i: int| 0 <= i < rest.len() implies (#[trigger] rest[i]).1 < view.columns.len()
                        && view.columns[rest[i].1 as int] == rest[i].0 by {
                        assert(rest[i] == pairs[i]);
                    }
                    assert forall|i: int, r2: int| 0 <= i < rest.len() && 0 <= r2 < view.rows_len() implies self.values@[r2
                        * view.columns_len() + rest[i].1] == Some(#[trigger] view.rows[r2][rest[i].1 as int]) by {
                        assert(rest[i] == pairs[i]);
                        assert(pairs[i].1 != pairs[pairs.len() - 1].1);
                        lemma_cell_in_buffer(rows as int, width as int, r2, rest[i].1 as int);
                        assert(self.values@[place(r2, width as int, rest[i].1 as int)] == before[place(
                            r2,
                            width as int,
                            rest[i].1 as int,
                        )]);
                        assert(before[r2 * view.columns_len() + pairs[i].1] == Some(view.rows[r2][pairs[i].1 as int]));
                    }
                }
                Some(col)
            },
            None => None,
        }
    }
}

impl<K, V> HashTableOwnedIntoIterColumn<K, V> {
    /// Takes all columns that are left, in the order in which they come.
    /// A fresh iterator over a table of `C` columns gives `C` columns, each
    /// with one value for each row of the table.
    pub fn into_columns(self) -> (columns: Vec<HashTableColumnOwned<K, V>>)
        requires
            self.wf(),
        ensures
            columns@.len() == self.remaining().len(),
            forall|i: int|
                0 <= i < columns@.len() ==> (#[trigger] columns@[i])@ == (ColumnView {
                    key: self.remaining()[i],
                    values: self.table_view().column(self.remaining()[i]),
                }) && columns@[i]@.values.len() == self.table_view().rows_len(),
    {
        let ghost keys = self.remaining();
        let ghost view = self.table_view();
        let mut iter = self;
        let mut columns: Vec<HashTableColumnOwned<K, V>> = Vec::new();
        loop
            invariant
                iter.wf(),
                view == self.table_view(),
                keys == self.remaining(),
                iter.table_view() == view,
                columns@.len() + iter.remaining().len() == keys.len(),
                iter.remaining() == keys.subrange(columns@.len() as int, keys.len() as int),
                forall|i: int|
                    0 <= i < columns@.len() ==> (#[trigger] columns@[i])@ == (ColumnView {
                        key: keys[i],
                        values: view.column(keys[i]),
                    }),
            decreases iter.remaining().len(),
        {
            let ghost had = columns@;
            match iter.next() {
                Some(col) => {
                    columns.push(col);
                    proof {
                        assert(iter.remaining() =~= keys.subrange(columns@.len() as int, keys.len() as int));
                        assert forall|i: int| 0 <= i < columns@.len() implies (#[trigger] columns@[i])@ == (ColumnView {
                            key: keys[i],
                            values: view.column(keys[i]),
                        }) by {
                            if i < had.len() {
                                assert(columns@[i] == had[i]);
                            }
                        }
                    }
                },
                None => {
                    return columns;
                },
            }
        }
    }
}

} // verus!
