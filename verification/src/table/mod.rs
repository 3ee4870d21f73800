//! The table and its element, row and column operations.

use crate::buffer::{
    extract_column, extract_range, lemma_chunks_remove_row, lemma_chunks_replace_row, splice_column,
};
use crate::column::borrowed::HashTableColumnBorrowed;
use crate::column::owned::HashTableColumnOwned;
use crate::model::{
    chunks, complete_rows, flatten, has_key, lemma_cell_in_buffer, lemma_chunks_from_cells, lemma_chunks_index,
    lemma_chunks_push, lemma_chunks_row_len, lemma_chunks_update, lemma_chunks_whole_rows,
    lemma_complete_rows_cover, lemma_complete_rows_exact, lemma_flatten_push,
    pair_keys, row_covers, row_in_slot_order, row_matches, rows_fit, slot_after_removal,
    table_of_columns, table_of_rows, ColumnView, RowFault, TableView,
};
use crate::row::borrowed::HashTableRowBorrowed;
use crate::row::mutable::HashTableMutableBorrowedRow;
use crate::row::value_owned::HashTableRowValueOwned;
use crate::slots::{
    arrange_row, buffer_with_capacity, each_key_once, indices_table_from_iterator, lemma_slots_agree, lemma_slots_agree_push,
    lookup_slot, map_keys, remove_slot, slot_keys, slots_agree, try_arrange_row, try_first_row, try_indices_table,
};
use std::collections::hash_map::Keys;
use vstd::std_specs::iter::IteratorSpec;
use std::collections::HashMap;
use std::hash::Hash;
use vstd::prelude::*;
use vstd::std_specs::hash::obeys_key_model;

pub mod iter;

verus! {

broadcast use vstd::std_specs::hash::group_hash_axioms;

/// Why rows given as `(key, value)` pairs make no table.
#[derive(Debug, Clone, Copy, PartialEq, Eq, Structural)]
pub enum FromRowsError {
    /// The first row names a key twice.
    RepeatedKey,
    /// The row at `row` names a key that the first row does not name.
    UnknownKey { row: usize },
    /// The row at `row` names only keys of the first row, but lacks one of
    /// them.
    MissingKey { row: usize },
}

/// The fault is that of the first row that keeps the rows from making a
/// table.
pub open spec fn rows_fault<K, V>(rows: Seq<Seq<(K, V)>>, fault: FromRowsError) -> bool {
    match fault {
        FromRowsError::RepeatedKey => rows.len() > 0 && !pair_keys(rows[0]).no_duplicates(),
        FromRowsError::UnknownKey { row } => {
            &&& 1 <= row < rows.len()
            &&& rows_fit(rows.subrange(0, row as int))
            &&& exists|i: int|
                0 <= i < rows[row as int].len() && !pair_keys(rows[0]).contains((#[trigger] rows[row as int][i]).0)
        },
        FromRowsError::MissingKey { row } => {
            &&& 1 <= row < rows.len()
            &&& rows_fit(rows.subrange(0, row as int))
            &&& forall|i: int|
                0 <= i < rows[row as int].len() ==> pair_keys(rows[0]).contains((#[trigger] rows[row as int][i]).0)
            &&& exists|s: int|
                0 <= s < pair_keys(rows[0]).len() && !has_key(rows[row as int], #[trigger] pair_keys(rows[0])[s])
        },
    }
}

/// The generator, called with a borrowed view of row `row` of the table, may
/// give `value`.
pub open spec fn generated_for_row<K, V, F: Fn(HashTableRowBorrowed<'_, K, V>) -> V>(
    generator: F,
    table: TableView<K, V>,
    row: int,
    value: V,
) -> bool {
    exists|borrowed: HashTableRowBorrowed<'_, K, V>|
        borrowed.wf() && borrowed@ == table.row(row) && #[trigger] call_ensures(generator, (borrowed,), value)
}

/// A 2-dimensional grid of values. Each element is addressed by a hashable
/// column key and a row index.
///
/// The values lie in one row-major buffer: with `c` columns, the element of
/// row `r` in the column of slot `s` is at `r * c + s`. The map holds the slot
/// index of each column key; the slot indices are `0..c`, each used once.
pub struct HashTable<K, V> {
    pub(crate) indices_table: HashMap<K, usize>,
    pub(crate) values_vector: Vec<V>,
    pub(crate) column_order: Ghost<Seq<K>>,
}

impl<K, V> View for HashTable<K, V> {
    type V = TableView<K, V>;

    closed spec fn view(&self) -> TableView<K, V> {
        TableView {
            columns: self.column_order@,
            rows: chunks(self.values_vector@, self.column_order@.len()),
        }
    }
}

impl<K, V> HashTable<K, V> {
    /// The representation invariant: the key type behaves as a hash key, the
    /// map's slot indices are a gapless run from zero, and the buffer holds
    /// whole rows only.
    pub closed spec fn wf(&self) -> bool {
        &&& obeys_key_model::<K>()
        &&& slots_agree(self.indices_table@, self.column_order@)
        &&& self.column_order@.len() == 0 ==> self.values_vector@.len() == 0
        &&& self.column_order@.len() > 0 ==> self.values_vector@.len() % self.column_order@.len() == 0
    }

    /// The slot index that the map stores for a column key.
    pub closed spec fn slot_of(&self, key: K) -> usize {
        self.indices_table@[key]
    }

    /// The values as they lie in the buffer, row after row.
    pub closed spec fn buffer(&self) -> Seq<V> {
        self.values_vector@
    }

    /// A well-formed table shows a well-formed view, its stored slot indices
    /// are the positions of the keys in the view, and its buffer is the rows
    /// of the view laid end to end.
    pub proof fn lemma_wf_view(&self)
        requires
            self.wf(),
        ensures
            obeys_key_model::<K>(),
            self@.wf(),
            forall|k: K| #[trigger] self@.has_column(k) ==> self.slot_of(k) == self@.slot(k),
            self.buffer().len() == self@.rows_len() * self@.columns_len(),
            forall|r: int, s: int|
                0 <= r < self@.rows_len() && 0 <= s < self@.columns_len() ==> #[trigger] self@.rows[r][s]
                    == self.buffer()[r * self@.columns_len() + s],
    {
        lemma_slots_agree(self.indices_table@, self.column_order@);
        lemma_chunks_row_len(self.values_vector@, self.column_order@.len());
        let width = self.column_order@.len();
        if width > 0 {
            lemma_complete_rows_cover(self.values_vector@.len(), width);
        } else {
            assert(0 * width == 0) by (nonlinear_arith);
        }
        assert forall|r: int, s: int| 0 <= r < self@.rows_len() && 0 <= s < self@.columns_len() implies #[trigger] self@.rows[r][s]
            == self.buffer()[r * self@.columns_len() + s] by {
            lemma_chunks_index(self.values_vector@, width, r, s);
        }
    }

    /// The slot indices that the map stores are a gapless run from zero:
    /// every column has a slot index below the number of columns, no two
    /// columns share one, and every index below the number of columns is
    /// the slot index of a column.
    pub proof fn lemma_slots_gapless(&self)
        requires
            self.wf(),
        ensures
            forall|k: K| #[trigger] self@.has_column(k) ==> 0 <= self.slot_of(k) < self@.columns_len(),
            forall|k1: K, k2: K|
                #![trigger self.slot_of(k1), self.slot_of(k2)]
                self@.has_column(k1) && self@.has_column(k2) && self.slot_of(k1) == self.slot_of(k2) ==> k1 == k2,
            forall|i: int|
                0 <= i < self@.columns_len() ==> self@.has_column(#[trigger] self@.columns[i]) && self.slot_of(
                    self@.columns[i],
                ) == i,
    {
        lemma_slots_agree(self.indices_table@, self.column_order@);
        assert forall|k1: K, k2: K|
            #![trigger self.slot_of(k1), self.slot_of(k2)]
            self@.has_column(k1) && self@.has_column(k2) && self.slot_of(k1) == self.slot_of(k2) implies k1 == k2 by {
            assert(self.column_order@[self.slot_of(k1) as int] == k1);
            assert(self.column_order@[self.slot_of(k2) as int] == k2);
        }
    }

    /// Returns the number of columns in this table.
    pub fn columns_len(&self) -> (n: usize)
        requires
            self.wf(),
        ensures
            n == self@.columns_len(),
    {
        self.indices_table.len()
    }

    /// Returns the number of rows in this table. A table without columns has
    /// no rows.
    pub fn rows_len(&self) -> (n: usize)
        requires
            self.wf(),
        ensures
            n == self@.rows_len(),
    {
        let columns = self.columns_len();
        if columns == 0 {
            0
        } else {
            self.values_vector.len() / columns
        }
    }

    /// Creates an empty table with room reserved for `columns` columns and
    /// `columns * rows` values, as far as that count fits the machine and
    /// the room can be had.
    pub fn with_capacity(columns: usize, rows: usize) -> (t: Self)
        requires
            obeys_key_model::<K>(),
        ensures
            t.wf(),
            t@.columns == Seq::<K>::empty(),
            t@.rows == Seq::<Seq<V>>::empty(),
    {
        let t = HashTable {
            indices_table: HashMap::with_capacity(columns),
            values_vector: buffer_with_capacity(columns, rows),
            column_order: Ghost(Seq::empty()),
        };
        assert(t@.rows =~= Seq::<Seq<V>>::empty());
        t
    }

    /// Get the column keys of this table: the iterator of the table's map
    /// over its keys, which yields every column key once, in the map's own
    /// order.
    pub fn column_keys(&self) -> (keys: Keys<'_, K, usize>)
        requires
            self.wf(),
        ensures
            each_key_once(IteratorSpec::remaining(&keys).unref(), self@.columns),
    {
        map_keys(&self.indices_table, Ghost(self.column_order@))
    }

    /// The column keys by slot index: the key at position `i` is the key of
    /// slot `i`.
    pub fn keys_by_slot(&self) -> (keys: Vec<&K>)
        requires
            self.wf(),
        ensures
            keys@.len() == self@.columns_len(),
            forall|i: int| 0 <= i < keys@.len() ==> *(#[trigger] keys@[i]) == self@.columns[i],
    {
        slot_keys(&self.indices_table, Ghost(self.column_order@))
    }

    /// Takes the table apart: its map from column key to slot index, and
    /// its buffer.
    pub(crate) fn into_parts(self) -> (parts: (HashMap<K, usize>, Vec<V>))
        requires
            self.wf(),
        ensures
            slots_agree(parts.0@, self@.columns),
            parts.1@ == self.buffer(),
    {
        (self.indices_table, self.values_vector)
    }

    /// The table's map from column key to slot index, and its buffer.
    pub(crate) fn parts(&self) -> (parts: (&HashMap<K, usize>, &[V]))
        requires
            self.wf(),
        ensures
            slots_agree(parts.0@, self@.columns),
            parts.1@ == self.buffer(),
    {
        (&self.indices_table, self.values_vector.as_slice())
    }

    /// The place in the buffer where a row starts.
    pub fn row_start(&self, row: usize) -> (start: usize)
        requires
            self.wf(),
            row < self@.rows_len(),
        ensures
            start == row * self@.columns_len(),
            start + self@.columns_len() <= self.buffer().len() <= usize::MAX,
    {
        proof {
            self.lemma_wf_view();
            lemma_cell_in_buffer(self@.rows_len() as int, self@.columns_len() as int, row as int, 0);
            assert(self.values_vector.len() == self.buffer().len());
        }
        self.columns_len() * row
    }

    /// Get a row of the table: `None` where `row` is not below the number of
    /// rows.
    pub fn get_row(&self, row: usize) -> (r: Option<HashTableRowBorrowed<'_, K, V>>)
        requires
            self.wf(),
        ensures
            match r {
                Some(found) => row < self@.rows_len() && found.wf() && found@ == self@.row(row as int),
                None => row >= self@.rows_len(),
            },
    {
        if row >= self.rows_len() {
            None
        } else {
            let start = self.row_start(row);
            let end = start + self.columns_len();
            proof {
                self.lemma_wf_view();
                lemma_chunks_index(self.values_vector@, self.column_order@.len(), row as int, 0);
            }
            let row_values = vstd::slice::slice_subrange(self.values_vector.as_slice(), start, end);
            Some(HashTableRowBorrowed::new(&self.indices_table, row_values, Ghost(self.column_order@)))
        }
    }

    /// Get row with mutable access: `None` where `row` is not below the
    /// number of rows. What is written to the row's values becomes the row
    /// of the table; the row keeps its length, as every slice does.
    pub fn get_row_mut(&mut self, row: usize) -> (r: Option<HashTableMutableBorrowedRow<'_, K, V>>)
        requires
            old(self).wf(),
        ensures
            match r {
                Some(found) => row < old(self)@.rows_len() && found.wf() && found@ == old(self)@.row(row as int)
                    && (final(found.values)@.len() == found.values@.len() ==> final(self).wf() && final(self)@
                    == (TableView {
                    columns: old(self)@.columns,
                    rows: old(self)@.rows.update(row as int, final(found.values)@),
                })),
                None => row >= old(self)@.rows_len() && final(self).wf() && final(self)@ == old(self)@,
            },
    {
        if row >= self.rows_len() {
            None
        } else {
            let start = self.row_start(row);
            let width = self.columns_len();
            let ghost flat = self.values_vector@;
            proof {
                self.lemma_wf_view();
                lemma_chunks_index(flat, width as nat, row as int, 0);
                let head = flat.subrange(0, start as int);
                let rest = flat.subrange(start as int, flat.len() as int);
                let tail = rest.subrange(width as int, rest.len() as int);
                assert(rest.subrange(0, width as int) =~= self@.rows[row as int]);
                assert(tail =~= flat.subrange(start + width, flat.len() as int));
                assert forall|values: Seq<V>| values.len() == width implies chunks(
                    head + (#[trigger] (values + tail)),
                    width as nat,
                ) == self@.rows.update(row as int, values) && (head + (values + tail)).len() == flat.len() by {
                    lemma_chunks_replace_row(flat, width as nat, row as int, values);
                    assert(head + (values + tail) =~= head + values + tail);
                }
            }
            let (_, rest) = self.values_vector.as_mut_slice().split_at_mut(start);
            let (values, _) = rest.split_at_mut(width);
            Some(
                HashTableMutableBorrowedRow {
                    indices_table: &self.indices_table,
                    values,
                    column_order: Ghost(self.column_order@),
                },
            )
        }
    }

    /// Removes a row and hands out its values, each with a reference to its
    /// column key, in slot order: `None`, and nothing changed, where `row`
    /// is not below the number of rows. The rows behind it move down by one.
    pub fn remove_row_pairs(&mut self, row: usize) -> (r: Option<Vec<(&K, V)>>)
        requires
            old(self).wf(),
        ensures
            final(self).wf(),
            match r {
                Some(pairs) => row < old(self)@.rows_len() && final(self)@ == old(self)@.without_row(row as int)
                    && pairs@.len() == old(self)@.columns_len() && forall|s: int|
                    0 <= s < pairs@.len() ==> *(#[trigger] pairs@[s]).0 == old(self)@.columns[s] && pairs@[s].1
                        == old(self)@.rows[row as int][s],
                None => row >= old(self)@.rows_len() && final(self)@ == old(self)@,
            },
    {
        if row >= self.rows_len() {
            return None;
        }
        let row_start = self.row_start(row);
        let width = self.columns_len();
        proof {
            self.lemma_wf_view();
            lemma_chunks_remove_row(self.values_vector@, width as nat, row as int);
        }
        let ghost taken = self@.rows[row as int];
        let ghost order = self.column_order@;
        let values = extract_range(&mut self.values_vector, row_start, width);
        proof {
            vstd::arithmetic::div_mod::lemma_mod_sub_multiples_vanish(old(self).values_vector@.len() as int, width as int);
        }
        let keys = slot_keys(&self.indices_table, Ghost(self.column_order@));
        let mut pairs: Vec<(&K, V)> = Vec::with_capacity(width);
        for value in it: values
            invariant
                it.seq() == taken,
                taken.len() == order.len(),
                keys@.len() == order.len(),
                forall|i: int| 0 <= i < keys@.len() ==> *(#[trigger] keys@[i]) == order[i],
                pairs@.len() == it.index(),
                forall|s: int|
                    0 <= s < it.index() ==> *(#[trigger] pairs@[s]).0 == order[s] && pairs@[s].1 == taken[s],
        {
            let ghost had = pairs@;
            let at = pairs.len();
            pairs.push((keys[at], value));
            proof {
                assert forall|s: int| 0 <= s < at + 1 implies *(#[trigger] pairs@[s]).0 == order[s] && pairs@[s].1
                    == taken[s] by {
                    if s < at {
                        assert(pairs@[s] == had[s]);
                    }
                }
            }
        }
        Some(pairs)
    }

    /// Removes a row and hands out its values: `None`, and nothing changed,
    /// where `row` is not below the number of rows. The rows behind it move
    /// down by one.
    ///
    /// What is handed out still borrows the table's map from column key to
    /// slot index, so that a value can be had by its key.
    pub fn remove_row(&mut self, row: usize) -> (r: Option<HashTableRowValueOwned<'_, K, V>>)
        requires
            old(self).wf(),
        ensures
            final(self).wf(),
            match r {
                Some(taken) => row < old(self)@.rows_len() && taken.wf() && taken@ == old(self)@.row(row as int)
                    && final(self)@ == old(self)@.without_row(row as int),
                None => row >= old(self)@.rows_len() && final(self)@ == old(self)@,
            },
    {
        if row >= self.rows_len() {
            return None;
        }
        let row_start = self.row_start(row);
        let width = self.columns_len();
        proof {
            self.lemma_wf_view();
            lemma_chunks_remove_row(self.values_vector@, width as nat, row as int);
        }
        let values = extract_range(&mut self.values_vector, row_start, width);
        proof {
            let rest = self.values_vector@;
            assert(rest.len() == old(self).values_vector@.len() - width);
            vstd::arithmetic::div_mod::lemma_mod_sub_multiples_vanish(old(self).values_vector@.len() as int, width as int);
            vstd::arithmetic::div_mod::lemma_mod_multiples_vanish(-1, old(self).values_vector@.len() as int, width as int);
        }
        Some(HashTableRowValueOwned::new(&self.indices_table, values, Ghost(self.column_order@)))
    }
}

impl<K: Hash + Eq, V> HashTable<K, V> {
    /// The slot index of a column, or `None` where the table has no such
    /// column.
    pub fn column_index(&self, column: &K) -> (r: Option<usize>)
        requires
            self.wf(),
        ensures
            r == (if self@.has_column(*column) {
                Some(self@.slot(*column) as usize)
            } else {
                None
            }),
            r is Some ==> r->0 < self@.columns_len(),
    {
        proof {
            lemma_slots_agree(self.indices_table@, self.column_order@);
        }
        lookup_slot(&self.indices_table, column)
    }

    /// The place of an element in the buffer, or `None` where the table has
    /// no such column or no such row.
    pub fn elem_index(&self, column: &K, row: usize) -> (r: Option<usize>)
        requires
            self.wf(),
        ensures
            match r {
                Some(idx) => self@.has_cell(*column, row as int) && idx == row * self@.columns_len()
                    + self@.slot(*column) && idx < self.buffer().len(),
                None => !self@.has_cell(*column, row as int),
            },
    {
        match self.column_index(column) {
            Some(col_idx) => {
                if row < self.rows_len() {
                    proof {
                        self.lemma_wf_view();
                        lemma_cell_in_buffer(
                            self@.rows_len() as int,
                            self@.columns_len() as int,
                            row as int,
                            col_idx as int,
                        );
                        assert(self.values_vector.len() == self.buffer().len());
                    }
                    Some(self.row_start(row) + col_idx)
                } else {
                    None
                }
            },
            None => None,
        }
    }

    /// Gets an element from the table: `None` where the table has no such
    /// column or `row` is not below the number of rows.
    pub fn get(&self, column: &K, row: usize) -> (r: Option<&V>)
        requires
            self.wf(),
        ensures
            r == (if self@.has_cell(*column, row as int) {
                Some(&self@.cell(*column, row as int))
            } else {
                None
            }),
    {
        match self.elem_index(column, row) {
            Some(idx) => {
                proof {
                    self.lemma_wf_view();
                    assert(self@.cell(*column, row as int) == self@.rows[row as int][self@.slot(*column)]);
                }
                Some(&self.values_vector[idx])
            },
            None => None,
        }
    }

    /// Gets an element from the table with mutable access: `None` where the
    /// table has no such column or `row` is not below the number of rows.
    /// What is written through the reference becomes the element.
    pub fn get_mut(&mut self, column: &K, row: usize) -> (r: Option<&mut V>)
        requires
            old(self).wf(),
        ensures
            final(self).wf(),
            match r {
                Some(v) => old(self)@.has_cell(*column, row as int) && *v == old(self)@.cell(
                    *column,
                    row as int,
                ) && final(self)@ == old(self)@.with_cell(*column, row as int, *final(v)),
                None => !old(self)@.has_cell(*column, row as int) && final(self)@ == old(self)@,
            },
    {
        match self.elem_index(column, row) {
            Some(idx) => {
                proof {
                    self.lemma_wf_view();
                    assert(self@.cell(*column, row as int) == self@.rows[row as int][self@.slot(*column)]);
                    assert forall|v: V|
                        #[trigger] chunks(self.values_vector@.update(idx as int, v), self.column_order@.len())
                            == self@.with_cell(*column, row as int, v).rows by {
                        lemma_chunks_update(
                            self.values_vector@,
                            self.column_order@.len(),
                            row as int,
                            self@.slot(*column),
                            v,
                        );
                    }
                }
                Some(&mut self.values_vector[idx])
            },
            None => None,
        }
    }

    /// The element at `(column, row)`, which must exist.
    pub fn index(&self, column: &K, row: usize) -> (r: &V)
        requires
            self.wf(),
            self@.has_cell(*column, row as int),
        ensures
            *r == self@.cell(*column, row as int),
    {
        self.get(column, row).unwrap()
    }

    /// The element at `(column, row)`, which must exist, with mutable access.
    /// What is written through the reference becomes the element.
    pub fn index_mut(&mut self, column: &K, row: usize) -> (r: &mut V)
        requires
            old(self).wf(),
            old(self)@.has_cell(*column, row as int),
        ensures
            final(self).wf(),
            *r == old(self)@.cell(*column, row as int),
            final(self)@ == old(self)@.with_cell(*column, row as int, *final(r)),
    {
        self.get_mut(column, row).unwrap()
    }

    /// Creates a table without rows from its column keys: the key at
    /// position `i` gets slot `i`.
    pub fn with_columns(columns: Vec<K>) -> (t: Self)
        requires
            obeys_key_model::<K>(),
            columns@.no_duplicates(),
        ensures
            t.wf(),
            t@.columns == columns@,
            t@.rows == Seq::<Seq<V>>::empty(),
    {
        let ghost order = columns@;
        let indices_table = indices_table_from_iterator(columns);
        let t = HashTable { indices_table, values_vector: Vec::new(), column_order: Ghost(order) };
        assert(t@.rows =~= Seq::<Seq<V>>::empty());
        t
    }

    /// Creates a table without rows from its column keys, with room reserved
    /// for `rows` rows, as far as that count of values fits the machine and
    /// the room can be had.
    pub fn with_columns_and_capacity(columns: Vec<K>, rows: usize) -> (t: Self)
        requires
            obeys_key_model::<K>(),
            columns@.no_duplicates(),
        ensures
            t.wf(),
            t@.columns == columns@,
            t@.rows == Seq::<Seq<V>>::empty(),
    {
        let ghost order = columns@;
        let indices_table = indices_table_from_iterator(columns);
        let columns_count = indices_table.len();
        let values_vector = buffer_with_capacity(columns_count, rows);
        let t = HashTable { indices_table, values_vector, column_order: Ghost(order) };
        assert(t@.rows =~= Seq::<Seq<V>>::empty());
        t
    }

    /// Whether a row given as `(key, value)` pairs holds one value for each
    /// column of this table, so that `push_row` takes it.
    pub fn accepts_row(&self, row: &Vec<(K, V)>) -> (ok: bool)
        requires
            self.wf(),
        ensures
            ok == row_matches(self@.columns, row@),
    {
        let n = self.columns_len();
        if row.len() != n {
            return false;
        }
        proof {
            lemma_slots_agree(self.indices_table@, self.column_order@);
        }
        let ghost order = self.column_order@;
        let mut seen: Vec<bool> = Vec::with_capacity(n);
        while seen.len() < n
            invariant
                seen@.len() <= n,
                forall|s: int| 0 <= s < seen@.len() ==> !(#[trigger] seen@[s]),
            decreases n - seen@.len(),
        {
            seen.push(false);
        }
        let mut i: usize = 0;
        while i < row.len()
            invariant
                self.wf(),
                order == self.column_order@,
                n == order.len(),
                seen@.len() == n,
                i <= row@.len(),
                forall|j: int| 0 <= j < i ==> order.contains((#[trigger] row@[j]).0),
                forall|s: int|
                    0 <= s < n ==> ((#[trigger] seen@[s]) <==> exists|j: int|
                        0 <= j < i && (#[trigger] row@[j]).0 == order[s]),
            decreases row@.len() - i,
        {
            let ghost before = seen@;
            match lookup_slot(&self.indices_table, &row[i].0) {
                Some(slot) => {
                    seen[slot] = true;
                    proof {
                        lemma_slots_agree(self.indices_table@, order);
                        assert(order[slot as int] == row@[i as int].0);
                        assert forall|s: int| 0 <= s < n implies ((#[trigger] seen@[s]) <==> exists|j: int|
                            0 <= j < i + 1 && (#[trigger] row@[j]).0 == order[s]) by {
                            if s != slot {
                                assert(seen@[s] == before[s]);
                                assert(order[s] != row@[i as int].0);
                            }
                        }
                    }
                },
                None => {
                    proof {
                        lemma_slots_agree(self.indices_table@, order);
                        assert(!order.contains(row@[i as int].0));
                    }
                    return false;
                },
            }
            i = i + 1;
        }
        let mut s: usize = 0;
        while s < n
            invariant
                s <= n,
                n == order.len(),
                order == self@.columns,
                row@.len() == n,
                seen@.len() == n,
                forall|j: int| 0 <= j < row@.len() ==> order.contains((#[trigger] row@[j]).0),
                forall|s: int|
                    0 <= s < n ==> ((#[trigger] seen@[s]) <==> exists|j: int|
                        0 <= j < row@.len() && (#[trigger] row@[j]).0 == order[s]),
                forall|t: int| 0 <= t < s ==> #[trigger] seen@[t],
            decreases n - s,
        {
            if !seen[s] {
                proof {
                    assert(!seen@[s as int]);
                    assert(!(exists|j: int| 0 <= j < row@.len() && (#[trigger] row@[j]).0 == order[s as int]));
                    assert(!has_key(row@, self@.columns[s as int]));
                }
                return false;
            }
            s = s + 1;
        }
        proof {
            assert forall|s: int| 0 <= s < order.len() implies has_key(row@, #[trigger] order[s]) by {
                assert(seen@[s]);
            }
            assert(row_covers(self@.columns, row@));
        }
        true
    }

    /// Adds a row to the table from `(key, value)` pairs, which must hold
    /// one value for each column. The values are stored in slot order,
    /// whatever the order of the pairs.
    pub fn push_row(&mut self, row: Vec<(K, V)>)
        requires
            old(self).wf(),
            row_matches(old(self)@.columns, row@),
        ensures
            final(self).wf(),
            final(self)@ == old(self)@.with_row(row_in_slot_order(old(self)@.columns, row@)),
    {
        let mut values = arrange_row(&self.indices_table, Ghost(self.column_order@), row);
        proof {
            if self.column_order@.len() > 0 {
                lemma_chunks_push(self.values_vector@, self.column_order@.len(), values@);
            }
        }
        self.values_vector.append(&mut values);
    }

    /// Makes a table from rows, each given as `(key, value)` pairs. The
    /// first row gives the column keys and their slot order, and must name
    /// no key twice. Every other row must name each of those keys and no
    /// other; where it names a key more than once, the first pair counts.
    pub fn from_iter(rows: Vec<Vec<(K, V)>>) -> (t: Self)
        requires
            obeys_key_model::<K>(),
            rows_fit(rows@.map_values(|row: Vec<(K, V)>| row@)),
        ensures
            t.wf(),
            t@ == table_of_rows(rows@.map_values(|row: Vec<(K, V)>| row@)),
    {
        let ghost input = rows@.map_values(|row: Vec<(K, V)>| row@);
        match Self::try_from_iter(rows) {
            Ok(t) => t,
            Err(fault) => {
                proof {
                    match fault {
                        FromRowsError::RepeatedKey => {},
                        FromRowsError::UnknownKey { row } => {
                            assert(row_covers(pair_keys(input[0]), input[row as int]));
                        },
                        FromRowsError::MissingKey { row } => {
                            assert(row_covers(pair_keys(input[0]), input[row as int]));
                        },
                    }
                }
                vstd::pervasive::unreached()
            },
        }
    }

    /// Makes a table from rows, each given as `(key, value)` pairs, as
    /// `from_iter` does, or says why the rows make no table: the first row
    /// names a key twice, or a later row names a key that the first row
    /// does not name, or lacks a key that the first row names. The first
    /// row at fault is reported.
    pub fn try_from_iter(rows: Vec<Vec<(K, V)>>) -> (r: Result<Self, FromRowsError>)
        requires
            obeys_key_model::<K>(),
        ensures
            match r {
                Ok(t) => rows_fit(rows@.map_values(|row: Vec<(K, V)>| row@)) && t.wf() && t@ == table_of_rows(
                    rows@.map_values(|row: Vec<(K, V)>| row@),
                ),
                Err(fault) => rows_fault(rows@.map_values(|row: Vec<(K, V)>| row@), fault),
            },
    {
        let ghost input = rows@.map_values(|row: Vec<(K, V)>| row@);
        let mut keys: HashMap<K, usize> = HashMap::new();
        let mut values: Vec<V> = Vec::new();
        let mut order: Ghost<Seq<K>> = Ghost(Seq::empty());
        let mut first = true;
        let mut at: usize = 0;
        proof {
            assert(rows.len() == rows@.len());
        }
        for row in it: rows
            invariant
                obeys_key_model::<K>(),
                it.seq() == rows@,
                rows@.len() <= usize::MAX,
                input == rows@.map_values(|row: Vec<(K, V)>| row@),
                at == it.index(),
                first <==> it.index() == 0,
                first ==> keys@ == Map::<K, usize>::empty() && values@.len() == 0 && order@.len() == 0,
                slots_agree(keys@, order@),
                !first ==> order@ == pair_keys(input[0]) && order@.no_duplicates(),
                forall|r: int| 1 <= r < it.index() ==> row_covers(pair_keys(input[0]), #[trigger] input[r]),
                order@.len() == 0 ==> values@.len() == 0,
                order@.len() > 0 ==> values@.len() % order@.len() == 0 && chunks(values@, order@.len())
                    == Seq::new(it.index() as nat, |r: int| row_in_slot_order(order@, input[r])),
        {
            assert(row@ == input[at as int]);
            if first {
                match try_first_row(row) {
                    Some((slots, first_values)) => {
                        keys = slots;
                        values = first_values;
                        order = Ghost(pair_keys(input[0]));
                        first = false;
                        proof {
                            let n = order@.len();
                            if n > 0 {
                                vstd::arithmetic::div_mod::lemma_small_mod(0, n);
                                lemma_chunks_push(Seq::<V>::empty(), n, values@);
                                assert(Seq::<V>::empty() + values@ =~= values@);
                                assert(chunks(values@, n) =~= Seq::new(
                                    1,
                                    |r: int| row_in_slot_order(order@, input[r]),
                                ));
                            }
                        }
                    },
                    None => {
                        return Err(FromRowsError::RepeatedKey);
                    },
                }
            } else {
                match try_arrange_row(&keys, order, row) {
                    Ok(arranged) => {
                        let mut arranged = arranged;
                        proof {
                            let n = order@.len();
                            if n > 0 {
                                lemma_chunks_push(values@, n, arranged@);
                                assert(chunks(values@, n).push(arranged@) =~= Seq::new(
                                    (at + 1) as nat,
                                    |r: int| row_in_slot_order(order@, input[r]),
                                ));
                            }
                        }
                        values.append(&mut arranged);
                    },
                    Err(RowFault::UnknownKey) => {
                        return Err(FromRowsError::UnknownKey { row: at });
                    },
                    Err(RowFault::MissingKey) => {
                        return Err(FromRowsError::MissingKey { row: at });
                    },
                }
            }
            at = at + 1;
        }
        let t = HashTable { indices_table: keys, values_vector: values, column_order: order };
        proof {
            assert(t@.rows =~= table_of_rows(input).rows);
            assert(t@.columns =~= table_of_rows(input).columns);
        }
        Ok(t)
    }

    /// Adds a column in the highest slot, with one value for each row:
    /// `values[r]` becomes the element of row `r`. `values` must hold at
    /// least as many values as the table has rows, and what it holds beyond
    /// them is dropped; the table must not have a column of that key yet.
    ///
    /// Every row is widened in the buffer, one after the other, so this
    /// takes time quadratic in the number of rows.
    pub fn insert_column(&mut self, column: K, values: Vec<V>)
        requires
            old(self).wf(),
            !old(self)@.has_column(column),
            values@.len() >= old(self)@.rows_len(),
        ensures
            final(self).wf(),
            final(self)@ == old(self)@.with_column(column, values@),
    {
        let ghost before = *self;
        let ghost key = column;
        let ghost given = values@;
        let rows = self.rows_len();
        let new_column_index = self.columns_len();
        let mut values = values;
        values.truncate(rows);
        proof {
            self.lemma_wf_view();
            lemma_slots_agree(self.indices_table@, self.column_order@);
            lemma_slots_agree_push(self.indices_table@, self.column_order@, key);
        }
        self.indices_table.insert(column, new_column_index);
        self.column_order = Ghost(self.column_order@.push(key));
        splice_column(&mut self.values_vector, new_column_index, values);
        proof {
            let width = (new_column_index + 1) as nat;
            let wide = before@.with_column(key, given).rows;
            assert(rows * (new_column_index + 1) == rows * width);
            lemma_complete_rows_exact(rows as nat, width);
            assert forall|r: int, s: int| 0 <= r < wide.len() && 0 <= s < width implies self.values_vector@[r
                * width + s] == #[trigger] wide[r][s] by {
                assert(self.values_vector@[r * (new_column_index + 1) + s] == (if s < new_column_index {
                    before.values_vector@[r * new_column_index + s]
                } else {
                    values@[r]
                }));
                if s < new_column_index {
                    assert(before@.rows[r][s] == before.values_vector@[r * new_column_index + s]);
                }
            }
            lemma_chunks_from_cells(self.values_vector@, width, wide);
        }
    }

    /// Get a table column: `None` where the table has no such column. The
    /// view holds one reference for each row, in row order.
    pub fn get_column<'t, 'k>(&'t self, column: &'k K) -> (r: Option<HashTableColumnBorrowed<'t, 'k, K, V>>)
        requires
            self.wf(),
        ensures
            match r {
                Some(found) => self@.has_column(*column) && found@ == (ColumnView {
                    key: *column,
                    values: self@.column(*column),
                }),
                None => !self@.has_column(*column),
            },
    {
        match self.column_index(column) {
            Some(idx) => {
                let rows = self.rows_len();
                let width = self.columns_len();
                let mut values: Vec<&V> = Vec::with_capacity(rows);
                let mut r: usize = 0;
                proof {
                    self.lemma_wf_view();
                }
                while r < rows
                    invariant
                        self.wf(),
                        r <= rows,
                        rows == self@.rows_len(),
                        width == self@.columns_len(),
                        idx < width,
                        values@.len() == r,
                        forall|i: int| 0 <= i < r ==> *(#[trigger] values@[i]) == self@.rows[i][idx as int],
                    decreases rows - r,
                {
                    proof {
                        self.lemma_wf_view();
                        lemma_cell_in_buffer(rows as int, width as int, r as int, idx as int);
                        assert(self@.rows[r as int][idx as int] == self.values_vector@[r * width + idx]);
                        assert(self.values_vector.len() == self.values_vector@.len());
                    }
                    values.push(&self.values_vector[r * width + idx]);
                    r = r + 1;
                }
                let found = HashTableColumnBorrowed::new(column, values);
                proof {
                    assert(found@.values =~= self@.column(*column));
                }
                Some(found)
            },
            None => None,
        }
    }

    /// Removes a column from the table and hands out its key and its values,
    /// one per row: `None`, and nothing changed, where the table has no such
    /// column. The columns in higher slots move down by one slot, so that
    /// the slot indices stay a gapless run from zero.
    ///
    /// One value is taken out of every row of the buffer, one after the
    /// other, so this takes time quadratic in the number of rows.
    pub fn remove_column(&mut self, column: &K) -> (r: Option<HashTableColumnOwned<K, V>>)
        requires
            old(self).wf(),
        ensures
            final(self).wf(),
            match r {
                Some(taken) => old(self)@.has_column(*column) && taken@ == (ColumnView {
                    key: *column,
                    values: old(self)@.column(*column),
                }) && final(self)@ == old(self)@.without_column(*column),
                None => !old(self)@.has_column(*column) && final(self)@ == old(self)@,
            },
            r is Some ==> forall|k: K| #[trigger]
                final(self)@.has_column(k) ==> old(self)@.has_column(k) && final(self).slot_of(k)
                    == slot_after_removal(old(self).slot_of(k) as int, old(self).slot_of(*column) as int),
    {
        proof {
            self.lemma_wf_view();
            lemma_slots_agree(self.indices_table@, self.column_order@);
        }
        match self.column_index(column) {
            Some(column_index) => Some(self.remove_column_at(column_index)),
            None => None,
        }
    }

    /// Removes the column of the given slot, which the table must have, and
    /// hands out its key and its values, one per row. The columns in higher
    /// slots move down by one slot.
    pub fn remove_column_at(&mut self, column_index: usize) -> (taken: HashTableColumnOwned<K, V>)
        requires
            old(self).wf(),
            column_index < old(self)@.columns_len(),
        ensures
            final(self).wf(),
            taken@ == (ColumnView {
                key: old(self)@.columns[column_index as int],
                values: old(self)@.column_at(column_index as int),
            }),
            final(self)@ == old(self)@.without_slot(column_index as int),
            forall|k: K| #[trigger]
                final(self)@.has_column(k) ==> old(self)@.has_column(k) && final(self).slot_of(k)
                    == slot_after_removal(old(self).slot_of(k) as int, column_index as int),
    {
        let ghost before = *self;
        proof {
            self.lemma_wf_view();
            lemma_slots_agree(self.indices_table@, self.column_order@);
        }
        let rows = self.rows_len();
        let width = self.columns_len();
        let key = remove_slot(&mut self.indices_table, Ghost(self.column_order@), column_index);
        self.column_order = Ghost(self.column_order@.remove(column_index as int));
        let buf = extract_column(&mut self.values_vector, rows, width, column_index);
        proof {
            let narrow = before@.without_slot(column_index as int).rows;
            lemma_slots_agree(self.indices_table@, self.column_order@);
            assert(buf@ =~= before@.column_at(column_index as int)) by {
                assert forall|r: int| 0 <= r < rows implies buf@[r] == before@.column_at(column_index as int)[r] by {
                    assert(before@.rows[r][column_index as int] == before.values_vector@[r * width + column_index]);
                }
            }
            if width > 1 {
                let w = (width - 1) as nat;
                lemma_complete_rows_exact(rows as nat, w);
                assert forall|r: int, s: int| 0 <= r < narrow.len() && 0 <= s < w implies self.values_vector@[r
                    * w + s] == #[trigger] narrow[r][s] by {
                    let from = if s < column_index {
                        s
                    } else {
                        s + 1
                    };
                    assert(self.values_vector@[r * (width - 1) + s] == before.values_vector@[r * width + from]);
                    assert(before@.rows[r][from] == before.values_vector@[r * width + from]);
                }
                lemma_chunks_from_cells(self.values_vector@, w, narrow);
            } else {
                assert(rows * 0 == 0) by (nonlinear_arith);
                assert(self@.rows =~= narrow);
            }
        }
        HashTableColumnOwned::new(key, buf)
    }

    /// Removes a row and hands out its values in a map from the references
    /// to the column keys: `None`, and nothing changed, where `row` is not
    /// below the number of rows. The rows behind it move down by one.
    ///
    /// What the map holds is stated for key references that behave as hash
    /// keys.
    pub fn remove_row_hashmap(&mut self, row: usize) -> (r: Option<HashMap<&K, V>>)
        requires
            old(self).wf(),
        ensures
            final(self).wf(),
            match r {
                Some(map) => row < old(self)@.rows_len() && final(self)@ == old(self)@.without_row(row as int) && (
                obeys_key_model::<&K>() ==> forall|k: &K|
                    (#[trigger] map@.contains_key(k) <==> old(self)@.has_column(*k)) && (map@.contains_key(k)
                        ==> map@[k] == old(self)@.cell(*k, row as int))),
                None => row >= old(self)@.rows_len() && final(self)@ == old(self)@,
            },
    {
        let ghost before = self@;
        proof {
            self.lemma_wf_view();
        }
        match self.remove_row_pairs(row) {
            Some(pairs) => {
                let ghost given = pairs@;
                let ghost values = before.rows[row as int];
                let mut map: HashMap<&K, V> = HashMap::with_capacity(pairs.len());
                for pair in it: pairs
                    invariant
                        it.seq() == given,
                        before.wf(),
                        0 <= row < before.rows_len(),
                        values == before.rows[row as int],
                        given.len() == before.columns.len(),
                        forall|s: int|
                            0 <= s < given.len() ==> *(#[trigger] given[s]).0 == before.columns[s] && given[s].1
                                == values[s],
                        obeys_key_model::<&K>() ==> forall|k: &K|
                            (#[trigger] map@.contains_key(k) <==> exists|s: int|
                                0 <= s < it.index() && before.columns[s] == *k) && (map@.contains_key(k) ==> map@[k]
                                == values[before.columns.index_of(*k)]),
                {
                    let ghost had = map@;
                    let ghost at = it.index();
                    let (key, value) = pair;
                    map.insert(key, value);
                    proof {
                        if obeys_key_model::<&K>() {
                            assert(given[at] == (key, value));
                            assert(before.columns[at] == *key);
                            assert forall|k: &K|
                                (#[trigger] map@.contains_key(k) <==> exists|s: int|
                                    0 <= s < at + 1 && before.columns[s] == *k) && (map@.contains_key(k) ==> map@[k]
                                    == values[before.columns.index_of(*k)]) by {
                                if k == key {
                                    assert(before.columns.index_of(*k) == at);
                                } else {
                                    assert(map@.contains_key(k) == had.contains_key(k));
                                    if had.contains_key(k) {
                                        let s = choose|s: int| 0 <= s < at && before.columns[s] == *k;
                                        assert(0 <= s < at + 1 && before.columns[s] == *k);
                                    }
                                    if exists|s: int| 0 <= s < at + 1 && before.columns[s] == *k {
                                        let s = choose|s: int| 0 <= s < at + 1 && before.columns[s] == *k;
                                        assert(s != at);
                                        assert(0 <= s < at && before.columns[s] == *k);
                                    }
                                }
                            }
                        }
                    }
                }
                proof {
                    if obeys_key_model::<&K>() {
                        assert forall|k: &K|
                            (#[trigger] map@.contains_key(k) <==> before.has_column(*k)) && (map@.contains_key(k)
                                ==> map@[k] == before.cell(*k, row as int)) by {
                            if before.has_column(*k) {
                                let s = before.columns.index_of(*k);
                                assert(0 <= s < given.len() && before.columns[s] == *k);
                            }
                        }
                    }
                }
                Some(map)
            },
            None => None,
        }
    }

    /// Makes a table from its column keys and rows of values. The key at
    /// position `i` gets slot `i`. The values of all rows are laid end to
    /// end and cut into rows of one value per column, whatever the lengths
    /// of the rows given; the values behind the last complete row are
    /// dropped.
    pub fn from_column_keys_and_rows(columns: Vec<K>, rows: Vec<Vec<V>>) -> (t: Self)
        requires
            obeys_key_model::<K>(),
            columns@.no_duplicates(),
        ensures
            t.wf(),
            t@.columns == columns@,
            t@.rows == chunks(flatten(rows@.map_values(|row: Vec<V>| row@)), columns@.len()),
    {
        let ghost order = columns@;
        let indices_table = indices_table_from_iterator(columns);
        Self::from_slots_and_rows(indices_table, Ghost(order), rows)
    }

    /// Makes a table from its column keys and rows of values, as
    /// `from_column_keys_and_rows` does, or `None` where a key occurs
    /// twice.
    pub fn try_from_column_keys_and_rows(columns: Vec<K>, rows: Vec<Vec<V>>) -> (r: Option<Self>)
        requires
            obeys_key_model::<K>(),
        ensures
            match r {
                Some(t) => columns@.no_duplicates() && t.wf() && t@.columns == columns@ && t@.rows == chunks(
                    flatten(rows@.map_values(|row: Vec<V>| row@)),
                    columns@.len(),
                ),
                None => !columns@.no_duplicates(),
            },
    {
        let ghost order = columns@;
        match try_indices_table(columns) {
            Some(indices_table) => Some(Self::from_slots_and_rows(indices_table, Ghost(order), rows)),
            None => None,
        }
    }

    /// Creates a table without rows from its column keys, as `with_columns`
    /// does, or `None` where a key occurs twice.
    pub fn try_with_columns(columns: Vec<K>) -> (r: Option<Self>)
        requires
            obeys_key_model::<K>(),
        ensures
            match r {
                Some(t) => columns@.no_duplicates() && t.wf() && t@.columns == columns@ && t@.rows == Seq::<
                    Seq<V>,
                >::empty(),
                None => !columns@.no_duplicates(),
            },
    {
        let ghost order = columns@;
        match try_indices_table(columns) {
            Some(indices_table) => {
                let t = HashTable { indices_table, values_vector: Vec::new(), column_order: Ghost(order) };
                assert(t@.rows =~= Seq::<Seq<V>>::empty());
                Some(t)
            },
            None => None,
        }
    }

    /// Makes a table from the map of its column keys and rows of values:
    /// the values of all rows are laid end to end and cut into rows of one
    /// value per column.
    fn from_slots_and_rows(indices_table: HashMap<K, usize>, order: Ghost<Seq<K>>, rows: Vec<Vec<V>>) -> (t: Self)
        requires
            obeys_key_model::<K>(),
            slots_agree(indices_table@, order@),
        ensures
            t.wf(),
            t@.columns == order@,
            t@.rows == chunks(flatten(rows@.map_values(|row: Vec<V>| row@)), order@.len()),
    {
        let ghost order = order@;
        let ghost input = rows@.map_values(|row: Vec<V>| row@);
        let mut values_vector: Vec<V> = Vec::new();
        proof {
            assert(input.subrange(0, 0) =~= Seq::<Seq<V>>::empty());
        }
        for row in it: rows
            invariant
                it.seq() == rows@,
                input == rows@.map_values(|row: Vec<V>| row@),
                values_vector@ == flatten(input.subrange(0, it.index())),
        {
            let ghost at = it.index();
            let mut row = row;
            proof {
                assert(row@ == input[at]);
                lemma_flatten_push(input.subrange(0, at), input[at]);
                assert(input.subrange(0, at).push(input[at]) =~= input.subrange(0, at + 1));
            }
            values_vector.append(&mut row);
        }
        let ghost flat = values_vector@;
        proof {
            assert(input.subrange(0, input.len() as int) =~= input);
            lemma_chunks_whole_rows(flat, order.len());
            lemma_slots_agree(indices_table@, order);
        }
        let width = indices_table.len();
        if width == 0 {
            values_vector.truncate(0);
        } else {
            let remainder = values_vector.len() % width;
            proof {
                vstd::arithmetic::div_mod::lemma_fundamental_div_mod(flat.len() as int, width as int);
                assert(width * (flat.len() / (width as nat)) == (flat.len() / (width as nat)) * width)
                    by (nonlinear_arith);
            }
            values_vector.truncate(values_vector.len() - remainder);
        }
        assert(values_vector@ == flat.subrange(0, (complete_rows(flat.len(), order.len()) * order.len()) as int));
        HashTable { indices_table, values_vector, column_order: Ghost(order) }
    }

    /// Adds a row to the table with a generator function, which is called
    /// once for each column key, in slot order, and gives the value of the
    /// row in that column. A table without columns stays as it is.
    pub fn push_row_with<F: Fn(&K) -> V>(&mut self, row_generator: F)
        requires
            old(self).wf(),
            forall|k: K| #[trigger] old(self)@.has_column(k) ==> call_requires(row_generator, (&k,)),
        ensures
            final(self).wf(),
            final(self)@.columns == old(self)@.columns,
            old(self)@.columns_len() == 0 ==> final(self)@ == old(self)@,
            old(self)@.columns_len() > 0 ==> final(self)@.rows.len() == old(self)@.rows.len() + 1,
            old(self)@.columns_len() > 0 ==> final(self)@.rows.drop_last() == old(self)@.rows,
            old(self)@.columns_len() > 0 ==> forall|s: int|
                0 <= s < old(self)@.columns_len() ==> call_ensures(
                    row_generator,
                    (&old(self)@.columns[s],),
                    #[trigger] final(self)@.rows.last()[s],
                ),
    {
        let ghost flat = self.values_vector@;
        let ghost order = self.column_order@;
        let keys = slot_keys(&self.indices_table, Ghost(self.column_order@));
        let n = keys.len();
        let mut i: usize = 0;
        proof {
            lemma_slots_agree(self.indices_table@, order);
            assert forall|k: K| #[trigger] order.contains(k) implies call_requires(row_generator, (&k,)) by {
                assert(old(self)@.has_column(k));
            }
        }
        while i < n
            invariant
                i <= n,
                n == order.len(),
                n == keys@.len(),
                order == self.column_order@,
                obeys_key_model::<K>(),
                slots_agree(self.indices_table@, order),
                flat == old(self).values_vector@,
                old(self).wf(),
                order == old(self).column_order@,
                forall|j: int| 0 <= j < n ==> *(#[trigger] keys@[j]) == order[j],
                forall|k: K| #[trigger] order.contains(k) ==> call_requires(row_generator, (&k,)),
                self.values_vector@.len() == flat.len() + i,
                self.values_vector@.subrange(0, flat.len() as int) == flat,
                forall|s: int|
                    0 <= s < i ==> call_ensures(
                        row_generator,
                        (&order[s],),
                        #[trigger] self.values_vector@[flat.len() + s],
                    ),
            decreases n - i,
        {
            let ghost had = self.values_vector@;
            assert(order.contains(order[i as int]));
            let value = row_generator(keys[i]);
            self.values_vector.push(value);
            proof {
                assert(self.values_vector@.subrange(0, flat.len() as int) =~= had.subrange(0, flat.len() as int));
                assert forall|s: int| 0 <= s < i + 1 implies call_ensures(
                    row_generator,
                    (&order[s],),
                    #[trigger] self.values_vector@[flat.len() + s],
                ) by {
                    if s < i {
                        assert(self.values_vector@[flat.len() + s] == had[flat.len() + s]);
                    }
                }
            }
            i = i + 1;
        }
        proof {
            if n > 0 {
                let row = self.values_vector@.subrange(flat.len() as int, flat.len() + n);
                assert(self.values_vector@ =~= flat + row);
                lemma_chunks_push(flat, n as nat, row);
                assert(self@.rows.drop_last() =~= old(self)@.rows);
                assert forall|s: int| 0 <= s < n implies call_ensures(
                    row_generator,
                    (&order[s],),
                    #[trigger] self@.rows.last()[s],
                ) by {
                    assert(self@.rows.last()[s] == self.values_vector@[flat.len() + s]);
                }
            } else {
                assert(self.values_vector@ =~= flat);
            }
        }
    }

    /// Adds a column in the highest slot with a generator function, which
    /// is called once for each row, in row order, with a borrowed view of
    /// that row, and gives the row's value in the new column. The table
    /// must not have a column of that key yet.
    pub fn insert_column_with<F: Fn(HashTableRowBorrowed<'_, K, V>) -> V>(&mut self, column: K, values: F)
        requires
            old(self).wf(),
            !old(self)@.has_column(column),
            forall|row: HashTableRowBorrowed<'_, K, V>|
                row.wf() && old(self)@.has_row(row@) ==> #[trigger] call_requires(values, (row,)),
        ensures
            final(self).wf(),
            final(self)@.columns == old(self)@.columns.push(column),
            final(self)@.rows.len() == old(self)@.rows.len(),
            forall|r: int|
                0 <= r < old(self)@.rows_len() ==> (#[trigger] final(self)@.rows[r]).drop_last() == old(self)@.rows[r]
                    && generated_for_row(values, old(self)@, r, final(self)@.rows[r].last()),
    {
        let rows = self.rows_len();
        let mut made: Vec<V> = Vec::with_capacity(rows);
        let mut i: usize = 0;
        while i < rows
            invariant
                self.wf(),
                *self == *old(self),
                i <= rows,
                rows == self@.rows_len(),
                made@.len() == i,
                forall|row: HashTableRowBorrowed<'_, K, V>|
                    row.wf() && self@.has_row(row@) ==> #[trigger] call_requires(values, (row,)),
                forall|r: int| 0 <= r < i ==> generated_for_row(values, self@, r, #[trigger] made@[r]),
            decreases rows - i,
        {
            let ghost had = made@;
            let row = self.get_row(i).unwrap();
            let ghost seen = row;
            assert(self@.rows[i as int] == row@.values);
            assert(self@.has_row(row@));
            let value = values(row);
            made.push(value);
            proof {
                assert forall|r: int| 0 <= r < i + 1 implies generated_for_row(values, self@, r, #[trigger] made@[r]) by {
                    if r < i {
                        assert(made@[r] == had[r]);
                    } else {
                        assert(seen.wf() && seen@ == self@.row(r));
                        assert(call_ensures(values, (seen,), made@[r]));
                    }
                }
            }
            i = i + 1;
        }
        let ghost given = made@;
        self.insert_column(column, made);
        proof {
            old(self).lemma_wf_view();
            assert(self@.rows.len() == old(self)@.rows.len());
            assert forall|r: int| 0 <= r < old(self)@.rows_len() implies (#[trigger] self@.rows[r]).drop_last()
                == old(self)@.rows[r] && generated_for_row(values, old(self)@, r, self@.rows[r].last()) by {
                assert(self@.rows[r] == old(self)@.rows[r].push(given[r]));
                assert(self@.rows[r].drop_last() =~= old(self)@.rows[r]);
                assert(generated_for_row(values, old(self)@, r, given[r]));
            }
        }
    }

    /// Makes a table from columns: column `i` gets slot `i`, and its values
    /// go to the rows in order. No key may occur twice, and all columns must
    /// hold as many values as the first.
    pub fn from_column_iter(columns: Vec<HashTableColumnOwned<K, V>>) -> (t: Self)
        requires
            obeys_key_model::<K>(),
            forall|i: int, j: int|
                0 <= i < j < columns@.len() ==> (#[trigger] columns@[i])@.key != (#[trigger] columns@[j])@.key,
            forall|i: int|
                0 <= i < columns@.len() ==> (#[trigger] columns@[i])@.values.len() == columns@[0]@.values.len(),
        ensures
            t.wf(),
            t@ == table_of_columns(columns@.map_values(|c: HashTableColumnOwned<K, V>| c@)),
    {
        let ghost input = columns@.map_values(|c: HashTableColumnOwned<K, V>| c@);
        let ghost keys = Seq::new(input.len(), |i: int| input[i].key);
        let ghost rows: nat = if input.len() == 0 {
            0
        } else {
            input[0].values.len()
        };
        let mut indices: HashMap<K, usize> = HashMap::new();
        let mut result_values: Vec<V> = Vec::new();
        let mut i: usize = 0;
        proof {
            assert(keys.subrange(0, 0) =~= Seq::<K>::empty());
            assert(rows * 0 == 0) by (nonlinear_arith);
            assert(columns.len() == columns@.len());
        }
        for col in it: columns
            invariant
                obeys_key_model::<K>(),
                it.seq() == columns@,
                columns@.len() <= usize::MAX,
                input == columns@.map_values(|c: HashTableColumnOwned<K, V>| c@),
                keys == Seq::new(input.len(), |i: int| input[i].key),
                forall|i: int, j: int| 0 <= i < j < input.len() ==> (#[trigger] input[i]).key != (#[trigger] input[j]).key,
                forall|i: int| 0 <= i < input.len() ==> (#[trigger] input[i]).values.len() == rows,
                i == it.index(),
                slots_agree(indices@, keys.subrange(0, i as int)),
                result_values@.len() == rows * i,
                forall|r: int, s: int|
                    #![trigger input[s].values[r]]
                    0 <= r < rows && 0 <= s < i ==> result_values@[r * i + s] == input[s].values[r],
        {
            let ghost had = result_values@;
            let ghost view = col@;
            assert(view == input[i as int]);
            let (key, col_values) = col.into_pair();
            proof {
                let order = keys.subrange(0, i as int);
                if indices@.contains_key(key) {
                    let at = indices@[key] as int;
                    assert(order[at] == key);
                    assert(input[at].key == input[i as int].key);
                }
                lemma_slots_agree_push(indices@, order, key);
                assert(order.push(key) =~= keys.subrange(0, i + 1));
                assert(col_values@.len() * i == rows * i);
            }
            indices.insert(key, i);
            splice_column(&mut result_values, i, col_values);
            proof {
                assert forall|r: int, s: int|
                    #![trigger input[s].values[r]]
                    0 <= r < rows && 0 <= s < i + 1 implies result_values@[r * (i + 1) + s] == input[s].values[r] by {
                    assert(result_values@[r * (i + 1) + s] == (if s < i {
                        had[r * i + s]
                    } else {
                        col_values@[r]
                    }));
                }
            }
            i = i + 1;
        }
        let t = HashTable { indices_table: indices, values_vector: result_values, column_order: Ghost(keys) };
        proof {
            assert(keys.subrange(0, i as int) =~= keys);
            let want = table_of_columns(input);
            assert(t@.columns =~= want.columns);
            if i > 0 {
                lemma_complete_rows_exact(rows, i as nat);
                assert forall|r: int, s: int| 0 <= r < want.rows.len() && 0 <= s < i implies t.values_vector@[r
                    * (i as nat) + s] == #[trigger] want.rows[r][s] by {
                    assert(t.values_vector@[r * i + s] == input[s].values[r]);
                }
                lemma_chunks_from_cells(t.values_vector@, i as nat, want.rows);
            } else {
                assert(t@.rows =~= want.rows);
            }
        }
        t
    }
}

/// Convenience struct for a table that was made from columns.
pub struct HashTableFromColumns<K, V>(pub HashTable<K, V>);

impl<K, V> HashTableFromColumns<K, V> {
    /// The table.
    pub fn into_table(self) -> (t: HashTable<K, V>)
        ensures
            t == self.0,
    {
        self.0
    }

    /// The table.
    pub fn table(&self) -> (t: &HashTable<K, V>)
        ensures
            *t == self.0,
    {
        &self.0
    }
}

impl<K: Hash + Eq, V> HashTableFromColumns<K, V> {
    /// Makes the table from columns, as `HashTable::from_column_iter` does.
    pub fn from_iter(columns: Vec<HashTableColumnOwned<K, V>>) -> (made: Self)
        requires
            obeys_key_model::<K>(),
            forall|i: int, j: int|
                0 <= i < j < columns@.len() ==> (#[trigger] columns@[i])@.key != (#[trigger] columns@[j])@.key,
            forall|i: int|
                0 <= i < columns@.len() ==> (#[trigger] columns@[i])@.values.len() == columns@[0]@.values.len(),
        ensures
            made.0.wf(),
            made.0@ == table_of_columns(columns@.map_values(|c: HashTableColumnOwned<K, V>| c@)),
    {
        HashTableFromColumns(HashTable::from_column_iter(columns))
    }
}

impl<K, V> std::ops::Deref for HashTableFromColumns<K, V> {
    type Target = HashTable<K, V>;

    fn deref(&self) -> (t: &HashTable<K, V>)
        ensures
            *t == self.0,
    {
        &self.0
    }
}

impl<K: Clone, V: Clone> Clone for HashTable<K, V> {
    /// A table with the same column keys in the same slots, and with a
    /// clone of every value.
    fn clone(&self) -> (t: Self)
        ensures
            self.wf() ==> t.wf(),
            t@.columns == self@.columns,
            t@.rows.len() == self@.rows.len(),
            forall|r: int, s: int|
                0 <= r < self@.rows_len() && 0 <= s < self@.columns_len() ==> cloned(
                    #[trigger] self@.rows[r][s],
                    t@.rows[r][s],
                ),
    {
        let t = HashTable {
            indices_table: self.indices_table.clone(),
            values_vector: self.values_vector.clone(),
            column_order: self.column_order,
        };
        proof {
            assert forall|r: int, s: int| 0 <= r < self@.rows_len() && 0 <= s < self@.columns_len() implies cloned(
                #[trigger] self@.rows[r][s],
                t@.rows[r][s],
            ) by {
                lemma_chunks_index(self.values_vector@, self.column_order@.len(), r, s);
                lemma_chunks_index(t.values_vector@, self.column_order@.len(), r, s);
            }
        }
        t
    }
}

impl<K, V> Default for HashTable<K, V> {
    /// The table without columns and rows.
    fn default() -> (t: Self)
        ensures
            obeys_key_model::<K>() ==> t.wf(),
            t@.columns == Seq::<K>::empty(),
            t@.rows == Seq::<Seq<V>>::empty(),
    {
        let t = HashTable {
            indices_table: HashMap::new(),
            values_vector: Vec::new(),
            column_order: Ghost(Seq::empty()),
        };
        assert(t@.rows =~= Seq::<Seq<V>>::empty());
        t
    }
}

} // verus!
