//! The mathematical model of a table: its column keys in slot order and its
//! rows, each a sequence of values in slot order.

use vstd::prelude::*;

verus! {

/// What a table holds: the column keys by slot index, and the rows, each one
/// holding its values by slot index.
pub struct TableView<K, V> {
    pub columns: Seq<K>,
    pub rows: Seq<Seq<V>>,
}

impl<K, V> TableView<K, V> {
    /// No key occurs twice, every row has one value per column, and a table
    /// without columns has no rows.
    pub open spec fn wf(self) -> bool {
        &&& self.columns.no_duplicates()
        &&& forall|r: int| 0 <= r < self.rows.len() ==> (#[trigger] self.rows[r]).len() == self.columns.len()
        &&& self.columns.len() == 0 ==> self.rows.len() == 0
    }

    pub open spec fn columns_len(self) -> nat {
        self.columns.len()
    }

    pub open spec fn rows_len(self) -> nat {
        self.rows.len()
    }

    pub open spec fn has_column(self, key: K) -> bool {
        self.columns.contains(key)
    }

    /// The slot index of a column key.
    pub open spec fn slot(self, key: K) -> int {
        self.columns.index_of(key)
    }

    /// Whether `(key, row)` addresses an element.
    pub open spec fn has_cell(self, key: K, row: int) -> bool {
        self.has_column(key) && 0 <= row < self.rows.len()
    }

    /// The element at `(key, row)`.
    pub open spec fn cell(self, key: K, row: int) -> V {
        self.rows[row][self.slot(key)]
    }

    /// The values of the column in the given slot, one per row, in row order.
    pub open spec fn column_at(self, slot: int) -> Seq<V> {
        Seq::new(self.rows.len(), |r: int| self.rows[r][slot])
    }

    /// The values of a column, one per row, in row order.
    pub open spec fn column(self, key: K) -> Seq<V> {
        self.column_at(self.slot(key))
    }

    /// The row at `row`.
    pub open spec fn row(self, row: int) -> RowView<K, V> {
        RowView { columns: self.columns, values: self.rows[row] }
    }

    /// Whether the row is one of the rows of this table.
    pub open spec fn has_row(self, row: RowView<K, V>) -> bool {
        row.columns == self.columns && self.rows.contains(row.values)
    }

    /// The table with the element at `(key, row)` replaced.
    pub open spec fn with_cell(self, key: K, row: int, value: V) -> Self {
        TableView {
            columns: self.columns,
            rows: self.rows.update(row, self.rows[row].update(self.slot(key), value)),
        }
    }

    /// The table with one more row at its end. A table without columns
    /// holds no rows, so it stays as it is.
    pub open spec fn with_row(self, row: Seq<V>) -> Self {
        if self.columns.len() == 0 {
            self
        } else {
            TableView { columns: self.columns, rows: self.rows.push(row) }
        }
    }

    /// The table without the row at `row`; later rows move down by one.
    pub open spec fn without_row(self, row: int) -> Self {
        TableView { columns: self.columns, rows: self.rows.remove(row) }
    }

    /// The table with one more column in the highest slot, `values[r]` being
    /// its value in row `r`.
    pub open spec fn with_column(self, key: K, values: Seq<V>) -> Self {
        TableView {
            columns: self.columns.push(key),
            rows: Seq::new(self.rows.len(), |r: int| self.rows[r].push(values[r])),
        }
    }

    /// The table without the column in the given slot; the columns in higher
    /// slots move down by one. Where it was the only column, no row is left:
    /// a table without columns holds no rows.
    pub open spec fn without_slot(self, slot: int) -> Self {
        TableView {
            columns: self.columns.remove(slot),
            rows: if self.columns.len() <= 1 {
                Seq::empty()
            } else {
                Seq::new(self.rows.len(), |r: int| self.rows[r].remove(slot))
            },
        }
    }

    /// The table without the column of the given key.
    pub open spec fn without_column(self, key: K) -> Self {
        self.without_slot(self.slot(key))
    }
}

/// What a row holds: the column keys by slot index, and the row's values by
/// slot index.
pub struct RowView<K, V> {
    pub columns: Seq<K>,
    pub values: Seq<V>,
}

impl<K, V> RowView<K, V> {
    /// No key occurs twice, and the row has one value per column.
    pub open spec fn wf(self) -> bool {
        &&& self.columns.no_duplicates()
        &&& self.values.len() == self.columns.len()
    }

    pub open spec fn has_column(self, key: K) -> bool {
        self.columns.contains(key)
    }

    /// The slot index of a column key.
    pub open spec fn slot(self, key: K) -> int {
        self.columns.index_of(key)
    }

    /// The value of the row in the column of the given key.
    pub open spec fn value(self, key: K) -> V {
        self.values[self.slot(key)]
    }

    /// The row with the value in the column of the given key replaced.
    pub open spec fn with_value(self, key: K, value: V) -> Self {
        RowView { columns: self.columns, values: self.values.update(self.slot(key), value) }
    }
}

/// What an owned column holds: its key and its values, one per row, in row
/// order.
pub struct ColumnView<K, V> {
    pub key: K,
    pub values: Seq<V>,
}

/// What a sequence of columns makes as a table: column `i` gets slot `i`,
/// and row `r` holds value `r` of each column. The first column gives the
/// number of rows.
pub open spec fn table_of_columns<K, V>(columns: Seq<ColumnView<K, V>>) -> TableView<K, V> {
    TableView {
        columns: Seq::new(columns.len(), |i: int| columns[i].key),
        rows: if columns.len() == 0 {
            Seq::empty()
        } else {
            Seq::new(
                columns[0].values.len(),
                |r: int| Seq::new(columns.len(), |i: int| columns[i].values[r]),
            )
        },
    }
}

/// The slot index that a column has after the column in slot `removed` has
/// left: the slots above it move down by one.
pub open spec fn slot_after_removal(slot: int, removed: int) -> int {
    if slot > removed {
        slot - 1
    } else {
        slot
    }
}

/// The number of complete rows of `width` values each in a buffer of `len`
/// values; none where there are no columns.
pub open spec fn complete_rows(len: nat, width: nat) -> nat {
    if width == 0 {
        0
    } else {
        len / width
    }
}

/// A row-major buffer cut into rows of `width` values each. Values behind
/// the last complete row belong to no row.
pub open spec fn chunks<V>(flat: Seq<V>, width: nat) -> Seq<Seq<V>> {
    Seq::new(
        complete_rows(flat.len(), width),
        |r: int| flat.subrange(r * width, r * width + width),
    )
}

/// The rows of a table laid end to end.
pub open spec fn flatten<V>(rows: Seq<Seq<V>>) -> Seq<V>
    decreases rows.len(),
{
    if rows.len() == 0 {
        Seq::empty()
    } else {
        flatten(rows.drop_last()) + rows.last()
    }
}

/// The place of element `(row, slot)` in a row-major buffer lies inside the
/// buffer.
pub proof fn lemma_cell_in_buffer(rows: int, width: int, row: int, slot: int)
    requires
        0 <= row < rows,
        0 <= slot < width,
    ensures
        0 <= row * width,
        row * width + slot < rows * width,
        row * width + width <= rows * width,
        width * row == row * width,
{
    assert(width * row == row * width) by (nonlinear_arith);
    assert(0 <= row * width) by (nonlinear_arith)
        requires
            0 <= row,
            0 <= width,
    ;
    assert(row * width + width <= rows * width) by (nonlinear_arith)
        requires
            0 <= row < rows,
            0 <= width,
    ;
}

/// A buffer of `rows * width` values holds exactly `rows` complete rows.
pub proof fn lemma_complete_rows_exact(rows: nat, width: nat)
    requires
        width > 0,
    ensures
        complete_rows(rows * width, width) == rows,
        (rows * width) % width == 0,
{
    vstd::arithmetic::div_mod::lemma_div_multiples_vanish(rows as int, width as int);
    vstd::arithmetic::div_mod::lemma_mod_multiples_basic(rows as int, width as int);
    assert(rows * width == width * rows) by (nonlinear_arith);
}

/// A buffer whose length is a multiple of `width` is as long as its complete
/// rows together.
pub proof fn lemma_complete_rows_cover(len: nat, width: nat)
    requires
        width > 0,
        len % width == 0,
    ensures
        complete_rows(len, width) * width == len,
{
    vstd::arithmetic::div_mod::lemma_fundamental_div_mod(len as int, width as int);
    assert(width * (len / width) == (len / width) * width) by (nonlinear_arith);
}

/// The complete rows of a buffer never reach past its end.
pub proof fn lemma_complete_rows_fit(len: nat, width: nat)
    ensures
        complete_rows(len, width) * width <= len,
        width > 0 ==> len - complete_rows(len, width) * width == len % width,
{
    if width > 0 {
        vstd::arithmetic::div_mod::lemma_fundamental_div_mod(len as int, width as int);
        vstd::arithmetic::div_mod::lemma_mod_bound(len as int, width as int);
        assert(width * (len / width) == (len / width) * width) by (nonlinear_arith);
    } else {
        assert(0 * width == 0) by (nonlinear_arith);
    }
}

/// Every row cut from a buffer has `width` values, and element `slot` of row
/// `row` is the buffer's value at `row * width + slot`.
pub proof fn lemma_chunks_index<V>(flat: Seq<V>, width: nat, row: int, slot: int)
    requires
        0 <= row < chunks(flat, width).len(),
        0 <= slot < width,
    ensures
        chunks(flat, width)[row].len() == width,
        0 <= row * width + slot < flat.len(),
        chunks(flat, width)[row][slot] == flat[row * width + slot],
{
    lemma_complete_rows_fit(flat.len(), width);
    lemma_cell_in_buffer(complete_rows(flat.len(), width) as int, width as int, row, slot);
}

/// Every row cut from a buffer has `width` values.
pub proof fn lemma_chunks_row_len<V>(flat: Seq<V>, width: nat)
    ensures
        forall|r: int| 0 <= r < chunks(flat, width).len() ==> (#[trigger] chunks(flat, width)[r]).len() == width,
        width == 0 ==> chunks(flat, width).len() == 0,
{
    assert forall|r: int| 0 <= r < chunks(flat, width).len() implies (#[trigger] chunks(
        flat,
        width,
    )[r]).len() == width by {
        if width > 0 {
            lemma_chunks_index(flat, width, r, 0);
        }
    }
}

/// Two elements of a row-major buffer lie at the same place only if they are
/// the same element.
pub proof fn lemma_cell_place_unique(width: int, row1: int, slot1: int, row2: int, slot2: int)
    requires
        0 <= slot1 < width,
        0 <= slot2 < width,
        row1 * width + slot1 == row2 * width + slot2,
    ensures
        row1 == row2,
        slot1 == slot2,
{
    assert(row1 == row2) by (nonlinear_arith)
        requires
            0 <= slot1 < width,
            0 <= slot2 < width,
            row1 * width + slot1 == row2 * width + slot2,
    ;
}

/// Replacing one value of the buffer replaces that element of its row and
/// nothing else.
pub proof fn lemma_chunks_update<V>(flat: Seq<V>, width: nat, row: int, slot: int, value: V)
    requires
        0 <= row < chunks(flat, width).len(),
        0 <= slot < width,
    ensures
        0 <= row * width + slot < flat.len(),
        chunks(flat.update(row * width + slot, value), width) == chunks(flat, width).update(
            row,
            chunks(flat, width)[row].update(slot, value),
        ),
{
    lemma_chunks_index(flat, width, row, slot);
    let place = row * width + slot;
    let left = chunks(flat.update(place, value), width);
    let right = chunks(flat, width).update(row, chunks(flat, width)[row].update(slot, value));
    assert(left.len() == right.len());
    assert forall|r: int| 0 <= r < left.len() implies #[trigger] left[r] =~= right[r] by {
        lemma_chunks_index(flat, width, r, 0);
        lemma_chunks_index(flat.update(place, value), width, r, 0);
        assert(left[r].len() == width);
        assert(right[r].len() == width);
        assert forall|s: int| 0 <= s < width implies left[r][s] == right[r][s] by {
            lemma_chunks_index(flat, width, r, s);
            lemma_chunks_index(flat.update(place, value), width, r, s);
            if r * width + s == place {
                lemma_cell_place_unique(width as int, r, s, row, slot);
            }
        }
    }
    assert(left =~= right);
}

/// A buffer that holds, at `r * width + s`, element `s` of row `r` of
/// `rows`, and nothing more, is cut into exactly `rows`.
pub proof fn lemma_chunks_from_cells<V>(flat: Seq<V>, width: nat, rows: Seq<Seq<V>>)
    requires
        width > 0,
        flat.len() == rows.len() * width,
        forall|r: int| 0 <= r < rows.len() ==> (#[trigger] rows[r]).len() == width,
        forall|r: int, s: int|
            0 <= r < rows.len() && 0 <= s < width ==> flat[r * width + s] == #[trigger] rows[r][s],
    ensures
        chunks(flat, width) == rows,
{
    lemma_complete_rows_exact(rows.len(), width);
    let cut = chunks(flat, width);
    assert(cut.len() == rows.len());
    assert forall|r: int| 0 <= r < cut.len() implies #[trigger] cut[r] =~= rows[r] by {
        lemma_chunks_index(flat, width, r, 0);
        assert forall|s: int| 0 <= s < width implies cut[r][s] == rows[r][s] by {
            lemma_chunks_index(flat, width, r, s);
        }
    }
    assert(cut =~= rows);
}

/// The keys of a sequence of `(key, value)` pairs, in order.
pub open spec fn pair_keys<K, V>(pairs: Seq<(K, V)>) -> Seq<K> {
    Seq::new(pairs.len(), |i: int| pairs[i].0)
}

/// The pair at `i` is the first one at or behind `from` that has the key.
pub open spec fn first_from<K, V>(pairs: Seq<(K, V)>, key: K, from: int, i: int) -> bool {
    &&& from <= i < pairs.len()
    &&& pairs[i].0 == key
    &&& forall|j: int| from <= j < i ==> (#[trigger] pairs[j]).0 != key
}

/// The value of the first pair that has the key.
pub open spec fn first_value<K, V>(pairs: Seq<(K, V)>, key: K) -> V {
    pairs[choose|i: int| first_from(pairs, key, 0, i)].1
}

/// The values of a row given as `(key, value)` pairs, put in slot order:
/// for each column the value of the first pair with its key.
pub open spec fn row_in_slot_order<K, V>(columns: Seq<K>, pairs: Seq<(K, V)>) -> Seq<V> {
    Seq::new(columns.len(), |s: int| first_value(pairs, columns[s]))
}

/// Some pair has the key.
pub open spec fn has_key<K, V>(pairs: Seq<(K, V)>, key: K) -> bool {
    exists|i: int| 0 <= i < pairs.len() && (#[trigger] pairs[i]).0 == key
}

/// Every pair's key is a column key, and every column key has a pair.
pub open spec fn row_covers<K, V>(columns: Seq<K>, pairs: Seq<(K, V)>) -> bool {
    &&& forall|i: int| 0 <= i < pairs.len() ==> columns.contains((#[trigger] pairs[i]).0)
    &&& forall|s: int| 0 <= s < columns.len() ==> has_key(pairs, #[trigger] columns[s])
}

/// The pairs hold one value for each column: as many pairs as columns, no
/// key that is not a column key, and no column key without a pair.
pub open spec fn row_matches<K, V>(columns: Seq<K>, pairs: Seq<(K, V)>) -> bool {
    &&& pairs.len() == columns.len()
    &&& row_covers(columns, pairs)
}

/// Only one pair is the first with a given key, and `first_value` is its
/// value.
pub proof fn lemma_first_value<K, V>(pairs: Seq<(K, V)>, key: K, i: int)
    requires
        first_from(pairs, key, 0, i),
    ensures
        first_value(pairs, key) == pairs[i].1,
{
    let c = choose|c: int| first_from(pairs, key, 0, c);
    if c < i {
        assert(pairs[c].0 != key);
    }
    if i < c {
        assert(pairs[i].0 != key);
    }
}

/// A whole row put behind a buffer of whole rows is one more row.
pub proof fn lemma_chunks_push<V>(flat: Seq<V>, width: nat, row: Seq<V>)
    requires
        width > 0,
        flat.len() % width == 0,
        row.len() == width,
    ensures
        (flat + row).len() % width == 0,
        chunks(flat + row, width) == chunks(flat, width).push(row),
{
    let had = chunks(flat, width);
    let rows = had.push(row);
    lemma_complete_rows_cover(flat.len(), width);
    lemma_chunks_row_len(flat, width);
    assert(rows.len() * width == had.len() * width + width) by (nonlinear_arith)
        requires
            rows.len() == had.len() + 1,
    ;
    lemma_complete_rows_exact(rows.len(), width);
    assert forall|r: int, s: int| 0 <= r < rows.len() && 0 <= s < width implies (flat + row)[r * width
        + s] == #[trigger] rows[r][s] by {
        lemma_cell_in_buffer(rows.len() as int, width as int, r, s);
        if r < had.len() {
            lemma_chunks_index(flat, width, r, s);
        } else {
            assert(r * width == flat.len());
        }
    }
    lemma_chunks_from_cells(flat + row, width, rows);
}

/// Where no key occurs twice among the pairs, each pair is the first with
/// its key.
pub proof fn lemma_first_value_distinct<K, V>(pairs: Seq<(K, V)>, i: int)
    requires
        pair_keys(pairs).no_duplicates(),
        0 <= i < pairs.len(),
    ensures
        first_value(pairs, pairs[i].0) == pairs[i].1,
{
    assert forall|j: int| 0 <= j < i implies (#[trigger] pairs[j]).0 != pairs[i].0 by {
        assert(pair_keys(pairs)[j] == pairs[j].0);
        assert(pair_keys(pairs)[i] == pairs[i].0);
    }
    lemma_first_value(pairs, pairs[i].0, i);
}

/// What keeps a row given as `(key, value)` pairs from being a row of a
/// table.
#[derive(Debug, Clone, Copy, PartialEq, Eq, Structural)]
pub enum RowFault {
    /// A pair has a key that is no column key.
    UnknownKey,
    /// Every pair has a column key, but a column key has no pair.
    MissingKey,
}

/// The rows can make a table: the first row names no key twice, and every
/// other row names each key of the first row and no other.
pub open spec fn rows_fit<K, V>(rows: Seq<Seq<(K, V)>>) -> bool {
    &&& rows.len() > 0 ==> pair_keys(rows[0]).no_duplicates()
    &&& forall|r: int| 1 <= r < rows.len() ==> row_covers(pair_keys(rows[0]), #[trigger] rows[r])
}

/// What a sequence of rows, each given as `(key, value)` pairs, makes as a
/// table: the first row gives the column keys in its order, and every row
/// gives its values in that order. Rows without pairs make no table rows.
pub open spec fn table_of_rows<K, V>(rows: Seq<Seq<(K, V)>>) -> TableView<K, V> {
    if rows.len() == 0 {
        TableView { columns: Seq::empty(), rows: Seq::empty() }
    } else {
        let columns = pair_keys(rows[0]);
        TableView {
            columns,
            rows: if columns.len() == 0 {
                Seq::empty()
            } else {
                Seq::new(rows.len(), |r: int| row_in_slot_order(columns, rows[r]))
            },
        }
    }
}

/// One more row behind the others lies at the end of the rows laid end to
/// end.
pub proof fn lemma_flatten_push<V>(rows: Seq<Seq<V>>, row: Seq<V>)
    ensures
        flatten(rows.push(row)) == flatten(rows) + row,
{
    assert(rows.push(row).drop_last() =~= rows);
}

/// Cutting a buffer down to its complete rows changes none of its rows.
pub proof fn lemma_chunks_whole_rows<V>(flat: Seq<V>, width: nat)
    ensures
        complete_rows(flat.len(), width) * width <= flat.len(),
        chunks(flat.subrange(0, (complete_rows(flat.len(), width) * width) as int), width) == chunks(flat, width),
        width > 0 ==> (complete_rows(flat.len(), width) * width) % width == 0,
{
    lemma_complete_rows_fit(flat.len(), width);
    let rows = complete_rows(flat.len(), width);
    let kept = flat.subrange(0, (rows * width) as int);
    if width > 0 {
        lemma_complete_rows_exact(rows, width);
        assert forall|r: int| 0 <= r < rows implies #[trigger] chunks(kept, width)[r] =~= chunks(flat, width)[r] by {
            lemma_cell_in_buffer(rows as int, width as int, r, 0);
        }
        assert(chunks(kept, width) =~= chunks(flat, width));
    } else {
        assert(chunks(kept, width) =~= chunks(flat, width));
    }
}

} // verus!
