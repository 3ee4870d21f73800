//! Laws that relate the operations of a table to each other, stated over
//! the model that the operations' contracts use.

use crate::model::TableView;
use vstd::prelude::*;

verus! {

/// An element that was written is the element that is read: the table with
/// the element at `(key, row)` replaced by `value` has the same cells as
/// before, holds `value` at `(key, row)`, and holds at every other place
/// what it held before.
pub proof fn lemma_write_then_read<K, V>(table: TableView<K, V>, key: K, row: int, value: V)
    requires
        table.wf(),
        table.has_cell(key, row),
    ensures
        table.with_cell(key, row, value).wf(),
        table.with_cell(key, row, value).columns == table.columns,
        table.with_cell(key, row, value).has_cell(key, row),
        table.with_cell(key, row, value).cell(key, row) == value,
        forall|k: K, r: int|
            table.has_cell(k, r) && (k != key || r != row) ==> #[trigger] table.with_cell(key, row, value).cell(k, r)
                == table.cell(k, r),
{
    let written = table.with_cell(key, row, value);
    assert(table.rows[row].len() == table.columns.len());
    assert forall|r: int| 0 <= r < written.rows.len() implies (#[trigger] written.rows[r]).len()
        == written.columns.len() by {
        assert(table.rows[r].len() == table.columns.len());
    }
    assert forall|k: K, r: int| table.has_cell(k, r) && (k != key || r != row) implies #[trigger] written.cell(k, r)
        == table.cell(k, r) by {
        assert(table.rows[r].len() == table.columns.len());
        if r == row {
            assert(table.columns[table.slot(k)] == k);
            assert(table.columns[table.slot(key)] == key);
        }
    }
}

/// A column that is removed and inserted again with the values it had
/// gives the table its elements back: the same `(key, row)` pairs address
/// an element, and each addresses the element it did before. The column
/// comes back in the highest slot, so slot indices and column order may
/// differ.
///
/// A table without columns holds no rows: where the column is the only one
/// of a table with rows, the rows are gone with it, so the law speaks of
/// tables with another column or without rows.
pub proof fn lemma_remove_then_insert_column<K, V>(table: TableView<K, V>, key: K)
    requires
        table.wf(),
        table.has_column(key),
        table.columns_len() > 1 || table.rows_len() == 0,
    ensures
        table.without_column(key).with_column(key, table.column(key)).wf(),
        forall|k: K, r: int|
            table.has_cell(k, r) <==> #[trigger] table.without_column(key).with_column(
                key,
                table.column(key),
            ).has_cell(k, r),
        forall|k: K, r: int|
            table.has_cell(k, r) ==> #[trigger] table.without_column(key).with_column(key, table.column(key)).cell(
                k,
                r,
            ) == table.cell(k, r),
{
    let slot = table.slot(key);
    let gone = table.without_column(key);
    let values = table.column(key);
    let back = gone.with_column(key, values);
    assert(table.columns[slot] == key);
    assert forall|r: int| 0 <= r < table.rows.len() implies (#[trigger] table.rows[r]).len() == table.columns.len() by {}
    // The columns of `back` are those of the table, with `key` moved to the end.
    assert forall|i: int| 0 <= i < gone.columns.len() implies #[trigger] gone.columns[i] == table.columns[if i
        < slot {
        i
    } else {
        i + 1
    }] by {}
    assert forall|i: int, j: int| 0 <= i < back.columns.len() && 0 <= j < back.columns.len() && i != j implies back.columns[i]
        != back.columns[j] by {
        let from = |p: int|
            if p == back.columns.len() - 1 {
                slot
            } else if p < slot {
                p
            } else {
                p + 1
            };
        assert(back.columns[i] == table.columns[from(i)]);
        assert(back.columns[j] == table.columns[from(j)]);
        assert(from(i) != from(j));
    }
    assert(back.rows.len() == table.rows.len());
    assert forall|r: int| 0 <= r < back.rows.len() implies (#[trigger] back.rows[r]).len() == back.columns.len() by {
        assert(table.rows[r].len() == table.columns.len());
    }
    assert forall|k: K| table.has_column(k) <==> back.has_column(k) by {
        if table.has_column(k) {
            let p = table.slot(k);
            assert(table.columns[p] == k);
            if p == slot {
                assert(back.columns[back.columns.len() - 1] == k);
            } else if p < slot {
                assert(back.columns[p] == k);
            } else {
                assert(back.columns[p - 1] == k);
            }
        }
        if back.has_column(k) {
            let p = back.slot(k);
            assert(back.columns[p] == k);
            if p == back.columns.len() - 1 {
                assert(table.columns[slot] == k);
            } else if p < slot {
                assert(table.columns[p] == k);
            } else {
                assert(table.columns[p + 1] == k);
            }
        }
    }
    assert forall|k: K, r: int| table.has_cell(k, r) <==> #[trigger] back.has_cell(k, r) by {
        assert(table.has_column(k) <==> back.has_column(k));
    }
    assert forall|k: K, r: int| table.has_cell(k, r) implies #[trigger] back.cell(k, r) == table.cell(k, r) by {
        assert(table.has_column(k) <==> back.has_column(k));
        assert(table.rows[r].len() == table.columns.len());
        let p = table.slot(k);
        let q = back.slot(k);
        assert(table.columns[p] == k);
        assert(back.columns[q] == k);
        if q == back.columns.len() - 1 {
            assert(k == key);
            assert(p == slot);
            assert(back.rows[r][q] == values[r]);
        } else {
            let from = if q < slot {
                q
            } else {
                q + 1
            };
            assert(table.columns[from] == k);
            assert(p == from);
            assert(back.rows[r][q] == gone.rows[r][q]);
        }
    }
}

/// Every column of a well-formed table holds one value for each row.
pub proof fn lemma_column_len<K, V>(table: TableView<K, V>, key: K)
    ensures
        table.column(key).len() == table.rows_len(),
{
}

} // verus!
