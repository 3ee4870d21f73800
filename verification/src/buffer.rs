//! The row-major value buffer: putting a column in, taking a column or a
//! row out, with every other value kept in its row and order.

use crate::model::{chunks, lemma_cell_in_buffer, lemma_chunks_from_cells, lemma_chunks_index, lemma_chunks_row_len, lemma_complete_rows_cover};
use vstd::prelude::*;

verus! {

/// `rows * (width + 1)` is `rows * width + rows`, and products grow with
/// their left factor.
pub proof fn lemma_row_products(row: int, rows: int, width: int)
    requires
        0 <= row <= rows,
        0 <= width,
    ensures
        row * (width + 1) == row * width + row,
        row * (width - 1) == row * width - row,
        (row + 1) * width == row * width + width,
        0 <= row * width <= rows * width,
{
    assert(row * (width - 1) == row * width - row) by (nonlinear_arith);
    assert(row * (width + 1) == row * width + row) by (nonlinear_arith);
    assert((row + 1) * width == row * width + width) by (nonlinear_arith);
    assert(0 <= row * width <= rows * width) by (nonlinear_arith)
        requires
            0 <= row <= rows,
            0 <= width,
    ;
}

/// Widens every row of the buffer by one value: `column[r]` becomes the
/// last value of row `r`. The buffer holds `column.len()` rows of `width`
/// values before, and as many rows of `width + 1` values after.
pub fn splice_column<V>(buffer: &mut Vec<V>, width: usize, column: Vec<V>)
    requires
        old(buffer)@.len() == column@.len() * width,
    ensures
        final(buffer)@.len() == column@.len() * (width + 1),
        forall|r: int, s: int|
            #![trigger final(buffer)@[r * (width + 1) + s]]
            0 <= r < column@.len() && 0 <= s <= width ==> final(buffer)@[r * (width + 1) + s] == (if s
                < width {
                old(buffer)@[r * width + s]
            } else {
                column@[r]
            }),
{
    let ghost before = buffer@;
    let ghost values = column@;
    let ghost w = width as int;
    let rows = column.len();
    let mut column = column;
    let mut r: usize = rows;
    while r > 0
        invariant
            r <= rows,
            rows == values.len(),
            w == width,
            before.len() == rows * w,
            column@ == values.subrange(0, r as int),
            buffer@.len() == before.len() + (rows - r),
            forall|j: int| 0 <= j < r * w ==> buffer@[j] == before[j],
            forall|r2: int, s: int|
                #![trigger before[r2 * w + s]]
                r <= r2 < rows && 0 <= s < w ==> buffer@[r2 * w + s + (r2 - r)] == before[r2 * w + s],
            forall|r2: int| r <= r2 < rows ==> buffer@[r2 * w + w + (r2 - r)] == #[trigger] values[r2],
        decreases r,
    {
        let ghost had = buffer@;
        let ghost r0 = r as int;
        let value = column.pop().unwrap();
        r = r - 1;
        proof {
            lemma_row_products(r as int, rows as int, w);
            lemma_row_products(r0, rows as int, w);
            assert(value == values[r as int]);
            assert(column@ =~= values.subrange(0, r as int));
            assert(buffer.len() == buffer@.len());
            assert((r + 1) * width <= rows * width);
        }
        let place = (r + 1) * width;
        buffer.insert(place, value);
        proof {
            assert(place == r0 * w);
            assert forall|j: int| 0 <= j < r * w implies buffer@[j] == before[j] by {
                assert(buffer@[j] == had[j]);
            }
            assert forall|r2: int, s: int|
                #![trigger before[r2 * w + s]]
                r <= r2 < rows && 0 <= s < w implies buffer@[r2 * w + s + (r2 - r)] == before[r2 * w + s] by {
                lemma_row_products(r2, rows as int, w);
                if r2 == r {
                    assert(r2 * w + s < place);
                    assert(buffer@[r2 * w + s] == had[r2 * w + s]);
                } else {
                    lemma_row_products(r0, r2, w);
                    lemma_cell_in_buffer(rows as int, w, r2, s);
                    let at = r2 * w + s + (r2 - r0);
                    assert(place <= at < had.len());
                    assert(buffer@[at + 1] == had[at]);
                }
            }
            assert forall|r2: int| r <= r2 < rows implies buffer@[r2 * w + w + (r2 - r)] == #[trigger] values[r2] by {
                lemma_row_products(r2, rows as int, w);
                if r2 == r {
                    assert(buffer@[place as int] == value);
                } else {
                    lemma_row_products(r0, r2, w);
                    lemma_row_products(r2 + 1, rows as int, w);
                    let at = r2 * w + w + (r2 - r0);
                    assert(place <= at < had.len());
                    assert(buffer@[at + 1] == had[at]);
                }
            }
        }
    }
    proof {
        lemma_row_products(rows as int, rows as int, w);
        assert forall|r2: int, s: int|
            #![trigger buffer@[r2 * (width + 1) + s]]
            0 <= r2 < rows && 0 <= s <= width implies buffer@[r2 * (width + 1) + s] == (if s < width {
            before[r2 * width + s]
        } else {
            values[r2]
        }) by {
            lemma_row_products(r2, rows as int, w);
            if s < width {
                assert(buffer@[r2 * w + s + (r2 - 0)] == before[r2 * w + s]);
            } else {
                assert(buffer@[r2 * w + w + (r2 - 0)] == values[r2]);
            }
        }
    }
}

/// Takes the value in place `slot` out of every row of the buffer. The
/// buffer holds `rows` rows of `width` values before, and as many rows of
/// `width - 1` values after; the values taken come back in row order.
pub fn extract_column<V>(buffer: &mut Vec<V>, rows: usize, width: usize, slot: usize) -> (column: Vec<V>)
    requires
        slot < width,
        old(buffer)@.len() == rows * width,
    ensures
        column@.len() == rows,
        forall|r: int| 0 <= r < rows ==> #[trigger] column@[r] == old(buffer)@[r * width + slot],
        final(buffer)@.len() == rows * (width - 1),
        forall|r: int, s: int|
            #![trigger final(buffer)@[r * (width - 1) + s]]
            0 <= r < rows && 0 <= s < width - 1 ==> final(buffer)@[r * (width - 1) + s] == old(buffer)@[r
                * width + (if s < slot {
                s
            } else {
                s + 1
            })],
{
    let ghost before = buffer@;
    let ghost w = width as int;
    let ghost p = slot as int;
    let mut column: Vec<V> = Vec::with_capacity(rows);
    let mut i: usize = 0;
    assert(buffer.len() == buffer@.len());
    while i < rows
        invariant
            i <= rows,
            before.len() <= usize::MAX,
            w == width,
            p == slot,
            0 <= p < w,
            before.len() == rows * w,
            buffer@.len() == before.len() - i,
            column@.len() == i,
            forall|r: int| 0 <= r < i ==> #[trigger] column@[r] == before[r * w + p],
            forall|r: int, s: int|
                #![trigger before[r * w + s]]
                0 <= r < i && 0 <= s < w && s != p ==> buffer@[r * w + s - r - (if s < p {
                    0int
                } else {
                    1int
                })] == before[r * w + s],
            forall|r: int, s: int|
                #![trigger before[r * w + s]]
                i <= r < rows && 0 <= s < w ==> buffer@[r * w + s - i] == before[r * w + s],
        decreases rows - i,
    {
        let ghost had = buffer@;
        proof {
            lemma_row_products(i as int, rows as int, w);
            lemma_cell_in_buffer(rows as int, w, i as int, p);
            assert(i * (width - 1) == i * w - i);
        }
        let index = i * (width - 1) + slot;
        assert(index == i * w + p - i);
        let value = buffer.remove(index);
        assert(value == before[i * w + p]);
        column.push(value);
        proof {
            assert forall|r: int, s: int|
                #![trigger before[r * w + s]]
                0 <= r < i + 1 && 0 <= s < w && s != p implies buffer@[r * w + s - r - (if s < p {
                0int
            } else {
                1int
            })] == before[r * w + s] by {
                lemma_cell_in_buffer(rows as int, w, r, s);
                if r < i {
                    lemma_row_products(r, i as int, w);
                    lemma_row_products(r + 1, i as int, w);
                    let at = r * w + s - r - (if s < p {
                        0int
                    } else {
                        1int
                    });
                    assert(at <= r * w - r + (w - 2));
                    assert((r + 1) * w - (r + 1) <= i * w - i) by (nonlinear_arith)
                        requires
                            0 <= r + 1 <= i,
                            1 <= w,
                    ;
                    assert(at < index);
                    assert(buffer@[at] == had[at]);
                } else {
                    if s < p {
                        assert(buffer@[r * w + s - r] == had[r * w + s - i]);
                    } else {
                        assert(buffer@[r * w + s - r - 1] == had[r * w + s - i]);
                    }
                }
            }
            assert forall|r: int, s: int|
                #![trigger before[r * w + s]]
                i + 1 <= r < rows && 0 <= s < w implies buffer@[r * w + s - (i + 1)] == before[r * w + s] by {
                lemma_cell_in_buffer(rows as int, w, r, s);
                lemma_row_products(i as int + 1, r, w);
                assert(r * w + s - i > index);
                assert(buffer@[r * w + s - i - 1] == had[r * w + s - i]);
            }
        }
        i = i + 1;
    }
    proof {
        lemma_row_products(rows as int, rows as int, w - 1);
        assert forall|r: int, s: int|
            #![trigger buffer@[r * (width - 1) + s]]
            0 <= r < rows && 0 <= s < width - 1 implies buffer@[r * (width - 1) + s] == before[r * width + (if s
            < slot {
            s
        } else {
            s + 1
        })] by {
            lemma_row_products(r, rows as int, w - 1);
            let s2 = if s < slot {
                s
            } else {
                s + 1
            };
            assert(before[r * w + s2] == buffer@[r * w + s2 - r - (if s2 < p {
                0int
            } else {
                1int
            })]);
        }
    }
    column
}

/// Takes the values in places `start..start + width` out of the buffer:
/// they come back in order, and what lay behind them moves down.
pub fn extract_range<V>(buffer: &mut Vec<V>, start: usize, width: usize) -> (taken: Vec<V>)
    requires
        start + width <= old(buffer)@.len(),
    ensures
        taken@ == old(buffer)@.subrange(start as int, start + width),
        final(buffer)@ == old(buffer)@.subrange(0, start as int) + old(buffer)@.subrange(
            start + width,
            old(buffer)@.len() as int,
        ),
{
    assert(buffer.len() == buffer@.len());
    let mut tail = buffer.split_off(start + width);
    let taken = buffer.split_off(start);
    buffer.append(&mut tail);
    taken
}

/// A buffer of whole rows without the values of one row holds the other
/// rows, in order.
pub proof fn lemma_chunks_remove_row<V>(flat: Seq<V>, width: nat, row: int)
    requires
        width > 0,
        flat.len() % width == 0,
        0 <= row < chunks(flat, width).len(),
    ensures
        0 <= row * width,
        row * width + width <= flat.len(),
        chunks(flat, width)[row] == flat.subrange(row * width, row * width + width),
        chunks(
            flat.subrange(0, row * width) + flat.subrange(row * width + width, flat.len() as int),
            width,
        ) == chunks(flat, width).remove(row),
{
    let had = chunks(flat, width);
    let rows = had.remove(row);
    lemma_complete_rows_cover(flat.len(), width);
    lemma_chunks_row_len(flat, width);
    lemma_cell_in_buffer(had.len() as int, width as int, row, 0);
    let rest = flat.subrange(0, row * width) + flat.subrange(row * width + width, flat.len() as int);
    assert(rows.len() * width == had.len() * width - width) by (nonlinear_arith)
        requires
            rows.len() == had.len() - 1,
    ;
    assert forall|r: int, s: int| 0 <= r < rows.len() && 0 <= s < width implies rest[r * width + s]
        == #[trigger] rows[r][s] by {
        lemma_cell_in_buffer(rows.len() as int, width as int, r, s);
        let w = width as int;
        let head = flat.subrange(0, row * w);
        let tail = flat.subrange(row * w + w, flat.len() as int);
        if r < row {
            lemma_row_products(r, row, w);
            lemma_row_products(r + 1, row, w);
            lemma_chunks_index(flat, width, r, s);
            assert(r * w + s < head.len());
            assert(rest[r * w + s] == head[r * w + s]);
            assert(rows[r] == had[r]);
        } else {
            lemma_row_products(row, r, w);
            lemma_row_products(r, had.len() as int, w);
            lemma_row_products(r + 1, had.len() as int, w);
            lemma_chunks_index(flat, width, r + 1, s);
            assert(r * w + s >= head.len());
            assert(rest[r * w + s] == tail[r * w + s - head.len()]);
            assert(rows[r] == had[r + 1]);
        }
    }
    lemma_chunks_from_cells(rest, width, rows);
}

/// A buffer of whole rows with the values of one row replaced holds that
/// row in place of the old one, and the other rows as they were.
pub proof fn lemma_chunks_replace_row<V>(flat: Seq<V>, width: nat, row: int, values: Seq<V>)
    requires
        width > 0,
        flat.len() % width == 0,
        0 <= row < chunks(flat, width).len(),
        values.len() == width,
    ensures
        0 <= row * width,
        row * width + width <= flat.len(),
        chunks(
            flat.subrange(0, row * width) + values + flat.subrange(row * width + width, flat.len() as int),
            width,
        ) == chunks(flat, width).update(row, values),
{
    let had = chunks(flat, width);
    let rows = had.update(row, values);
    let w = width as int;
    lemma_complete_rows_cover(flat.len(), width);
    lemma_chunks_row_len(flat, width);
    lemma_cell_in_buffer(had.len() as int, w, row, 0);
    let head = flat.subrange(0, row * w);
    let tail = flat.subrange(row * w + w, flat.len() as int);
    let next = head + values + tail;
    assert forall|r: int, s: int| 0 <= r < rows.len() && 0 <= s < width implies next[r * width + s]
        == #[trigger] rows[r][s] by {
        lemma_cell_in_buffer(rows.len() as int, w, r, s);
        lemma_chunks_index(flat, width, r, s);
        if r < row {
            lemma_row_products(r, row, w);
            lemma_row_products(r + 1, row, w);
            assert(next[r * w + s] == head[r * w + s]);
        } else if r == row {
            assert(next[r * w + s] == values[s]);
        } else {
            lemma_row_products(row, r, w);
            lemma_row_products(row + 1, r, w);
            assert(next[r * w + s] == tail[r * w + s - row * w - w]);
        }
    }
    lemma_chunks_from_cells(next, width, rows);
}

} // verus!
