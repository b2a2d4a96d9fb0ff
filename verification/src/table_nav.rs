//! Keyboard navigation between table cells, as (row, column) index pairs.
use vstd::prelude::*;

verus! {

/// The cell reached by moving right, wrapping to the next row at the row edge.
pub open spec fn spec_next(row: int, col: int, num_rows: int, num_cols: int) -> Option<(int, int)> {
    if col + 1 < num_cols {
        Some((row, col + 1))
    } else if row + 1 < num_rows {
        Some((row + 1, 0))
    } else {
        None
    }
}

/// The cell reached by moving left, wrapping to the last column of the previous row.
pub open spec fn spec_prev(row: int, col: int, num_cols: int) -> Option<(int, int)> {
    if col > 0 {
        Some((row, col - 1))
    } else if row > 0 {
        Some((row - 1, if num_cols > 0 { num_cols - 1 } else { 0 }))
    } else {
        None
    }
}

pub open spec fn as_int_pair(p: Option<(usize, usize)>) -> Option<(int, int)> {
    match p {
        Some((a, b)) => Some((a as int, b as int)),
        None => None,
    }
}

/// Move right; wrap to the first column of the next row at the row edge.
pub fn table_cell_next(row: usize, col: usize, num_rows: usize, num_cols: usize) -> (r: Option<
    (usize, usize),
>)
    requires
        col + 1 <= usize::MAX,
        col + 1 >= num_cols ==> row + 1 <= usize::MAX,
    ensures
        as_int_pair(r) == spec_next(row as int, col as int, num_rows as int, num_cols as int),
{
    if col + 1 < num_cols {
        Some((row, col + 1))
    } else if row + 1 < num_rows {
        Some((row + 1, 0))
    } else {
        None
    }
}

/// Move left; wrap to the last column of the previous row at the row start.
pub fn table_cell_prev(row: usize, col: usize, num_cols: usize) -> (r: Option<(usize, usize)>)
    ensures
        as_int_pair(r) == spec_prev(row as int, col as int, num_cols as int),
{
    if col > 0 {
        Some((row, col - 1))
    } else if row > 0 {
        Some((row - 1, num_cols.saturating_sub(1)))
    } else {
        None
    }
}

/// Move down one row in the same column; `None` at the last row.
pub fn table_cell_down(row: usize, col: usize, num_rows: usize) -> (r: Option<(usize, usize)>)
    requires
        row + 1 <= usize::MAX,
    ensures
        r == (if row + 1 < num_rows {
            Some(((row + 1) as usize, col))
        } else {
            None::<(usize, usize)>
        }),
{
    if row + 1 < num_rows {
        Some((row + 1, col))
    } else {
        None
    }
}

/// Move up one row in the same column; `None` at the first row.
pub fn table_cell_up(row: usize, col: usize) -> (r: Option<(usize, usize)>)
    ensures
        r == (if row > 0 {
            Some(((row - 1) as usize, col))
        } else {
            None::<(usize, usize)>
        }),
{
    if row > 0 {
        Some((row - 1, col))
    } else {
        None
    }
}

/// `v.clamp(lo, hi)` for `lo <= hi`.
pub open spec fn clamp_int(v: int, lo: int, hi: int) -> int {
    if v < lo {
        lo
    } else if v > hi {
        hi
    } else {
        v
    }
}

/// One coordinate of an arrow-key move: unchanged for a zero delta, else
/// `pos + delta` clamped to `[0, count - 1]`, computed in `i32` as the
/// widget does (`pos as i32`, `count as i32`).
pub open spec fn arrow_axis(pos: usize, count: usize, delta: i32) -> usize {
    if delta == 0 {
        pos
    } else {
        clamp_int((pos as i32) + delta, 0, (count as i32) - 1) as usize
    }
}

/// Inputs on which the `i32` arithmetic of one axis neither overflows nor
/// hands `clamp` an empty range.
pub open spec fn arrow_axis_ok(pos: usize, count: usize, delta: i32) -> bool {
    delta != 0 ==> {
        &&& i32::MIN <= (pos as i32) + delta <= i32::MAX
        &&& (count as i32) >= 1
    }
}

pub open spec fn max1(n: usize) -> usize {
    if n >= 1 {
        n
    } else {
        1
    }
}

fn arrow_axis_exec(pos: usize, count: usize, delta: i32) -> (r: usize)
    requires
        arrow_axis_ok(pos, count, delta),
    ensures
        r == arrow_axis(pos, count, delta),
{
    if delta == 0 {
        return pos;
    }
    #[verifier::truncate]
    let p = pos as i32;
    #[verifier::truncate]
    let c = count as i32;
    let v = p + delta;
    let hi = c - 1;
    let clamped = if v < 0 {
        0
    } else if v > hi {
        hi
    } else {
        v
    };
    clamped as usize
}

/// Arrow-key delta navigation; clamps at table boundaries (no wrap).
pub fn table_cell_arrow(
    row: usize,
    col: usize,
    num_rows: usize,
    num_cols: usize,
    dr: i32,
    dc: i32,
) -> (r: (usize, usize))
    requires
        arrow_axis_ok(row, max1(num_rows), dr),
        arrow_axis_ok(col, max1(num_cols), dc),
    ensures
        r == (arrow_axis(row, max1(num_rows), dr), arrow_axis(col, max1(num_cols), dc)),
{
    let col_count = if num_cols >= 1 {
        num_cols
    } else {
        1
    };
    let row_count = if num_rows >= 1 {
        num_rows
    } else {
        1
    };
    let r = arrow_axis_exec(row, row_count, dr);
    let c = arrow_axis_exec(col, col_count, dc);
    (r, c)
}

/// Moving right and then left returns to the starting cell.
pub proof fn law_prev_undoes_next(row: int, col: int, num_rows: int, num_cols: int)
    requires
        0 <= row < num_rows,
        0 <= col < num_cols,
    ensures
        spec_next(row, col, num_rows, num_cols) matches Some((r2, c2)) ==> spec_prev(
            r2,
            c2,
            num_cols,
        ) == Some((row, col)),
{
}

/// Moving left and then right returns to the starting cell.
pub proof fn law_next_undoes_prev(row: int, col: int, num_rows: int, num_cols: int)
    requires
        0 <= row < num_rows,
        0 <= col < num_cols,
    ensures
        spec_prev(row, col, num_cols) matches Some((r2, c2)) ==> spec_next(
            r2,
            c2,
            num_rows,
            num_cols,
        ) == Some((row, col)),
{
}

/// Every move stays inside the table.
pub proof fn law_moves_stay_in_table(row: int, col: int, num_rows: int, num_cols: int)
    requires
        0 <= row < num_rows,
        0 <= col < num_cols,
    ensures
        spec_next(row, col, num_rows, num_cols) matches Some((r2, c2)) ==> 0 <= r2 < num_rows
            && 0 <= c2 < num_cols,
        spec_prev(row, col, num_cols) matches Some((r2, c2)) ==> 0 <= r2 < num_rows && 0 <= c2
            < num_cols,
{
}

/// An arrow move inside a table that fits `i32` never leaves the table.
pub proof fn law_arrow_stays_in_table(pos: usize, count: usize, delta: i32)
    requires
        1 <= count <= i32::MAX,
        pos < count,
        i32::MIN <= pos + delta <= i32::MAX,
    ensures
        arrow_axis_ok(pos, count, delta),
        arrow_axis(pos, count, delta) < count,
{
    assert((pos as i32) as int == pos as int);
    assert((count as i32) as int == count as int);
}

} // verus!
