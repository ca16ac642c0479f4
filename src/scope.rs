//! The character grid of the magnitude plot that a unit's diagnostic dump
//! shows: one column per probed frequency, one row per 5 dB.

use vstd::prelude::*;

verus! {

/// Number of rows of the plot.
pub const SCOPE_ROWS: usize = 13;

/// Number of columns of the plot, one per probed frequency.
pub const SCOPE_COLUMNS: usize = 48;

/// `-`, the rule drawn on even rows.
pub const RULE: u8 = 45;

/// A blank cell.
pub const BLANK: u8 = 32;

/// `*`, a full cell of a bar.
pub const FULL_MARK: u8 = 42;

/// `.`, the top cell of a bar that reaches only the lower half of its row.
pub const HALF_MARK: u8 = 46;

/// The empty plot: a rule on even rows, blank on odd rows.
pub open spec fn background(row: int) -> u8 {
    if row % 2 == 0 {
        RULE
    } else {
        BLANK
    }
}

/// Character at `row` of a column whose bar starts at row `top`. The top cell
/// is `*` when `full` holds and `.` otherwise; every cell below it is `*`.
pub open spec fn bar_cell(row: int, top: int, full: bool) -> u8 {
    if row < top {
        background(row)
    } else if row == top && !full {
        HALF_MARK
    } else {
        FULL_MARK
    }
}

/// Draw the plot: column `i` holds the bar `bars[i]`, given as the row where
/// it starts and whether its top cell is full. Columns without a bar stay
/// empty.
pub fn render_scope(bars: &Vec<(usize, bool)>) -> (r: Vec<Vec<u8>>)
    requires
        bars@.len() <= SCOPE_COLUMNS,
    ensures
        r@.len() == SCOPE_ROWS,
        forall|row: int| 0 <= row < SCOPE_ROWS ==> (#[trigger] r@[row])@.len() == SCOPE_COLUMNS,
        forall|row: int, col: int|
            0 <= row < SCOPE_ROWS && 0 <= col < SCOPE_COLUMNS ==> #[trigger] r@[row]@[col] == if col
                < bars@.len() {
                bar_cell(row, bars@[col].0 as int, bars@[col].1)
            } else {
                background(row)
            },
{
    let mut grid: Vec<Vec<u8>> = Vec::new();
    let mut row: usize = 0;
    while row < SCOPE_ROWS
        invariant
            row <= SCOPE_ROWS,
            bars@.len() <= SCOPE_COLUMNS,
            grid@.len() == row,
            forall|k: int| 0 <= k < row ==> (#[trigger] grid@[k])@.len() == SCOPE_COLUMNS,
            forall|k: int, col: int|
                0 <= k < row && 0 <= col < SCOPE_COLUMNS ==> #[trigger] grid@[k]@[col] == if col
                    < bars@.len() {
                    bar_cell(k, bars@[col].0 as int, bars@[col].1)
                } else {
                    background(k)
                },
        decreases SCOPE_ROWS - row,
    {
        let blank: u8 = if row % 2 == 0 {
            RULE
        } else {
            BLANK
        };
        let mut line: Vec<u8> = Vec::new();
        let mut col: usize = 0;
        while col < SCOPE_COLUMNS
            invariant
                row < SCOPE_ROWS,
                col <= SCOPE_COLUMNS,
                bars@.len() <= SCOPE_COLUMNS,
                blank == background(row as int),
                line@.len() == col,
                forall|c: int|
                    0 <= c < col ==> #[trigger] line@[c] == if c < bars@.len() {
                        bar_cell(row as int, bars@[c].0 as int, bars@[c].1)
                    } else {
                        background(row as int)
                    },
            decreases SCOPE_COLUMNS - col,
        {
            let cell: u8 = if col < bars.len() {
                let (top, full) = bars[col];
                if row < top {
                    blank
                } else if row == top && !full {
                    HALF_MARK
                } else {
                    FULL_MARK
                }
            } else {
                blank
            };
            line.push(cell);
            col += 1;
        }
        grid.push(line);
        row += 1;
    }
    grid
}

} // verus!
