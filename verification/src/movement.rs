//! The arithmetic behind caret moves in a text input: where a move lands,
//! which way it scrolls, and the column a vertical move tries to keep.
use std::ops::Range;
use vstd::prelude::*;

verus! {

/// Which way a caret move scrolls the view.
#[derive(Clone, Copy, Debug, PartialEq, Eq, Structural)]
pub enum MoveDirection {
    Up,
    Down,
}

/// `x` clamped to `lo..=hi`.
pub open spec fn clamp_to(x: int, lo: int, hi: int) -> int {
    if x < lo {
        lo
    } else if x > hi {
        hi
    } else {
        x
    }
}

/// The display row a move of `move_lines` rows from `current` lands on:
/// saturating at 0 and `usize::MAX`, then no further than the last row.
pub open spec fn target_row(current: int, move_lines: int, row_count: int) -> int {
    let last = if row_count == 0 {
        0
    } else {
        row_count - 1
    };
    let moved = clamp_to(current + move_lines, 0, usize::MAX as int);
    if moved < last {
        moved
    } else {
        last
    }
}

/// Where a vertical move of `move_lines` display rows from row `current`
/// lands among `row_count` rows, and which way it scrolls: up for a negative
/// count, down otherwise.
pub fn plan_vertical_move(current: usize, move_lines: isize, row_count: usize) -> (r: (
    usize,
    MoveDirection,
))
    ensures
        r.0 == target_row(current as int, move_lines as int, row_count as int),
        r.1 == if move_lines < 0 {
            MoveDirection::Up
        } else {
            MoveDirection::Down
        },
{
    let moved: usize = if move_lines < 0 {
        let back: i128 = -(move_lines as i128);
        if (current as i128) < back {
            0
        } else {
            current - (back as usize)
        }
    } else {
        let ahead = move_lines as usize;
        if current > usize::MAX - ahead {
            usize::MAX
        } else {
            current + ahead
        }
    };
    let last: usize = if row_count == 0 {
        0
    } else {
        row_count - 1
    };
    let row = if moved < last {
        moved
    } else {
        last
    };
    let direction = if move_lines < 0 {
        MoveDirection::Up
    } else {
        MoveDirection::Down
    };
    (row, direction)
}

/// A caret offset kept inside a text of `len` bytes.
pub fn clamp_offset(offset: usize, len: usize) -> (r: usize)
    ensures
        r == clamp_to(offset as int, 0, len as int),
{
    if offset > len {
        len
    } else {
        offset
    }
}

/// How far the caret's display offset lies past the start of its display
/// line (0 when it lies before it): the column a vertical move tries to keep.
pub fn preferred_display_column(display_offset: usize, display_line_start: usize) -> (r: usize)
    ensures
        r == if display_offset >= display_line_start {
            display_offset - display_line_start
        } else {
            0
        },
{
    if display_offset >= display_line_start {
        display_offset - display_line_start
    } else {
        0
    }
}

/// The display offset a vertical move lands on when the target line is not
/// laid out: the kept `column`, but no further than the line's length.
pub fn column_display_offset(display_line_start: usize, column: usize, line_len: usize) -> (r: usize)
    requires
        display_line_start + (if column < line_len {
            column
        } else {
            line_len
        }) <= usize::MAX,
    ensures
        r == display_line_start + (if column < line_len {
            column
        } else {
            line_len
        }),
{
    let within = if column < line_len {
        column
    } else {
        line_len
    };
    display_line_start + within
}

/// Where a horizontal caret move lands: at `boundary` (the next grapheme
/// boundary in the move's direction) when nothing is selected, otherwise at
/// the selection's start (moving left) or end (moving right).
pub fn horizontal_target(selected: &Range<usize>, boundary: usize, leftward: bool) -> (r: usize)
    ensures
        r == if selected.start == selected.end {
            boundary
        } else if leftward {
            selected.start
        } else {
            selected.end
        },
{
    if selected.start == selected.end {
        boundary
    } else if leftward {
        selected.start
    } else {
        selected.end
    }
}

/// The offset from which a vertical move with a selection first steps to a
/// boundary: one byte inside the selection's start (moving up) or end
/// (moving down), never below 0.
pub fn selection_anchor(selected: &Range<usize>, upward: bool) -> (r: usize)
    ensures
        r == if upward {
            if selected.start > 0 {
                selected.start - 1
            } else {
                0
            }
        } else {
            if selected.end > 0 {
                selected.end - 1
            } else {
                0
            }
        },
{
    let edge = if upward {
        selected.start
    } else {
        selected.end
    };
    if edge > 0 {
        edge - 1
    } else {
        0
    }
}

} // verus!
