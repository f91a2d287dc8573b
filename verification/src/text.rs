//! The board as text: one line per row, `Q` for a queen and `_` for an empty
//! square, each followed by a space, and an empty line after the last row.

use vstd::prelude::*;
use crate::board::QueenBoard;
use crate::cell::CellState;
use crate::grid::{is_square, Grid};

verus! {

/// The character that stands for a cell.
pub open spec fn token(cell: CellState) -> char {
    if cell == CellState::Queen {
        'Q'
    } else {
        '_'
    }
}

/// The text of the first `k` cells of a row.
pub open spec fn row_text(row: Seq<CellState>, k: int) -> Seq<char>
    decreases k,
{
    if k <= 0 {
        Seq::empty()
    } else {
        row_text(row, k - 1).push(token(row[k - 1])).push(' ')
    }
}

/// The lines of the first `k` rows of a grid.
pub open spec fn rows_text(g: Grid, k: int) -> Seq<char>
    decreases k,
{
    if k <= 0 {
        Seq::empty()
    } else {
        rows_text(g, k - 1) + row_text(g[k - 1], g[k - 1].len() as int).push('\n')
    }
}

/// The text of a whole grid: its lines and an empty line.
pub open spec fn board_text(g: Grid) -> Seq<char> {
    rows_text(g, g.len() as int).push('\n')
}

impl QueenBoard {
    /// The board as text.
    pub fn render(&self) -> (text: Vec<char>)
        requires
            is_square(self@),
        ensures
            text@ == board_text(self@),
    {
        let n = self.size();
        let mut text: Vec<char> = Vec::new();
        let mut r: usize = 0;
        while r < n
            invariant
                r <= n,
                n == self@.len(),
                is_square(self@),
                text@ == rows_text(self@, r as int),
            decreases n - r,
        {
            let ghost base = text@;
            let mut c: usize = 0;
            assert(text@ =~= base + row_text(self@[r as int], 0));
            while c < n
                invariant
                    c <= n,
                    r < n,
                    n == self@.len(),
                    is_square(self@),
                    text@ == base + row_text(self@[r as int], c as int),
                decreases n - c,
            {
                if self.cell(r, c).is_queen() {
                    text.push('Q');
                } else {
                    text.push('_');
                }
                text.push(' ');
                c += 1;
                assert(text@ =~= base + row_text(self@[r as int], c as int));
            }
            text.push('\n');
            r += 1;
            assert(text@ =~= rows_text(self@, r as int));
        }
        text.push('\n');
        text
    }
}

} // verus!
