//! The grid of 81 cells and the rules that relate them.
//!
//! Cells are kept in row-major order: the cell in column `x` and row `y`
//! stands at position `x + 9 * y`.

use vstd::prelude::*;

verus! {

/// Why an attempt to load or solve a puzzle ended without a solved grid.
#[derive(Debug, Clone, Copy, PartialEq, Eq, Structural)]
pub enum SudokuError {
    /// The puzzle text does not hold exactly 81 cells.
    Malformed,
    /// A cell has no candidate left.
    Contradiction,
    /// Every branch of the search was tried and none completes the grid.
    Unsolvable,
}

/// The position of the cell in column `x` and row `y`.
pub open spec fn cell_index(x: int, y: int) -> int {
    x + 9 * y
}

pub open spec fn in_grid(p: int) -> bool {
    0 <= p < 81
}

pub open spec fn same_row(p: int, q: int) -> bool {
    p / 9 == q / 9
}

pub open spec fn same_column(p: int, q: int) -> bool {
    p % 9 == q % 9
}

pub open spec fn same_block(p: int, q: int) -> bool {
    (p / 9) / 3 == (q / 9) / 3 && (p % 9) / 3 == (q % 9) / 3
}

/// Two different cells that share a row, a column or a 3×3 block.
pub open spec fn peers(p: int, q: int) -> bool {
    in_grid(p) && in_grid(q) && p != q && (same_row(p, q) || same_column(p, q) || same_block(p, q))
}

pub open spec fn is_digit(v: int) -> bool {
    1 <= v <= 9
}

/// 81 cells, each empty or holding a digit from 1 to 9.
pub open spec fn valid_cells(c: Seq<Option<u8>>) -> bool {
    c.len() == 81 && forall|p: int|
        0 <= p < 81 ==> (#[trigger] c[p] matches Some(v) ==> is_digit(v as int))
}

/// No peer of cell `p` holds the digit `v`.
pub open spec fn free_for(c: Seq<Option<u8>>, p: int, v: u8) -> bool {
    forall|q: int| peers(p, q) ==> #[trigger] c[q] != Some(v)
}

/// No two peers hold the same digit.
pub open spec fn consistent(c: Seq<Option<u8>>) -> bool {
    forall|p: int, q: int| peers(p, q) && c[p].is_some() ==> #[trigger] c[p] != #[trigger] c[q]
}

/// Every cell holds a digit.
pub open spec fn complete(c: Seq<Option<u8>>) -> bool {
    forall|p: int| 0 <= p < 81 ==> (#[trigger] c[p]).is_some()
}

/// `s` keeps every digit that `c` holds.
pub open spec fn extends(s: Seq<Option<u8>>, c: Seq<Option<u8>>) -> bool {
    forall|p: int| 0 <= p < 81 && c[p].is_some() ==> #[trigger] s[p] == c[p]
}

/// A full grid without conflicts.
pub open spec fn solved(s: Seq<Option<u8>>) -> bool {
    valid_cells(s) && complete(s) && consistent(s)
}

/// `s` is a solved grid that keeps the digits of `c`.
pub open spec fn solution_of(s: Seq<Option<u8>>, c: Seq<Option<u8>>) -> bool {
    solved(s) && extends(s, c)
}

/// The nine digits, each of 1 to 9 once.
pub open spec fn digit_order(h: Seq<u8>) -> bool {
    &&& h.len() == 9
    &&& forall|i: int| 0 <= i < 9 ==> is_digit(#[trigger] h[i] as int)
    &&& forall|i: int, j: int| 0 <= i < j < 9 ==> #[trigger] h[i] != #[trigger] h[j]
    &&& forall|d: u8| is_digit(d as int) ==> exists|i: int| 0 <= i < 9 && #[trigger] h[i] == d
}

/// A Sudoku grid together with the order in which the search tries digits.
#[derive(Debug)]
pub struct Sudoku {
    pub cells: Vec<Option<u8>>,
    pub hints: Vec<u8>,
}

impl View for Sudoku {
    type V = Seq<Option<u8>>;

    open spec fn view(&self) -> Seq<Option<u8>> {
        self.cells@
    }
}

impl Default for Sudoku {
    /// The empty grid, with the digits tried in ascending order.
    fn default() -> (s: Sudoku)
        ensures
            s.wf(),
            forall|p: int| 0 <= p < 81 ==> s@[p].is_none(),
            s.hints@ == seq![1u8, 2u8, 3u8, 4u8, 5u8, 6u8, 7u8, 8u8, 9u8],
    {
        let mut cells: Vec<Option<u8>> = Vec::new();
        let mut i: usize = 0;
        while i < 81
            invariant
                i <= 81,
                cells@.len() == i,
                forall|p: int| 0 <= p < i ==> cells@[p].is_none(),
            decreases 81 - i,
        {
            cells.push(None);
            i += 1;
        }
        let hints: Vec<u8> = vec![1u8, 2u8, 3u8, 4u8, 5u8, 6u8, 7u8, 8u8, 9u8];
        proof {
            assert forall|d: u8| is_digit(d as int) implies exists|i: int|
                0 <= i < 9 && #[trigger] hints@[i] == d by {
                assert(hints@[d as int - 1] == d);
            }
        }
        Sudoku { cells, hints }
    }
}

impl Sudoku {
    /// The grid has 81 valid cells and the trial order names every digit.
    pub open spec fn wf(&self) -> bool {
        valid_cells(self.cells@) && digit_order(self.hints@)
    }

    /// Position of the cell in column `x`, row `y`.
    pub fn index(&self, x: u8, y: u8) -> (i: usize)
        requires
            x < 9,
            y < 9,
        ensures
            i == cell_index(x as int, y as int),
            i < 81,
    {
        (x + y * 9) as usize
    }

    /// The digit held by the cell in column `x`, row `y`, if any.
    pub fn get(&self, x: u8, y: u8) -> (v: Option<u8>)
        requires
            self.wf(),
            x < 9,
            y < 9,
        ensures
            v == self@[cell_index(x as int, y as int)],
    {
        let i = self.index(x, y);
        self.cells[i]
    }

    /// Writes `value` into the cell in column `x`, row `y`; `None` empties it.
    pub fn set(&mut self, x: u8, y: u8, value: Option<u8>)
        requires
            old(self).wf(),
            x < 9,
            y < 9,
            value matches Some(v) ==> is_digit(v as int),
        ensures
            final(self).wf(),
            final(self)@ == old(self)@.update(cell_index(x as int, y as int), value),
            final(self).hints == old(self).hints,
    {
        let i = self.index(x, y);
        self.cells.set(i, value);
    }

    /// Whether `value` may stand in column `x`, row `y`: no other cell of
    /// that row, column or block holds it.
    pub fn possible(&self, x: u8, y: u8, value: u8) -> (ok: bool)
        requires
            self.wf(),
            x < 9,
            y < 9,
        ensures
            ok == free_for(self@, cell_index(x as int, y as int), value),
    {
        let ghost p = cell_index(x as int, y as int);
        let ghost c = self@;
        // The row.
        let mut i: u8 = 0;
        while i < 9
            invariant
                i <= 9,
                x < 9,
                y < 9,
                self.wf(),
                c == self@,
                p == cell_index(x as int, y as int),
                forall|q: int| peers(p, q) && same_row(p, q) && q % 9 < i ==> #[trigger] c[q] != Some(value),
            decreases 9 - i,
        {
            if i != x {
                if self.get(i, y) == Some(value) {
                    assert(peers(p, cell_index(i as int, y as int)));
                    return false;
                }
            }
            i += 1;
        }
        // The column.
        let mut j: u8 = 0;
        while j < 9
            invariant
                j <= 9,
                x < 9,
                y < 9,
                self.wf(),
                c == self@,
                p == cell_index(x as int, y as int),
                forall|q: int| peers(p, q) && same_row(p, q) ==> #[trigger] c[q] != Some(value),
                forall|q: int| peers(p, q) && same_column(p, q) && q / 9 < j ==> #[trigger] c[q] != Some(value),
            decreases 9 - j,
        {
            if j != y {
                if self.get(x, j) == Some(value) {
                    assert(peers(p, cell_index(x as int, j as int)));
                    return false;
                }
            }
            j += 1;
        }
        // The block.
        let x0: u8 = (x / 3) * 3;
        let y0: u8 = (y / 3) * 3;
        let mut n: u8 = 0;
        while n < 9
            invariant
                n <= 9,
                x < 9,
                y < 9,
                x0 == (x / 3) * 3,
                y0 == (y / 3) * 3,
                self.wf(),
                c == self@,
                p == cell_index(x as int, y as int),
                forall|q: int| peers(p, q) && same_row(p, q) ==> #[trigger] c[q] != Some(value),
                forall|q: int| peers(p, q) && same_column(p, q) ==> #[trigger] c[q] != Some(value),
                forall|q: int|
                    peers(p, q) && same_block(p, q) && (q % 9 - x0) * 3 + (q / 9 - y0) < n
                        ==> #[trigger] c[q] != Some(value),
            decreases 9 - n,
        {
            let bx: u8 = x0 + n / 3;
            let by: u8 = y0 + n % 3;
            if bx != x || by != y {
                if self.get(bx, by) == Some(value) {
                    assert(peers(p, cell_index(bx as int, by as int)));
                    return false;
                }
            }
            n += 1;
        }
        true
    }
}

} // verus!
