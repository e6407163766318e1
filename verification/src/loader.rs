//! The text format of a puzzle.
//!
//! The characters `1` to `9` are given cells and `.` is a blank cell, in
//! row-major order. Every other byte is skipped. A puzzle holds exactly 81
//! cells.

use vstd::prelude::*;
use crate::grid::{Sudoku, SudokuError, is_digit};

verus! {

/// What one byte of the text stands for: a given digit, a blank cell, or
/// nothing at all.
pub open spec fn token(b: u8) -> Option<Option<u8>> {
    if 49 <= b <= 57 {
        Some(Some((b - 48) as u8))
    } else if b == 46 {
        Some(None)
    } else {
        None
    }
}

/// The cells that a text describes, in the order in which they stand.
pub open spec fn tokens(text: Seq<u8>) -> Seq<Option<u8>>
    decreases text.len(),
{
    if text.len() == 0 {
        Seq::empty()
    } else {
        match token(text.last()) {
            Some(cell) => tokens(text.drop_last()).push(cell),
            None => tokens(text.drop_last()),
        }
    }
}

/// The grid `c` after the cells `t` were written over it: a given digit
/// replaces what the cell held, a blank leaves it as it was.
pub open spec fn overlay(c: Seq<Option<u8>>, t: Seq<Option<u8>>) -> Seq<Option<u8>> {
    Seq::new(
        81,
        |p: int|
            if t[p].is_some() {
                t[p]
            } else {
                c[p]
            },
    )
}

/// Reads the cells out of a puzzle text.
pub fn scan(text: &[u8]) -> (cells: Vec<Option<u8>>)
    ensures
        cells@ == tokens(text@),
        forall|p: int| 0 <= p < cells@.len() ==> (#[trigger] cells@[p] matches Some(v) ==> is_digit(v as int)),
{
    let mut cells: Vec<Option<u8>> = Vec::new();
    let mut i: usize = 0;
    while i < text.len()
        invariant
            i <= text.len(),
            cells@ == tokens(text@.take(i as int)),
            forall|p: int| 0 <= p < cells@.len() ==> (#[trigger] cells@[p] matches Some(v) ==> is_digit(v as int)),
        decreases text.len() - i,
    {
        let b = text[i];
        proof {
            assert(text@.take(i + 1).drop_last() =~= text@.take(i as int));
            assert(text@.take(i + 1).last() == b);
        }
        if 49 <= b && b <= 57 {
            cells.push(Some(b - 48));
        } else if b == 46 {
            cells.push(None);
        }
        i += 1;
    }
    proof {
        assert(text@.take(text@.len() as int) =~= text@);
    }
    cells
}

impl Sudoku {
    /// Writes a puzzle text over the grid. A text that does not hold
    /// exactly 81 cells is refused and leaves the grid as it was.
    pub fn load(&mut self, text: &[u8]) -> (r: Result<(), SudokuError>)
        requires
            old(self).wf(),
        ensures
            final(self).wf(),
            final(self).hints == old(self).hints,
            r.is_ok() <==> tokens(text@).len() == 81,
            r.is_ok() ==> final(self)@ == overlay(old(self)@, tokens(text@)),
            r.is_err() ==> r == Err::<(), SudokuError>(SudokuError::Malformed) && final(self)@ == old(
                self,
            )@,
    {
        let given = scan(text);
        if given.len() != 81 {
            return Err(SudokuError::Malformed);
        }
        let ghost c0 = self@;
        let mut position: u8 = 0;
        while position < 81
            invariant
                position <= 81,
                self.wf(),
                self.hints == old(self).hints,
                c0 == old(self)@,
                given@ == tokens(text@),
                given@.len() == 81,
                forall|p: int| 0 <= p < 81 ==> (#[trigger] given@[p] matches Some(v) ==> is_digit(v as int)),
                forall|p: int| 0 <= p < position ==> #[trigger] self@[p] == overlay(c0, given@)[p],
                forall|p: int| position <= p < 81 ==> #[trigger] self@[p] == c0[p],
            decreases 81 - position,
        {
            let x = position % 9;
            let y = position / 9;
            match given[position as usize] {
                Some(value) => {
                    self.set(x, y, Some(value));
                },
                None => {},
            }
            position += 1;
        }
        assert(self@ =~= overlay(c0, given@));
        Ok(())
    }
}

} // verus!
