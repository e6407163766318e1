//! Elimination first, search for what it leaves open.

use vstd::prelude::*;
use crate::grid::{Sudoku, SudokuError, extends, in_grid, is_digit, solution_of, valid_cells};
use crate::search::first_found;
use crate::propagate::{Candidates, admits, empty_cell, fits, narrows, no_empty_cell, only};

verus! {

/// The candidates that the givens of `c` leave admit every solution of `c`.
proof fn lemma_solution_fits(s: Seq<Option<u8>>, c: Seq<Option<u8>>, k: Seq<bool>)
    requires
        solution_of(s, c),
        c.len() == 81,
        forall|p: int, d: int|
            in_grid(p) && is_digit(d) ==> #[trigger] admits(k, p, d) == (c[p].is_none() || c[p]
                == Some(d as u8)),
    ensures
        fits(s, k),
{
    assert forall|p: int| in_grid(p) implies (#[trigger] s[p]).is_some() && admits(
        k,
        p,
        s[p].unwrap() as int,
    ) by {
        let w = s[p].unwrap();
        assert(is_digit(w as int));
        assert(admits(k, p, w as int) == (c[p].is_none() || c[p] == Some(w)));
    }
}

impl Sudoku {
    /// A copy of the cells.
    fn saved_cells(&self) -> (cells: Vec<Option<u8>>)
        requires
            self.wf(),
        ensures
            cells@ == self@,
    {
        let mut cells: Vec<Option<u8>> = Vec::new();
        let mut p: usize = 0;
        while p < 81
            invariant
                p <= 81,
                self.wf(),
                cells@ == self@.take(p as int),
            decreases 81 - p,
        {
            cells.push(self.cells[p]);
            assert(cells@ =~= self@.take(p + 1));
            p += 1;
        }
        assert(self@.take(81) =~= self@);
        cells
    }

    /// Solves the grid in place: elimination settles what it can, and the
    /// search goes over the cells that it leaves open. Where the grid has no
    /// solution, it is left as it was.
    pub fn solve_with_propagation(&mut self) -> (r: Result<(), SudokuError>)
        requires
            old(self).wf(),
        ensures
            final(self).wf(),
            final(self).hints == old(self).hints,
            r.is_ok() <==> exists|s: Seq<Option<u8>>| solution_of(s, old(self)@),
            r.is_ok() ==> solution_of(final(self)@, old(self)@),
            r.is_ok() ==> forall|s: Seq<Option<u8>>| #[trigger]
                solution_of(s, old(self)@) ==> first_found(final(self)@, s, old(self).hints@),
            r.is_err() ==> final(self)@ == old(self)@,
            r.is_err() ==> r == Err::<(), SudokuError>(SudokuError::Contradiction) || r == Err::<
                (),
                SudokuError,
            >(SudokuError::Unsolvable),
    {
        let ghost c = self@;
        let mut cand = Candidates::from_grid(self);
        let ghost k0 = cand@;
        match cand.solve() {
            Err(e) => {
                proof {
                    assert forall|s: Seq<Option<u8>>| !solution_of(s, c) by {
                        if solution_of(s, c) {
                            lemma_solution_fits(s, c, k0);
                        }
                    }
                }
                return Err(e);
            },
            Ok(()) => {},
        }
        let ghost k = cand@;
        let saved = self.saved_cells();
        let mut p: u8 = 0;
        while p < 81
            invariant
                p <= 81,
                self.wf(),
                cand.wf(),
                cand@ == k,
                c == old(self)@,
                valid_cells(c),
                self.hints == old(self).hints,
                narrows(k, k0),
                no_empty_cell(k),
                forall|a: int, d: int|
                    in_grid(a) && is_digit(d) ==> #[trigger] admits(k0, a, d) == (c[a].is_none()
                        || c[a] == Some(d as u8)),
                forall|a: int| p <= a < 81 ==> #[trigger] self@[a] == c[a],
                forall|a: int| 0 <= a < p && c[a].is_some() ==> #[trigger] self@[a] == c[a],
                forall|a: int|
                    0 <= a < p ==> (#[trigger] self@[a] matches Some(v) ==> only(k, a, v as int)),
            decreases 81 - p,
        {
            let ghost before = self@;
            match cand.single(p as usize) {
                Some(v) => {
                    self.set(p % 9, p / 9, Some(v));
                    proof {
                        assert(admits(k0, p as int, v as int));
                    }
                },
                None => {
                    proof {
                        if c[p as int].is_some() {
                            let g = c[p as int].unwrap();
                            assert(is_digit(g as int));
                            assert(!empty_cell(k, p as int));
                            let e = choose|e: int| is_digit(e) && admits(k, p as int, e);
                            assert(admits(k0, p as int, e));
                            assert(e == g);
                            assert forall|x: int| is_digit(x) && x != g implies !#[trigger] admits(
                                k,
                                p as int,
                                x,
                            ) by {
                                if admits(k, p as int, x) {
                                    assert(admits(k0, p as int, x));
                                }
                            }
                            assert(only(k, p as int, g as int));
                        }
                    }
                },
            }
            p += 1;
        }
        let ghost c1 = self@;
        proof {
            assert(extends(c1, c));
            assert forall|s: Seq<Option<u8>>| #[trigger] solution_of(s, c) implies solution_of(
                s,
                c1,
            ) by {
                lemma_solution_fits(s, c, k0);
                assert(fits(s, k));
                assert forall|a: int| 0 <= a < 81 && c1[a].is_some() implies #[trigger] s[a]
                    == c1[a] by {
                    assert(only(k, a, c1[a].unwrap() as int));
                    assert(admits(k, a, s[a].unwrap() as int));
                    assert(is_digit(s[a].unwrap() as int));
                }
            }
        }
        match self.solve() {
            Ok(()) => {
                proof {
                    let f = self@;
                    assert(solution_of(f, c)) by {
                        assert forall|a: int| 0 <= a < 81 && c[a].is_some() implies #[trigger] f[a]
                            == c[a] by {
                            assert(c1[a] == c[a]);
                        }
                    }
                }
                Ok(())
            },
            Err(e) => {
                self.cells = saved;
                Err(e)
            },
        }
    }
}

} // verus!
