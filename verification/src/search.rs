//! Depth-first search for a full grid.

use vstd::prelude::*;
use crate::grid::{
    Sudoku, SudokuError, complete, consistent, digit_order, extends, free_for, in_grid, is_digit,
    peers, solution_of,
};

verus! {

/// How many cells hold no digit.
pub open spec fn empties(c: Seq<Option<u8>>) -> nat
    decreases c.len(),
{
    if c.len() == 0 {
        0
    } else {
        empties(c.drop_last()) + if c.last().is_none() {
            1nat
        } else {
            0nat
        }
    }
}

/// In the trial order `h`, digit `a` comes before digit `b`.
pub open spec fn tried_first(h: Seq<u8>, a: u8, b: u8) -> bool {
    exists|i: int, j: int| 0 <= i < j < h.len() && #[trigger] h[i] == a && #[trigger] h[j] == b
}

/// The search meets the full grid `f` no later than the full grid `s`:
/// they are equal, or in the first cell in which they differ, in row-major
/// order, `f` holds the digit that is tried first.
pub open spec fn first_found(f: Seq<Option<u8>>, s: Seq<Option<u8>>, h: Seq<u8>) -> bool {
    f == s || exists|p: int|
        in_grid(p) && (forall|q: int| 0 <= q < p ==> f[q] == s[q]) && #[trigger] tried_first(
            h,
            f[p].unwrap(),
            s[p].unwrap(),
        )
}

/// Of the solutions of a grid, the search can meet only one first.
pub proof fn lemma_first_found_unique(
    c: Seq<Option<u8>>,
    h: Seq<u8>,
    f: Seq<Option<u8>>,
    g: Seq<Option<u8>>,
)
    requires
        digit_order(h),
        solution_of(f, c),
        solution_of(g, c),
        forall|s: Seq<Option<u8>>| #[trigger] solution_of(s, c) ==> first_found(f, s, h),
        forall|s: Seq<Option<u8>>| #[trigger] solution_of(s, c) ==> first_found(g, s, h),
    ensures
        f == g,
{
    assert(first_found(f, g, h));
    assert(first_found(g, f, h));
    if f != g {
        let p1 = choose|p: int|
            in_grid(p) && (forall|q: int| 0 <= q < p ==> f[q] == g[q]) && #[trigger] tried_first(
                h,
                f[p].unwrap(),
                g[p].unwrap(),
            );
        let p2 = choose|p: int|
            in_grid(p) && (forall|q: int| 0 <= q < p ==> g[q] == f[q]) && #[trigger] tried_first(
                h,
                g[p].unwrap(),
                f[p].unwrap(),
            );
        let a1 = f[p1].unwrap();
        let b1 = g[p1].unwrap();
        let a2 = g[p2].unwrap();
        let b2 = f[p2].unwrap();
        let (i1, j1) = choose|i: int, j: int|
            0 <= i < j < h.len() && #[trigger] h[i] == a1 && #[trigger] h[j] == b1;
        let (i2, j2) = choose|i: int, j: int|
            0 <= i < j < h.len() && #[trigger] h[i] == a2 && #[trigger] h[j] == b2;
        if p1 < p2 {
            assert(g[p1] == f[p1]);
            assert(h[i1] != h[j1]);
        } else if p2 < p1 {
            assert(f[p2] == g[p2]);
            assert(h[i2] != h[j2]);
        } else {
            if i1 < j2 {
                assert(h[i1] != h[j2]);
            } else if j2 < i1 {
                assert(h[j2] != h[i1]);
            } else if j1 < i2 {
                assert(h[j1] != h[i2]);
            } else if i2 < j1 {
                assert(h[i2] != h[j1]);
            }
        }
    }
}

/// Filling an empty cell leaves one empty cell fewer.
proof fn lemma_fill_decreases(c: Seq<Option<u8>>, p: int, v: u8)
    requires
        0 <= p < c.len(),
        c[p].is_none(),
    ensures
        empties(c.update(p, Some(v))) + 1 == empties(c),
    decreases c.len(),
{
    let u = c.update(p, Some(v));
    if p == c.len() - 1 {
        assert(u.drop_last() =~= c.drop_last());
    } else {
        assert(u.drop_last() =~= c.drop_last().update(p, Some(v)));
        lemma_fill_decreases(c.drop_last(), p, v);
    }
}

/// A digit without a conflict can be added to a grid without conflicts.
proof fn lemma_fill_consistent(c: Seq<Option<u8>>, p: int, v: u8)
    requires
        c.len() == 81,
        0 <= p < 81,
        consistent(c),
        free_for(c, p, v),
    ensures
        consistent(c.update(p, Some(v))),
{
    let u = c.update(p, Some(v));
    assert forall|a: int, b: int| peers(a, b) && u[a].is_some() implies #[trigger] u[a]
        != #[trigger] u[b] by {
        if a == p {
            assert(c[b] != Some(v));
        } else if b == p {
            assert(peers(p, a));
            assert(c[a] != Some(v));
        } else {
            assert(c[a] != c[b]);
        }
    }
}

/// A grid with a conflict cannot be completed.
proof fn lemma_conflict_stays(c: Seq<Option<u8>>, s: Seq<Option<u8>>)
    requires
        c.len() == 81,
        !consistent(c),
    ensures
        !solution_of(s, c),
{
    if solution_of(s, c) {
        let (p, q) = choose|p: int, q: int| peers(p, q) && c[p].is_some() && c[p] == c[q];
        assert(s[p] == c[p]);
        assert(s[q] == c[q]);
    }
}

impl Sudoku {
    /// The first empty cell in row-major order.
    pub fn first_empty(&self) -> (r: Option<usize>)
        requires
            self.wf(),
        ensures
            match r {
                Some(p) => p < 81 && self@[p as int].is_none() && forall|q: int|
                    0 <= q < p ==> (#[trigger] self@[q]).is_some(),
                None => complete(self@),
            },
    {
        let mut p: usize = 0;
        while p < 81
            invariant
                p <= 81,
                self.wf(),
                forall|q: int| 0 <= q < p ==> (#[trigger] self@[q]).is_some(),
            decreases 81 - p,
        {
            if self.cells[p].is_none() {
                return Some(p);
            }
            p += 1;
        }
        None
    }

    /// Whether no two peers hold the same digit.
    pub fn is_consistent(&self) -> (ok: bool)
        requires
            self.wf(),
        ensures
            ok == consistent(self@),
    {
        let mut p: usize = 0;
        while p < 81
            invariant
                p <= 81,
                self.wf(),
                forall|a: int, b: int|
                    0 <= a < p && peers(a, b) && self@[a].is_some() ==> #[trigger] self@[a]
                        != #[trigger] self@[b],
            decreases 81 - p,
        {
            match self.cells[p] {
                Some(v) => {
                    if !self.possible((p % 9) as u8, (p / 9) as u8, v) {
                        proof {
                            let q = choose|q: int| peers(p as int, q) && self@[q] == Some(v);
                            assert(self@[p as int] == self@[q]);
                        }
                        return false;
                    }
                },
                None => {},
            }
            p += 1;
        }
        true
    }

    /// Depth-first search from a grid without conflicts. Fills the first
    /// empty cell with each digit of the trial order that has no conflict
    /// there, and goes on from that grid; a digit that leads nowhere is
    /// taken out again. Stops at the first full grid.
    pub fn search(&mut self) -> (found: bool)
        requires
            old(self).wf(),
            consistent(old(self)@),
        ensures
            final(self).wf(),
            final(self).hints == old(self).hints,
            found ==> solution_of(final(self)@, old(self)@),
            found ==> forall|s: Seq<Option<u8>>| #[trigger]
                solution_of(s, old(self)@) ==> first_found(final(self)@, s, old(self).hints@),
            !found ==> final(self)@ == old(self)@,
            !found ==> forall|s: Seq<Option<u8>>| !solution_of(s, old(self)@),
        decreases empties(old(self)@),
    {
        let ghost c0 = self@;
        let p = match self.first_empty() {
            None => {
                proof {
                    assert forall|s: Seq<Option<u8>>| #[trigger]
                        solution_of(s, c0) implies first_found(c0, s, self.hints@) by {
                        assert(s =~= c0);
                    }
                }
                return true;
            },
            Some(p) => p,
        };
        let x = (p % 9) as u8;
        let y = (p / 9) as u8;
        let mut k: usize = 0;
        while k < 9
            invariant
                k <= 9,
                self.wf(),
                self@ == c0,
                c0 == old(self)@,
                self.hints == old(self).hints,
                p < 81,
                x == p % 9,
                y == p / 9,
                c0[p as int].is_none(),
                forall|q: int| 0 <= q < p ==> (#[trigger] c0[q]).is_some(),
                consistent(c0),
                forall|s: Seq<Option<u8>>, j: int|
                    0 <= j < k && #[trigger] solution_of(s, c0) ==> s[p as int] != Some(
                        #[trigger] self.hints@[j],
                    ),
            decreases 9 - k,
        {
            let v = self.hints[k];
            if self.possible(x, y, v) {
                self.set(x, y, Some(v));
                let ghost c1 = self@;
                proof {
                    lemma_fill_decreases(c0, p as int, v);
                    lemma_fill_consistent(c0, p as int, v);
                }
                if self.search() {
                    proof {
                        let f = self@;
                        let h = self.hints@;
                        assert forall|s: Seq<Option<u8>>| #[trigger]
                            solution_of(s, c0) implies first_found(f, s, h) by {
                            if s[p as int] == Some(v) {
                                assert(extends(s, c1));
                                assert(solution_of(s, c1));
                            } else {
                                let d = s[p as int].unwrap();
                                assert(is_digit(d as int));
                                let i = choose|i: int| 0 <= i < 9 && h[i] == d;
                                if i < k {
                                    assert(s[p as int] != Some(h[i]));
                                }
                                assert(h[k as int] == v && h[i] == d);
                                assert(tried_first(h, v, d));
                                assert(f[p as int] == c1[p as int]);
                                assert forall|q: int| 0 <= q < p implies f[q] == s[q] by {
                                    assert(c0[q].is_some());
                                    assert(c1[q] == c0[q]);
                                    assert(f[q] == c1[q]);
                                    assert(s[q] == c0[q]);
                                }
                                assert(in_grid(p as int));
                            }
                        }
                    }
                    return true;
                }
                self.set(x, y, None);
                assert(self@ =~= c0);
                assert forall|s: Seq<Option<u8>>| #[trigger] solution_of(s, c0) implies s[p as int]
                    != Some(v) by {
                    if s[p as int] == Some(v) {
                        assert(extends(s, c1));
                        assert(solution_of(s, c1));
                    }
                }
            } else {
                assert forall|s: Seq<Option<u8>>| #[trigger] solution_of(s, c0) implies s[p as int]
                    != Some(v) by {
                    let q = choose|q: int| peers(p as int, q) && c0[q] == Some(v);
                    assert(s[q] == c0[q]);
                    assert(s[q].is_some());
                    assert(peers(q, p as int));
                }
            }
            k += 1;
        }
        assert forall|s: Seq<Option<u8>>| !solution_of(s, c0) by {
            if solution_of(s, c0) {
                let d = s[p as int].unwrap();
                assert(is_digit(d as int));
                let i = choose|i: int| 0 <= i < 9 && self.hints@[i] == d;
                assert(s[p as int] != Some(self.hints@[i]));
            }
        }
        false
    }

    /// Solves the grid in place by depth-first search, or says that no
    /// full grid without conflicts keeps its digits.
    pub fn solve(&mut self) -> (r: Result<(), SudokuError>)
        requires
            old(self).wf(),
        ensures
            final(self).wf(),
            final(self).hints == old(self).hints,
            r.is_ok() <==> exists|s: Seq<Option<u8>>| solution_of(s, old(self)@),
            r.is_ok() ==> solution_of(final(self)@, old(self)@),
            r.is_ok() ==> forall|s: Seq<Option<u8>>| #[trigger]
                solution_of(s, old(self)@) ==> first_found(final(self)@, s, old(self).hints@),
            r.is_err() ==> r == Err::<(), SudokuError>(SudokuError::Unsolvable) && final(self)@ == old(
                self,
            )@,
            forall|s: Seq<Option<u8>>|
                #[trigger] solution_of(s, old(self)@) && (forall|t: Seq<Option<u8>>| #[trigger]
                    solution_of(t, old(self)@) ==> t == s) ==> r.is_ok() && final(self)@ == s,
    {
        if !self.is_consistent() {
            proof {
                assert forall|s: Seq<Option<u8>>| !solution_of(s, self@) by {
                    lemma_conflict_stays(self@, s);
                }
            }
            return Err(SudokuError::Unsolvable);
        }
        if self.search() {
            Ok(())
        } else {
            Err(SudokuError::Unsolvable)
        }
    }
}

} // verus!
