//! Solving by elimination.
//!
//! Every cell keeps the digits that may still stand in it. Two rules take
//! digits away: a cell with a single digit left takes that digit from its
//! peers, and a digit that only one cell of a block still admits is the
//! digit of that cell. The rules are applied until none of them changes
//! anything, or a cell has no digit left.

use vstd::prelude::*;
use crate::grid::{Sudoku, SudokuError, cell_index, in_grid, is_digit, peers, same_block, solved};
use crate::units::lemma_block_holds;

verus! {

/// Where the grid keeps whether cell `p` admits digit `d`.
pub open spec fn slot(p: int, d: int) -> int {
    9 * p + d - 1
}

/// Cell `p` still admits digit `d`.
pub open spec fn admits(c: Seq<bool>, p: int, d: int) -> bool {
    c[slot(p, d)]
}

/// Cell `p` admits `d` and no other digit.
pub open spec fn only(c: Seq<bool>, p: int, d: int) -> bool {
    is_digit(d) && admits(c, p, d) && forall|e: int|
        is_digit(e) && e != d ==> !#[trigger] admits(c, p, e)
}

/// Cell `p` admits no digit.
pub open spec fn empty_cell(c: Seq<bool>, p: int) -> bool {
    forall|e: int| is_digit(e) ==> !#[trigger] admits(c, p, e)
}

/// No cell is without a digit.
pub open spec fn no_empty_cell(c: Seq<bool>) -> bool {
    forall|p: int| in_grid(p) ==> !#[trigger] empty_cell(c, p)
}

/// Every digit that `c1` admits somewhere, `c0` admits there too.
pub open spec fn narrows(c1: Seq<bool>, c0: Seq<bool>) -> bool {
    c1.len() == c0.len() && forall|i: int| 0 <= i < c1.len() && #[trigger] c1[i] ==> c0[i]
}

/// The full grid `s` puts into each cell a digit that `c` admits there.
pub open spec fn fits(s: Seq<Option<u8>>, c: Seq<bool>) -> bool {
    forall|p: int| in_grid(p) ==> (#[trigger] s[p]).is_some() && admits(c, p, s[p].unwrap() as int)
}

/// Every solved grid that fits `c0` fits `c1` too.
pub open spec fn keeps_solutions(c1: Seq<bool>, c0: Seq<bool>) -> bool {
    forall|s: Seq<Option<u8>>| solved(s) && #[trigger] fits(s, c0) ==> fits(s, c1)
}

/// No peer of a cell with a single digit admits that digit.
pub open spec fn peers_clean(c: Seq<bool>) -> bool {
    forall|p: int, q: int, d: int| #[trigger]
        peers(p, q) && #[trigger] only(c, p, d) ==> !admits(c, q, d)
}

/// No other cell of the block of `p` admits `d`.
pub open spec fn alone_in_block(c: Seq<bool>, p: int, d: int) -> bool {
    forall|q: int| in_grid(q) && q != p && same_block(p, q) ==> !#[trigger] admits(c, q, d)
}

/// A digit that one cell of a block alone admits is the only digit of
/// that cell.
pub open spec fn no_hidden_single(c: Seq<bool>) -> bool {
    forall|p: int, d: int|
        in_grid(p) && is_digit(d) && admits(c, p, d) && #[trigger] alone_in_block(c, p, d)
            ==> only(c, p, d)
}

/// Neither rule has anything left to take away.
pub open spec fn stable(c: Seq<bool>) -> bool {
    peers_clean(c) && no_hidden_single(c)
}

/// `c1` is `c0` with cell `p` left no digit but `d`.
pub open spec fn kept_only(c0: Seq<bool>, c1: Seq<bool>, p: int, d: int) -> bool {
    c1.len() == c0.len() && forall|i: int|
        0 <= i < c0.len() ==> #[trigger] c1[i] == (c0[i] && (i / 9 != p || i == slot(p, d)))
}

/// The first rule, applied once: a cell with a single digit takes that
/// digit from one peer that admits it.
pub open spec fn peer_rule(c0: Seq<bool>, c1: Seq<bool>) -> bool {
    exists|p: int, q: int, v: int| #[trigger]
        peers(p, q) && #[trigger] only(c0, p, v) && admits(c0, q, v) && c1 == c0.update(
            slot(q, v),
            false,
        )
}

/// The second rule, applied once: a cell with several digits, one of
/// which no other cell of its block admits, is left that digit alone.
pub open spec fn block_rule(c0: Seq<bool>, c1: Seq<bool>) -> bool {
    exists|p: int, d: int|
        in_grid(p) && is_digit(d) && admits(c0, p, d) && !only(c0, p, d) && #[trigger] alone_in_block(
            c0,
            p,
            d,
        ) && #[trigger] kept_only(c0, c1, p, d)
}

/// One of the two rules leads from `c0` to `c1`.
pub open spec fn rule_applied(c0: Seq<bool>, c1: Seq<bool>) -> bool {
    peer_rule(c0, c1) || block_rule(c0, c1)
}

/// `n` applications of the rules lead from `c0` to `c1`, each of them to
/// a grid in which no cell is without a digit.
pub open spec fn reaches(c0: Seq<bool>, c1: Seq<bool>, n: nat) -> bool
    decreases n,
{
    if n == 0 {
        c0 == c1
    } else {
        exists|m: Seq<bool>|
            reaches(c0, m, (n - 1) as nat) && no_empty_cell(m) && #[trigger] rule_applied(m, c1)
    }
}

/// How many digits the cells admit, all cells together.
pub open spec fn total(c: Seq<bool>) -> nat
    decreases c.len(),
{
    if c.len() == 0 {
        0
    } else {
        total(c.drop_last()) + if c.last() {
            1nat
        } else {
            0nat
        }
    }
}

proof fn lemma_total_remove(c: Seq<bool>, i: int)
    requires
        0 <= i < c.len(),
        c[i],
    ensures
        total(c.update(i, false)) + 1 == total(c),
    decreases c.len(),
{
    let u = c.update(i, false);
    if i == c.len() - 1 {
        assert(u.drop_last() =~= c.drop_last());
    } else {
        assert(u.drop_last() =~= c.drop_last().update(i, false));
        lemma_total_remove(c.drop_last(), i);
    }
}

/// How many digits cell `p` admits.
pub open spec fn size(c: Seq<bool>, p: int) -> nat {
    total(c.subrange(9 * p, 9 * p + 9))
}

proof fn lemma_total_below(a: Seq<bool>, b: Seq<bool>)
    requires
        a.len() == b.len(),
        forall|i: int| 0 <= i < a.len() && a[i] ==> b[i],
    ensures
        total(a) <= total(b),
    decreases a.len(),
{
    if a.len() > 0 {
        lemma_total_below(a.drop_last(), b.drop_last());
    }
}

/// Taking digits away never lets a cell admit more digits than before.
pub proof fn lemma_narrows_size(c1: Seq<bool>, c0: Seq<bool>, p: int)
    requires
        c0.len() == 729,
        narrows(c1, c0),
        in_grid(p),
    ensures
        size(c1, p) <= size(c0, p),
{
    let a = c1.subrange(9 * p, 9 * p + 9);
    let b = c0.subrange(9 * p, 9 * p + 9);
    assert forall|i: int| 0 <= i < a.len() && a[i] implies b[i] by {
        assert(c1[9 * p + i]);
    }
    lemma_total_below(a, b);
}

/// Where a solved grid fits, every cell admits a digit.
pub proof fn lemma_fitting_leaves_no_empty(s: Seq<Option<u8>>, c: Seq<bool>)
    requires
        solved(s),
        fits(s, c),
    ensures
        no_empty_cell(c),
{
    assert forall|p: int| in_grid(p) implies !#[trigger] empty_cell(c, p) by {
        assert(s[p].is_some());
        assert(is_digit(s[p].unwrap() as int));
        assert(admits(c, p, s[p].unwrap() as int));
    }
}

/// Whether two cells are peers.
pub fn is_peer(p: usize, q: usize) -> (r: bool)
    requires
        p < 81,
        q < 81,
    ensures
        r == peers(p as int, q as int),
{
    p != q && (p / 9 == q / 9 || p % 9 == q % 9 || ((p / 9) / 3 == (q / 9) / 3 && (p % 9) / 3 == (q
        % 9) / 3))
}

/// The grid of candidates: for each cell, the digits that it still admits.
#[derive(Debug)]
pub struct Candidates {
    pub open: Vec<bool>,
}

impl View for Candidates {
    type V = Seq<bool>;

    open spec fn view(&self) -> Seq<bool> {
        self.open@
    }
}

impl Candidates {
    pub open spec fn wf(&self) -> bool {
        self.open@.len() == 729
    }

    /// The grid in which every cell admits every digit.
    pub fn new() -> (g: Candidates)
        ensures
            g.wf(),
            forall|i: int| 0 <= i < 729 ==> g@[i],
    {
        let mut open: Vec<bool> = Vec::new();
        let mut i: usize = 0;
        while i < 729
            invariant
                i <= 729,
                open@.len() == i,
                forall|j: int| 0 <= j < i ==> open@[j],
            decreases 729 - i,
        {
            open.push(true);
            i += 1;
        }
        Candidates { open }
    }

    /// The candidates that a grid of given digits leaves: a given cell
    /// admits its digit alone, an empty cell admits every digit.
    pub fn from_grid(grid: &Sudoku) -> (g: Candidates)
        requires
            grid.wf(),
        ensures
            g.wf(),
            forall|p: int, d: int|
                in_grid(p) && is_digit(d) ==> #[trigger] admits(g@, p, d) == (grid@[p].is_none()
                    || grid@[p] == Some(d as u8)),
    {
        let mut g = Candidates::new();
        let mut p: usize = 0;
        while p < 81
            invariant
                p <= 81,
                grid.wf(),
                g.wf(),
                forall|a: int, d: int|
                    0 <= a < p && is_digit(d) ==> #[trigger] admits(g@, a, d) == (grid@[a].is_none()
                        || grid@[a] == Some(d as u8)),
                forall|a: int, d: int| p <= a < 81 && is_digit(d) ==> #[trigger] admits(g@, a, d),
            decreases 81 - p,
        {
            match grid.cells[p] {
                Some(v) => {
                    let ghost before = g@;
                    g.keep_only(p, v);
                    assert forall|a: int, d: int| in_grid(a) && is_digit(d) implies #[trigger] admits(
                        g@,
                        a,
                        d,
                    ) == (admits(before, a, d) && (a != p || d == v)) by {
                        assert(slot(a, d) / 9 == a);
                    }
                },
                None => {},
            }
            p += 1;
        }
        g
    }

    /// Whether cell `p` admits digit `d`.
    pub fn admits_at(&self, p: usize, d: u8) -> (r: bool)
        requires
            self.wf(),
            p < 81,
            is_digit(d as int),
        ensures
            r == admits(self@, p as int, d as int),
    {
        self.open[9 * p + d as usize - 1]
    }

    /// Takes digit `d` from cell `p`, which admits it.
    fn remove(&mut self, p: usize, d: u8)
        requires
            old(self).wf(),
            p < 81,
            is_digit(d as int),
            admits(old(self)@, p as int, d as int),
        ensures
            final(self).wf(),
            final(self)@ == old(self)@.update(slot(p as int, d as int), false),
            total(final(self)@) + 1 == total(old(self)@),
    {
        proof {
            lemma_total_remove(self@, slot(p as int, d as int));
        }
        self.open.set(9 * p + d as usize - 1, false);
    }

    /// Leaves cell `p` no digit but `d`.
    fn keep_only(&mut self, p: usize, d: u8)
        requires
            old(self).wf(),
            p < 81,
            is_digit(d as int),
        ensures
            final(self).wf(),
            kept_only(old(self)@, final(self)@, p as int, d as int),
            total(final(self)@) <= total(old(self)@),
            (exists|e: int| is_digit(e) && e != d && admits(old(self)@, p as int, e)) ==> total(
                final(self)@,
            ) < total(old(self)@),
    {
        let mut e: u8 = 1;
        while e <= 9
            invariant
                1 <= e <= 10,
                self.wf(),
                p < 81,
                is_digit(d as int),
                forall|i: int|
                    0 <= i < 729 ==> #[trigger] self@[i] == (old(self)@[i] && (i / 9 != p || i
                        == slot(p as int, d as int) || i >= slot(p as int, e as int))),
                total(self@) <= total(old(self)@),
                (exists|x: int| 1 <= x < e && x != d && admits(old(self)@, p as int, x)) ==> total(
                    self@,
                ) < total(old(self)@),
            decreases 10 - e,
        {
            if e != d && self.admits_at(p, e) {
                self.remove(p, e);
            }
            e += 1;
        }
    }

    /// The digit of cell `p`, where it admits exactly one.
    pub fn single(&self, p: usize) -> (r: Option<u8>)
        requires
            self.wf(),
            p < 81,
        ensures
            match r {
                Some(v) => only(self@, p as int, v as int),
                None => forall|d: int| !#[trigger] only(self@, p as int, d),
            },
    {
        let ghost c = self@;
        let mut found: Option<u8> = None;
        let mut d: u8 = 1;
        while d <= 9
            invariant
                1 <= d <= 10,
                self.wf(),
                c == self@,
                p < 81,
                match found {
                    Some(v) => 1 <= v < d && admits(c, p as int, v as int) && forall|e: int|
                        1 <= e < d && e != v ==> !#[trigger] admits(c, p as int, e),
                    None => forall|e: int| 1 <= e < d ==> !#[trigger] admits(c, p as int, e),
                },
            decreases 10 - d,
        {
            if self.admits_at(p, d) {
                match found {
                    Some(v) => {
                        assert(admits(c, p as int, v as int) && admits(c, p as int, d as int));
                        return None;
                    },
                    None => {
                        found = Some(d);
                    },
                }
            }
            d += 1;
        }
        found
    }

    /// The digit of the cell in column `x`, row `y`, where it admits
    /// exactly one; `None` while it admits several, or none.
    pub fn get(&self, x: u8, y: u8) -> (r: Option<u8>)
        requires
            self.wf(),
            x < 9,
            y < 9,
        ensures
            match r {
                Some(v) => only(self@, cell_index(x as int, y as int), v as int),
                None => forall|d: int| !#[trigger] only(self@, cell_index(x as int, y as int), d),
            },
    {
        self.single((x + y * 9) as usize)
    }

    /// Whether some cell admits no digit.
    pub fn has_empty(&self) -> (r: bool)
        requires
            self.wf(),
        ensures
            r == !no_empty_cell(self@),
    {
        let ghost c = self@;
        let mut p: usize = 0;
        while p < 81
            invariant
                p <= 81,
                self.wf(),
                c == self@,
                forall|a: int| 0 <= a < p ==> !#[trigger] empty_cell(c, a),
            decreases 81 - p,
        {
            let mut any = false;
            let mut d: u8 = 1;
            while d <= 9
                invariant
                    1 <= d <= 10,
                    p < 81,
                    self.wf(),
                    c == self@,
                    any ==> !empty_cell(c, p as int),
                    !any ==> forall|e: int| 1 <= e < d ==> !#[trigger] admits(c, p as int, e),
                decreases 10 - d,
            {
                if self.admits_at(p, d) {
                    any = true;
                }
                d += 1;
            }
            if !any {
                assert(empty_cell(c, p as int));
                return true;
            }
            p += 1;
        }
        false
    }

    /// Whether no other cell of the block of `p` admits `d`.
    pub fn alone(&self, p: usize, d: u8) -> (r: bool)
        requires
            self.wf(),
            p < 81,
            is_digit(d as int),
        ensures
            r == alone_in_block(self@, p as int, d as int),
    {
        let ghost c = self@;
        let mut q: usize = 0;
        while q < 81
            invariant
                q <= 81,
                p < 81,
                is_digit(d as int),
                self.wf(),
                c == self@,
                forall|b: int|
                    0 <= b < q && b != p && same_block(p as int, b) ==> !#[trigger] admits(
                        c,
                        b,
                        d as int,
                    ),
            decreases 81 - q,
        {
            if q != p && (p / 9) / 3 == (q / 9) / 3 && (p % 9) / 3 == (q % 9) / 3 {
                if self.admits_at(q, d) {
                    return false;
                }
            }
            q += 1;
        }
        true
    }

    /// Applies one rule once, where one applies: takes the digit of a
    /// cell with a single digit from one of its peers, or leaves a cell
    /// the digit that it alone admits in its block. Says whether anything
    /// was taken away.
    pub fn step(&mut self) -> (changed: bool)
        requires
            old(self).wf(),
        ensures
            final(self).wf(),
            narrows(final(self)@, old(self)@),
            keeps_solutions(final(self)@, old(self)@),
            changed ==> total(final(self)@) < total(old(self)@),
            changed ==> rule_applied(old(self)@, final(self)@),
            !changed ==> final(self)@ == old(self)@ && stable(old(self)@),
    {
        let ghost c = self@;
        let mut p: usize = 0;
        while p < 81
            invariant
                p <= 81,
                self.wf(),
                self@ == c,
                c == old(self)@,
                forall|a: int, q: int, d: int|
                    0 <= a < p && #[trigger] peers(a, q) && #[trigger] only(c, a, d) ==> !admits(
                        c,
                        q,
                        d,
                    ),
            decreases 81 - p,
        {
            match self.single(p) {
                Some(v) => {
                    let mut q: usize = 0;
                    while q < 81
                        invariant
                            q <= 81,
                            p < 81,
                            self.wf(),
                            self@ == c,
                            c == old(self)@,
                            only(c, p as int, v as int),
                            forall|b: int|
                                0 <= b < q && peers(p as int, b) ==> !#[trigger] admits(
                                    c,
                                    b,
                                    v as int,
                                ),
                        decreases 81 - q,
                    {
                        if is_peer(p, q) && self.admits_at(q, v) {
                            self.remove(q, v);
                            proof {
                                let c1 = self@;
                                assert(peers(p as int, q as int) && only(c, p as int, v as int));
                                assert(peer_rule(c, c1));
                                assert forall|s: Seq<Option<u8>>| solved(s) && #[trigger] fits(
                                    s,
                                    c,
                                ) implies fits(s, c1) by {
                                    assert(s[p as int].is_some());
                                    assert(admits(c, p as int, s[p as int].unwrap() as int));
                                    assert(s[p as int] == Some(v));
                                    assert(s[p as int] != s[q as int]);
                                    assert forall|r: int| in_grid(r) implies (#[trigger] s[r]).is_some()
                                        && admits(c1, r, s[r].unwrap() as int) by {
                                        assert(admits(c, r, s[r].unwrap() as int));
                                    }
                                }
                            }
                            return true;
                        }
                        q += 1;
                    }
                },
                None => {},
            }
            p += 1;
        }
        assert(peers_clean(c));
        let mut p: usize = 0;
        while p < 81
            invariant
                p <= 81,
                self.wf(),
                self@ == c,
                c == old(self)@,
                peers_clean(c),
                forall|a: int, d: int|
                    0 <= a < p && is_digit(d) && admits(c, a, d) && #[trigger] alone_in_block(
                        c,
                        a,
                        d,
                    ) ==> only(c, a, d),
            decreases 81 - p,
        {
            if self.single(p).is_none() {
                let mut d: u8 = 1;
                while d <= 9
                    invariant
                        1 <= d <= 10,
                        p < 81,
                        self.wf(),
                        self@ == c,
                        c == old(self)@,
                        forall|x: int| !#[trigger] only(c, p as int, x),
                        forall|e: int|
                            1 <= e < d && admits(c, p as int, e) ==> !#[trigger] alone_in_block(
                                c,
                                p as int,
                                e,
                            ),
                    decreases 10 - d,
                {
                    if self.admits_at(p, d) && self.alone(p, d) {
                        assert(!only(c, p as int, d as int));
                        self.keep_only(p, d);
                        proof {
                            let c1 = self@;
                            assert(alone_in_block(c, p as int, d as int) && kept_only(
                                c,
                                c1,
                                p as int,
                                d as int,
                            ));
                            assert(block_rule(c, c1));
                            assert forall|s: Seq<Option<u8>>| solved(s) && #[trigger] fits(
                                s,
                                c,
                            ) implies fits(s, c1) by {
                                lemma_block_holds(s, p as int, d);
                                let q = choose|q: int|
                                    in_grid(q) && same_block(p as int, q) && s[q] == Some(d);
                                assert(admits(c, q, s[q].unwrap() as int));
                                assert(q == p);
                                assert forall|r: int| in_grid(r) implies (#[trigger] s[r]).is_some()
                                    && admits(c1, r, s[r].unwrap() as int) by {
                                    let w = s[r].unwrap() as int;
                                    assert(admits(c, r, w));
                                    assert(is_digit(w));
                                    assert(slot(r, w) / 9 == r);
                                }
                            }
                        }
                        return true;
                    }
                    d += 1;
                }
            }
            p += 1;
        }
        false
    }

    /// Applies the two rules until neither changes anything, or until a
    /// cell has no digit left.
    pub fn solve(&mut self) -> (r: Result<(), SudokuError>)
        requires
            old(self).wf(),
        ensures
            final(self).wf(),
            narrows(final(self)@, old(self)@),
            keeps_solutions(final(self)@, old(self)@),
            r.is_ok() <==> no_empty_cell(final(self)@),
            r.is_ok() ==> stable(final(self)@),
            r.is_err() ==> r == Err::<(), SudokuError>(SudokuError::Contradiction),
            forall|s: Seq<Option<u8>>| solved(s) && #[trigger] fits(s, old(self)@) ==> r.is_ok(),
            exists|n: nat| reaches(old(self)@, final(self)@, n),
    {
        let ghost mut n: nat = 0;
        loop
            invariant
                self.wf(),
                narrows(self@, old(self)@),
                keeps_solutions(self@, old(self)@),
                reaches(old(self)@, self@, n),
            decreases total(self@),
        {
            let ghost before = self@;
            if self.has_empty() {
                proof {
                    assert forall|s: Seq<Option<u8>>| solved(s) && #[trigger] fits(
                        s,
                        old(self)@,
                    ) implies false by {
                        lemma_fitting_leaves_no_empty(s, self@);
                    }
                }
                return Err(SudokuError::Contradiction);
            }
            if !self.step() {
                return Ok(());
            }
            proof {
                assert(reaches(old(self)@, before, n) && no_empty_cell(before) && rule_applied(
                    before,
                    self@,
                ));
                n = n + 1;
                assert(reaches(old(self)@, self@, n));
            }
        }
    }

    /// Gives the cell in column `x`, row `y` the digit `value`, and
    /// applies the rules to what follows from it.
    pub fn set(&mut self, x: u8, y: u8, value: u8) -> (r: Result<(), SudokuError>)
        requires
            old(self).wf(),
            x < 9,
            y < 9,
            is_digit(value as int),
        ensures
            final(self).wf(),
            narrows(final(self)@, old(self)@),
            forall|e: int|
                is_digit(e) && e != value ==> !#[trigger] admits(
                    final(self)@,
                    cell_index(x as int, y as int),
                    e,
                ),
            forall|s: Seq<Option<u8>>|
                solved(s) && #[trigger] fits(s, old(self)@) && s[cell_index(x as int, y as int)]
                    == Some(value) ==> fits(s, final(self)@) && r.is_ok(),
            r.is_ok() <==> no_empty_cell(final(self)@),
            r.is_ok() ==> stable(final(self)@),
            r.is_ok() ==> only(final(self)@, cell_index(x as int, y as int), value as int),
            exists|m: Seq<bool>, n: nat|
                kept_only(old(self)@, m, cell_index(x as int, y as int), value as int) && #[trigger] reaches(
                    m,
                    final(self)@,
                    n,
                ),
            r.is_err() ==> r == Err::<(), SudokuError>(SudokuError::Contradiction),
    {
        let p = (x + y * 9) as usize;
        let ghost c = self@;
        self.keep_only(p, value);
        let ghost c1 = self@;
        proof {
            assert forall|e: int| is_digit(e) && e != value implies !#[trigger] admits(
                c1,
                p as int,
                e,
            ) by {
                assert(slot(p as int, e) / 9 == p);
            }
            assert forall|s: Seq<Option<u8>>|
                solved(s) && #[trigger] fits(s, c) && s[p as int] == Some(value) implies fits(
                s,
                c1,
            ) by {
                assert forall|r: int| in_grid(r) implies (#[trigger] s[r]).is_some() && admits(
                    c1,
                    r,
                    s[r].unwrap() as int,
                ) by {
                    let w = s[r].unwrap() as int;
                    assert(admits(c, r, w));
                    assert(is_digit(w));
                    assert(slot(r, w) / 9 == r);
                }
            }
        }
        let r = self.solve();
        proof {
            let c2 = self@;
            assert forall|e: int| is_digit(e) && e != value implies !#[trigger] admits(
                c2,
                p as int,
                e,
            ) by {
                assert(!admits(c1, p as int, e));
            }
            if r.is_ok() {
                assert(!empty_cell(c2, p as int));
            }
        }
        r
    }

    /// Takes the digit `value` from the cell in column `x`, row `y`, and
    /// applies the rules to what follows from it. Where the cell does
    /// not admit the digit, nothing is taken from it.
    pub fn unset(&mut self, x: u8, y: u8, value: u8) -> (r: Result<(), SudokuError>)
        requires
            old(self).wf(),
            x < 9,
            y < 9,
            is_digit(value as int),
        ensures
            final(self).wf(),
            narrows(final(self)@, old(self)@),
            !admits(final(self)@, cell_index(x as int, y as int), value as int),
            forall|s: Seq<Option<u8>>|
                solved(s) && #[trigger] fits(s, old(self)@) && s[cell_index(x as int, y as int)]
                    != Some(value) ==> fits(s, final(self)@) && r.is_ok(),
            r.is_ok() <==> no_empty_cell(final(self)@),
            r.is_ok() ==> stable(final(self)@),
            r.is_err() ==> r == Err::<(), SudokuError>(SudokuError::Contradiction),
            exists|n: nat|
                reaches(
                    old(self)@.update(slot(cell_index(x as int, y as int), value as int), false),
                    final(self)@,
                    n,
                ),
    {
        let p = (x + y * 9) as usize;
        let ghost c = self@;
        if self.admits_at(p, value) {
            self.remove(p, value);
        }
        let ghost c1 = self@;
        proof {
            assert(c1 =~= c.update(slot(p as int, value as int), false));
            assert forall|s: Seq<Option<u8>>|
                solved(s) && #[trigger] fits(s, c) && s[p as int] != Some(value) implies fits(
                s,
                c1,
            ) by {
                assert forall|r: int| in_grid(r) implies (#[trigger] s[r]).is_some() && admits(
                    c1,
                    r,
                    s[r].unwrap() as int,
                ) by {
                    assert(admits(c, r, s[r].unwrap() as int));
                }
            }
        }
        self.solve()
    }
}

} // verus!
