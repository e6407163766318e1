//! The order in which the search tries the digits.
//!
//! A digit that the grid holds more often is tried earlier; of two digits
//! that it holds equally often, the smaller is tried first. Digits that the
//! grid does not hold at all therefore come last, in ascending order.

use vstd::prelude::*;
use itertools::Itertools;
use crate::grid::{Sudoku, digit_order, is_digit};

verus! {

/// How many cells hold the digit `d`.
pub open spec fn occurrences(c: Seq<Option<u8>>, d: u8) -> nat
    decreases c.len(),
{
    if c.len() == 0 {
        0
    } else {
        occurrences(c.drop_last(), d) + if c.last() == Some(d) {
            1nat
        } else {
            0nat
        }
    }
}

/// Whether digit `a` comes before digit `b`, given how often each occurs:
/// `n[d]` is the number of cells that hold `d`.
pub open spec fn before(n: Seq<usize>, a: u8, b: u8) -> bool {
    n[a as int] > n[b as int] || (n[a as int] == n[b as int] && a < b)
}

/// `h` holds the nine digits, most frequent first, ties in ascending order.
pub open spec fn ordered_by(n: Seq<usize>, h: Seq<u8>) -> bool {
    digit_order(h) && forall|i: int, j: int| 0 <= i < j < 9 ==> before(n, #[trigger] h[i], #[trigger] h[j])
}

/// `n[d]` is the number of cells of `c` that hold `d`, for each digit `d`.
pub open spec fn counts_of(c: Seq<Option<u8>>, n: Seq<usize>) -> bool {
    n.len() == 10 && forall|d: u8| is_digit(d as int) ==> #[trigger] n[d as int] == occurrences(c, d)
}

/// `h` is the trial order that belongs to the grid `c`.
pub open spec fn priority_order(c: Seq<Option<u8>>, h: Seq<u8>) -> bool {
    digit_order(h) && forall|i: int, j: int|
        0 <= i < j < 9 ==> {
            let a = #[trigger] h[i];
            let b = #[trigger] h[j];
            occurrences(c, a) > occurrences(c, b) || (occurrences(c, a) == occurrences(c, b) && a
                < b)
        }
}

proof fn lemma_order_prefix(c: Seq<Option<u8>>, h1: Seq<u8>, h2: Seq<u8>, k: int)
    requires
        priority_order(c, h1),
        priority_order(c, h2),
        0 <= k <= 9,
    ensures
        forall|i: int| 0 <= i < k ==> h1[i] == h2[i],
    decreases k,
{
    if k > 0 {
        let m = k - 1;
        lemma_order_prefix(c, h1, h2, m);
        let a = h1[m];
        let b = h2[m];
        if a != b {
            assert(is_digit(a as int) && is_digit(b as int));
            let j = choose|j: int| 0 <= j < 9 && h2[j] == a;
            let i = choose|i: int| 0 <= i < 9 && h1[i] == b;
            if j < m {
                assert(h1[j] == h2[j]);
                assert(occurrences(c, h1[j]) > occurrences(c, h1[m]) || h1[j] < h1[m]);
            }
            if i < m {
                assert(h1[i] == h2[i]);
                assert(occurrences(c, h2[i]) > occurrences(c, h2[m]) || h2[i] < h2[m]);
            }
            assert(occurrences(c, h2[m]) > occurrences(c, h2[j]) || (occurrences(c, h2[m])
                == occurrences(c, h2[j]) && h2[m] < h2[j]));
            assert(occurrences(c, h1[m]) > occurrences(c, h1[i]) || (occurrences(c, h1[m])
                == occurrences(c, h1[i]) && h1[m] < h1[i]));
        }
    }
}

/// A grid has one trial order only.
pub proof fn lemma_priority_order_unique(c: Seq<Option<u8>>, h1: Seq<u8>, h2: Seq<u8>)
    requires
        priority_order(c, h1),
        priority_order(c, h2),
    ensures
        h1 == h2,
{
    lemma_order_prefix(c, h1, h2, 9);
    assert(h1 =~= h2);
}

/// How often `d` stands in `s`.
pub open spec fn count_in(s: Seq<u8>, d: u8) -> nat
    decreases s.len(),
{
    if s.len() == 0 {
        0
    } else {
        count_in(s.drop_last(), d) + if s.last() == d {
            1nat
        } else {
            0nat
        }
    }
}

/// No element is smaller than one before it.
pub open spec fn ascending(s: Seq<u8>) -> bool {
    forall|i: int, j: int| 0 <= i < j < s.len() ==> s[i] <= s[j]
}

/// The runs of `s`: each longest stretch of equal neighbours, as the
/// element and the length of the stretch, in the order of `s`.
pub open spec fn runs(s: Seq<u8>) -> Seq<(u8, nat)>
    decreases s.len(),
{
    if s.len() == 0 {
        Seq::empty()
    } else {
        let r = runs(s.drop_last());
        if r.len() > 0 && r.last().0 == s.last() {
            r.update(r.len() - 1, (s.last(), r.last().1 + 1))
        } else {
            r.push((s.last(), 1nat))
        }
    }
}

/// `r` tells, for each element of `s`, how often it stands there: once
/// for each element, in ascending order, and for no other value.
pub open spec fn tallies(s: Seq<u8>, r: Seq<(u8, nat)>) -> bool {
    &&& s.len() > 0 ==> r.len() > 0 && r.last().0 == s.last()
    &&& forall|i: int|
        0 <= i < r.len() ==> (#[trigger] r[i]).1 == count_in(s, r[i].0) && r[i].1 >= 1
    &&& forall|i: int, j: int| 0 <= i < j < r.len() ==> (#[trigger] r[i]).0 < (#[trigger] r[j]).0
    &&& forall|d: u8| #[trigger]
        count_in(s, d) > 0 ==> exists|i: int| 0 <= i < r.len() && (#[trigger] r[i]).0 == d
}

/// The runs of an ascending sequence tell how often each element stands
/// in it.
pub proof fn lemma_runs_tally(s: Seq<u8>)
    requires
        ascending(s),
    ensures
        tallies(s, runs(s)),
    decreases s.len(),
{
    if s.len() > 0 {
        let s1 = s.drop_last();
        let x = s.last();
        assert(ascending(s1)) by {
            assert forall|i: int, j: int| 0 <= i < j < s1.len() implies s1[i] <= s1[j] by {
                assert(s[i] <= s[j]);
            }
        }
        lemma_runs_tally(s1);
        let r1 = runs(s1);
        let r = runs(s);
        let last = r1.len() - 1;
        if s1.len() > 0 {
            assert(s1.last() == s[s.len() - 2]);
            assert(s[s.len() - 2] <= s[s.len() - 1]);
        }
        if r1.len() > 0 && r1.last().0 == x {
            assert forall|i: int| 0 <= i < r.len() implies (#[trigger] r[i]).1 == count_in(
                s,
                r[i].0,
            ) && r[i].1 >= 1 by {
                if i < last {
                    assert(r1[i].0 < r1[last].0);
                    assert(r[i] == r1[i]);
                }
            }
            assert forall|i: int, j: int| 0 <= i < j < r.len() implies (#[trigger] r[i]).0 < (
            #[trigger] r[j]).0 by {
                assert(r1[i].0 < r1[j].0);
            }
            assert forall|d: u8| #[trigger] count_in(s, d) > 0 implies exists|i: int|
                0 <= i < r.len() && (#[trigger] r[i]).0 == d by {
                if d == x {
                    assert(r[last].0 == d);
                } else {
                    assert(count_in(s1, d) > 0);
                    let i = choose|i: int| 0 <= i < r1.len() && (#[trigger] r1[i]).0 == d;
                    assert(r[i].0 == d);
                }
            }
        } else {
            assert(count_in(s1, x) == 0) by {
                if count_in(s1, x) > 0 {
                    let i = choose|i: int| 0 <= i < r1.len() && (#[trigger] r1[i]).0 == x;
                    assert(s1.len() > 0);
                    if i < last {
                        assert(r1[i].0 < r1[last].0);
                    }
                }
            }
            assert forall|i: int| 0 <= i < r.len() implies (#[trigger] r[i]).1 == count_in(
                s,
                r[i].0,
            ) && r[i].1 >= 1 by {
                if i < r1.len() {
                    assert(r[i] == r1[i]);
                    if s1.len() > 0 && i < last {
                        assert(r1[i].0 < r1[last].0);
                    }
                }
            }
            assert forall|i: int, j: int| 0 <= i < j < r.len() implies (#[trigger] r[i]).0 < (
            #[trigger] r[j]).0 by {
                if j < r1.len() {
                    assert(r1[i].0 < r1[j].0);
                } else {
                    assert(r[i] == r1[i]);
                    if i < last {
                        assert(r1[i].0 < r1[last].0);
                    }
                }
            }
            assert forall|d: u8| #[trigger] count_in(s, d) > 0 implies exists|i: int|
                0 <= i < r.len() && (#[trigger] r[i]).0 == d by {
                if d == x {
                    assert(r[r.len() - 1].0 == d);
                } else {
                    assert(count_in(s1, d) > 0);
                    let i = choose|i: int| 0 <= i < r1.len() && (#[trigger] r1[i]).0 == d;
                    assert(r[i].0 == d);
                }
            }
        }
    }
}

/// A digit that occurs in a grid is held by one of its cells.
proof fn lemma_occurs_somewhere(c: Seq<Option<u8>>, d: u8)
    requires
        occurrences(c, d) > 0,
    ensures
        exists|p: int| 0 <= p < c.len() && c[p] == Some(d),
    decreases c.len(),
{
    if c.len() > 0 {
        if c.last() == Some(d) {
            assert(c[c.len() - 1] == Some(d));
        } else {
            lemma_occurs_somewhere(c.drop_last(), d);
            let p = choose|p: int| 0 <= p < c.drop_last().len() && c.drop_last()[p] == Some(d);
            assert(c[p] == Some(d));
        }
    }
}

/// Sorts digits into ascending order, by `sort` of std's slices: what
/// comes back is in ascending order and holds each value as often as
/// before.
#[verifier::external_body]
fn sort_digits(v: &mut Vec<u8>)
    ensures
        ascending(final(v)@),
        final(v)@.len() == old(v)@.len(),
        forall|d: u8| #[trigger] count_in(final(v)@, d) == count_in(old(v)@, d),
{
    v.sort();
}

/// Groups equal neighbours, by `group_by` of `itertools::Itertools` with
/// the element itself as the key: what comes back is, for each run of
/// equal neighbours and in their order, the element and the length of the
/// run.
#[verifier::external_body]
fn group_runs(v: &Vec<u8>) -> (r: Vec<(u8, usize)>)
    ensures
        r@.len() == runs(v@).len(),
        forall|i: int|
            0 <= i < r@.len() ==> (#[trigger] r@[i]).0 == runs(v@)[i].0 && r@[i].1 == runs(v@)[i].1,
{
    let mut out: Vec<(u8, usize)> = Vec::new();
    for (key, group) in &v.iter().group_by(|elt| **elt) {
        out.push((key, group.count()));
    }
    out
}

impl Sudoku {
    /// The digits that the grid holds, in row-major order.
    pub fn givens(&self) -> (g: Vec<u8>)
        requires
            self.wf(),
        ensures
            g@ == self@.filter_map(|c: Option<u8>| c),
            forall|d: u8| #[trigger] count_in(g@, d) == occurrences(self@, d),
    {
        let ghost held = |c: Option<u8>| c;
        let mut g: Vec<u8> = Vec::new();
        let mut p: usize = 0;
        while p < 81
            invariant
                p <= 81,
                self.wf(),
                held == |c: Option<u8>| c,
                g@ == self@.take(p as int).filter_map(held),
                forall|d: u8| #[trigger] count_in(g@, d) == occurrences(self@.take(p as int), d),
            decreases 81 - p,
        {
            let ghost g0 = g@;
            proof {
                assert(self@.take(p + 1).drop_last() =~= self@.take(p as int));
                assert(self@.take(p + 1).last() == self@[p as int]);
                self@.lemma_filter_map_take_succ(held, p as int);
            }
            match self.cells[p] {
                Some(v) => {
                    g.push(v);
                    proof {
                        assert(g@.drop_last() =~= g0);
                        assert(g@ =~= g0 + seq![v]);
                    }
                },
                None => {
                    assert(g@ =~= g0 + Seq::<u8>::empty());
                },
            }
            proof {
                assert forall|d: u8| #[trigger] count_in(g@, d) == occurrences(
                    self@.take(p + 1),
                    d,
                ) by {
                    assert(count_in(g0, d) == occurrences(self@.take(p as int), d));
                    assert(occurrences(self@.take(p + 1), d) == occurrences(
                        self@.take(p + 1).drop_last(),
                        d,
                    ) + if self@[p as int] == Some(d) {
                        1nat
                    } else {
                        0nat
                    });
                }
            }
            p += 1;
        }
        proof {
            assert(self@.take(81) =~= self@);
        }
        g
    }

    /// Counts, for each digit, the cells that hold it. The result has ten
    /// entries so that a digit is its own index; entry 0 is not used.
    pub fn digit_counts(&self) -> (n: Vec<usize>)
        requires
            self.wf(),
        ensures
            counts_of(self@, n@),
            n@[0] == 0,
    {
        let mut sorted = self.givens();
        sort_digits(&mut sorted);
        let groups = group_runs(&sorted);
        proof {
            lemma_runs_tally(sorted@);
        }
        let ghost r = runs(sorted@);
        let mut n: Vec<usize> = vec![0usize, 0usize, 0usize, 0usize, 0usize, 0usize, 0usize, 0usize, 0usize, 0usize];
        let mut i: usize = 0;
        while i < groups.len()
            invariant
                i <= groups@.len(),
                self.wf(),
                r == runs(sorted@),
                tallies(sorted@, r),
                groups@.len() == r.len(),
                forall|j: int|
                    0 <= j < r.len() ==> (#[trigger] groups@[j]).0 == r[j].0 && groups@[j].1
                        == r[j].1,
                forall|d: u8| #[trigger] count_in(sorted@, d) == occurrences(self@, d),
                n@.len() == 10,
                n@[0] == 0,
                forall|d: u8|
                    is_digit(d as int) ==> #[trigger] n@[d as int] == 0 || n@[d as int]
                        == occurrences(self@, d),
                forall|j: int|
                    0 <= j < i ==> n@[(#[trigger] r[j]).0 as int] == occurrences(self@, r[j].0),
            decreases groups@.len() - i,
        {
            let (key, len) = groups[i];
            proof {
                assert(r[i as int].0 == key && r[i as int].1 == len);
                assert(count_in(sorted@, key) == len);
                lemma_occurs_somewhere(self@, key);
                let p = choose|p: int| 0 <= p < self@.len() && self@[p] == Some(key);
                assert(is_digit(key as int));
            }
            n.set(key as usize, len);
            i += 1;
        }
        proof {
            assert forall|d: u8| is_digit(d as int) implies #[trigger] n@[d as int] == occurrences(
                self@,
                d,
            ) by {
                if occurrences(self@, d) > 0 {
                    assert(count_in(sorted@, d) > 0);
                    let j = choose|j: int| 0 <= j < r.len() && (#[trigger] r[j]).0 == d;
                    assert(n@[r[j].0 as int] == occurrences(self@, r[j].0));
                }
            }
        }
        n
    }

    /// Computes the trial order from the digits that the grid holds.
    pub fn prepare(&mut self)
        requires
            old(self).wf(),
        ensures
            final(self).wf(),
            final(self)@ == old(self)@,
            priority_order(old(self)@, final(self).hints@),
    {
        let n = self.digit_counts();
        let hints = order_by_counts(&n);
        self.hints = hints;
    }
}

/// Orders the nine digits by how often each occurs: `n[d]` is the count of
/// digit `d`. The more frequent digit comes first, and of two that are
/// equally frequent the smaller.
pub fn order_by_counts(n: &Vec<usize>) -> (h: Vec<u8>)
    requires
        n@.len() == 10,
    ensures
        ordered_by(n@, h@),
{
    let mut h: Vec<u8> = Vec::new();
    let mut d: u8 = 1;
    while d <= 9
        invariant
            1 <= d <= 10,
            n@.len() == 10,
            h@.len() == d - 1,
            forall|i: int| 0 <= i < h@.len() ==> 1 <= #[trigger] h@[i] < d,
            forall|e: u8| #[trigger] is_digit(e as int) && e < d ==> exists|i: int| 0 <= i < h@.len() && #[trigger] h@[i] == e,
            forall|i: int, j: int| 0 <= i < j < h@.len() ==> before(n@, #[trigger] h@[i], #[trigger] h@[j]),
        decreases 10 - d,
    {
        // The digits already placed are all smaller than `d`, so `d` goes
        // behind each one that occurs at least as often.
        let mut at: usize = 0;
        while at < h.len() && n[h[at] as usize] >= n[d as usize]
            invariant
                at <= h@.len(),
                n@.len() == 10,
                1 <= d <= 9,
                forall|i: int| 0 <= i < h@.len() ==> 1 <= #[trigger] h@[i] < d,
                forall|i: int| 0 <= i < at ==> n@[#[trigger] h@[i] as int] >= n@[d as int],
            decreases h@.len() - at,
        {
            at += 1;
        }
        let ghost h0 = h@;
        h.insert(at, d);
        proof {
            let h1 = h@;
            assert forall|e: u8| #[trigger] is_digit(e as int) && e < d + 1 implies exists|i: int|
                0 <= i < h1.len() && #[trigger] h1[i] == e by {
                if e == d {
                    assert(h1[at as int] == e);
                } else {
                    let i0 = choose|i: int| 0 <= i < h0.len() && h0[i] == e;
                    if i0 < at {
                        assert(h1[i0] == e);
                    } else {
                        assert(h1[i0 + 1] == e);
                    }
                }
            }
            assert forall|i: int, j: int| 0 <= i < j < h1.len() implies before(
                n@,
                #[trigger] h1[i],
                #[trigger] h1[j],
            ) by {
                if j < at {
                    assert(h1[i] == h0[i] && h1[j] == h0[j]);
                } else if j == at {
                    assert(h1[i] == h0[i]);
                } else if i < at {
                    assert(h1[i] == h0[i] && h1[j] == h0[j - 1]);
                } else if i == at {
                    assert(h1[j] == h0[j - 1]);
                    assert(at < h0.len());
                    assert(before(n@, h0[at as int], h0[j - 1]) || j - 1 == at);
                } else {
                    assert(h1[i] == h0[i - 1] && h1[j] == h0[j - 1]);
                }
            }
        }
        d += 1;
    }
    h
}

} // verus!
