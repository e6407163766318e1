//! Rows, columns and blocks of a solved grid: each holds every digit, and
//! holds it once.

use vstd::prelude::*;
use vstd::set_lib::{lemma_int_range, lemma_subset_equality, set_int_range};
use crate::grid::{in_grid, is_digit, peers, same_block, same_column, same_row, solved};

verus! {

/// Nine different digits are all the digits.
pub proof fn lemma_nine_digits(f: Seq<int>, d: int)
    requires
        f.len() == 9,
        forall|i: int| 0 <= i < 9 ==> is_digit(#[trigger] f[i]),
        forall|i: int, j: int| 0 <= i < j < 9 ==> #[trigger] f[i] != #[trigger] f[j],
        is_digit(d),
    ensures
        exists|i: int| 0 <= i < 9 && f[i] == d,
{
    assert(f.no_duplicates());
    f.unique_seq_to_set();
    lemma_int_range(1, 10);
    let digits = set_int_range(1, 10);
    assert(f.to_set().subset_of(digits)) by {
        assert forall|v: int| f.to_set().contains(v) implies digits.contains(v) by {
            let i = choose|i: int| 0 <= i < 9 && f[i] == v;
            assert(is_digit(f[i]));
        }
    }
    vstd::seq_lib::seq_to_set_is_finite(f);
    lemma_subset_equality(f.to_set(), digits);
    assert(digits.contains(d));
    assert(f.to_set().contains(d));
    assert(f.contains(d));
}

/// The `k`-th cell of the row, of the column and of the block of cell `p`.
pub open spec fn row_cell(p: int, k: int) -> int {
    9 * (p / 9) + k
}

pub open spec fn column_cell(p: int, k: int) -> int {
    p % 9 + 9 * k
}

pub open spec fn block_cell(p: int, k: int) -> int {
    9 * (3 * ((p / 9) / 3) + k / 3) + (3 * ((p % 9) / 3) + k % 3)
}

/// Where the `k`-th cell of a block stands.
proof fn lemma_block_cell(p: int, k: int)
    requires
        in_grid(p),
        0 <= k < 9,
    ensures
        in_grid(block_cell(p, k)),
        block_cell(p, k) / 9 == 3 * ((p / 9) / 3) + k / 3,
        block_cell(p, k) % 9 == 3 * ((p % 9) / 3) + k % 3,
        same_block(p, block_cell(p, k)),
{
    let a = 3 * ((p / 9) / 3) + k / 3;
    let b = 3 * ((p % 9) / 3) + k % 3;
    assert(0 <= a < 9 && 0 <= b < 9);
    assert(block_cell(p, k) == 9 * a + b);
    assert((9 * a + b) / 9 == a && (9 * a + b) % 9 == b);
}

/// In a solved grid the row of every cell holds every digit.
pub proof fn lemma_row_holds(s: Seq<Option<u8>>, p: int, d: u8)
    requires
        solved(s),
        in_grid(p),
        is_digit(d as int),
    ensures
        exists|q: int| in_grid(q) && same_row(p, q) && s[q] == Some(d),
{
    let f = Seq::new(9, |k: int| s[row_cell(p, k)].unwrap() as int);
    assert forall|i: int, j: int| 0 <= i < j < 9 implies #[trigger] f[i] != #[trigger] f[j] by {
        assert(peers(row_cell(p, i), row_cell(p, j)));
        assert(s[row_cell(p, i)].is_some() && s[row_cell(p, j)].is_some());
    }
    assert forall|i: int| 0 <= i < 9 implies is_digit(#[trigger] f[i]) by {
        assert(s[row_cell(p, i)].is_some());
    }
    lemma_nine_digits(f, d as int);
    let i = choose|i: int| 0 <= i < 9 && f[i] == d as int;
    let q = row_cell(p, i);
    assert(s[q].is_some());
    assert(in_grid(q) && same_row(p, q) && s[q] == Some(d));
}

/// In a solved grid the column of every cell holds every digit.
pub proof fn lemma_column_holds(s: Seq<Option<u8>>, p: int, d: u8)
    requires
        solved(s),
        in_grid(p),
        is_digit(d as int),
    ensures
        exists|q: int| in_grid(q) && same_column(p, q) && s[q] == Some(d),
{
    let f = Seq::new(9, |k: int| s[column_cell(p, k)].unwrap() as int);
    assert forall|i: int, j: int| 0 <= i < j < 9 implies #[trigger] f[i] != #[trigger] f[j] by {
        assert(peers(column_cell(p, i), column_cell(p, j)));
        assert(s[column_cell(p, i)].is_some() && s[column_cell(p, j)].is_some());
    }
    assert forall|i: int| 0 <= i < 9 implies is_digit(#[trigger] f[i]) by {
        assert(s[column_cell(p, i)].is_some());
    }
    lemma_nine_digits(f, d as int);
    let i = choose|i: int| 0 <= i < 9 && f[i] == d as int;
    let q = column_cell(p, i);
    assert(s[q].is_some());
    assert(in_grid(q) && same_column(p, q) && s[q] == Some(d));
}

/// In a solved grid the block of every cell holds every digit.
pub proof fn lemma_block_holds(s: Seq<Option<u8>>, p: int, d: u8)
    requires
        solved(s),
        in_grid(p),
        is_digit(d as int),
    ensures
        exists|q: int| in_grid(q) && same_block(p, q) && s[q] == Some(d),
{
    let f = Seq::new(9, |k: int| s[block_cell(p, k)].unwrap() as int);
    assert forall|i: int, j: int| 0 <= i < j < 9 implies #[trigger] f[i] != #[trigger] f[j] by {
        lemma_block_cell(p, i);
        lemma_block_cell(p, j);
        let a = block_cell(p, i);
        let b = block_cell(p, j);
        assert(a != b) by {
            assert(i / 3 != j / 3 || i % 3 != j % 3);
        }
        assert(same_block(a, b));
        assert(peers(a, b));
        assert(s[a].is_some() && s[b].is_some());
    }
    assert forall|i: int| 0 <= i < 9 implies is_digit(#[trigger] f[i]) by {
        lemma_block_cell(p, i);
        assert(s[block_cell(p, i)].is_some());
    }
    lemma_nine_digits(f, d as int);
    let i = choose|i: int| 0 <= i < 9 && f[i] == d as int;
    let q = block_cell(p, i);
    lemma_block_cell(p, i);
    assert(s[q].is_some());
    assert(in_grid(q) && same_block(p, q) && s[q] == Some(d));
}

/// In a solved grid no digit stands twice in a row, a column or a block.
pub proof fn lemma_unit_holds_once(s: Seq<Option<u8>>, q: int, r: int)
    requires
        solved(s),
        in_grid(q),
        in_grid(r),
        same_row(q, r) || same_column(q, r) || same_block(q, r),
        s[q] == s[r],
    ensures
        q == r,
{
    if q != r {
        assert(peers(q, r));
        assert(s[q].is_some());
    }
}

} // verus!
