use sudoku::grid::{Sudoku, SudokuError};
use sudoku::propagate::{is_peer, Candidates};

fn loaded(text: &str) -> Sudoku {
    let mut s = Sudoku::default();
    assert_eq!(s.load(text.as_bytes()), Ok(()));
    s
}

fn count(g: &Candidates, p: usize) -> usize {
    (1..=9u8).filter(|d| g.admits_at(p, *d)).count()
}

const EASY: &str =
    "..3.2.6..9..3.5..1..18.64....81.29..7.......8..67.82....26.95..8..2.3..9..5.1.3..";
const EASY_SOLVED: &str =
    "483921657967345821251876493548132976729564138136798245372689514814253769695417382";
const SEVENTEEN: &str =
    "....5.4.7..8...3....1.9....3..4..2...5.1........8.6..........1.4.........2.......";

#[test]
fn peers_of_a_cell() {
    let n = (0..81).filter(|q| is_peer(40, *q)).count();
    assert_eq!(n, 20);
    assert!(!is_peer(40, 40));
    assert!(is_peer(0, 8));
    assert!(is_peer(0, 72));
    assert!(is_peer(0, 20));
    assert!(!is_peer(0, 21));
    assert!(!is_peer(0, 30));
}

#[test]
fn new_grid_admits_everything() {
    let g = Candidates::new();
    assert_eq!(g.open.len(), 729);
    for p in 0..81 {
        assert_eq!(count(&g, p), 9);
        assert_eq!(g.single(p), None);
    }
    assert!(!g.has_empty());
}

#[test]
fn from_grid_keeps_the_givens() {
    let s = loaded(EASY);
    let g = Candidates::from_grid(&s);
    assert_eq!(g.get(2, 0), Some(3));
    assert_eq!(count(&g, 2), 1);
    assert_eq!(g.get(0, 0), None);
    assert_eq!(count(&g, 0), 9);
}

#[test]
fn no_givens_leave_every_candidate() {
    let s = loaded(&".".repeat(81));
    let mut g = Candidates::from_grid(&s);
    assert_eq!(g.solve(), Ok(()));
    for p in 0..81 {
        assert_eq!(count(&g, p), 9);
    }
}

#[test]
fn easy_puzzle_is_solved_by_elimination() {
    let s = loaded(EASY);
    let mut g = Candidates::from_grid(&s);
    assert_eq!(g.solve(), Ok(()));
    let want = EASY_SOLVED.as_bytes();
    for y in 0..9u8 {
        for x in 0..9u8 {
            assert_eq!(g.get(x, y), Some(want[(x + 9 * y) as usize] - b'0'));
        }
    }
}

#[test]
fn hard_puzzle_ends_partly_solved() {
    let s = loaded(SEVENTEEN);
    let mut g = Candidates::from_grid(&s);
    assert_eq!(g.solve(), Ok(()));
    let solved = (0..81).filter(|p| g.single(*p).is_some()).count();
    assert_eq!(solved, 38);
    let total: usize = (0..81).map(|p| count(&g, p)).sum();
    assert_eq!(total, 183);
    assert!(!g.step());
}

#[test]
fn set_takes_the_digit_from_the_peers() {
    let mut g = Candidates::new();
    assert_eq!(g.set(4, 4, 6), Ok(()));
    assert_eq!(g.get(4, 4), Some(6));
    for q in 0..81 {
        if q != 40 {
            assert_eq!(g.admits_at(q, 6), !is_peer(40, q));
            assert!(g.admits_at(q, 5));
        }
    }
}

#[test]
fn forced_duplicate_is_a_contradiction() {
    let mut g = Candidates::new();
    assert_eq!(g.set(0, 0, 5), Ok(()));
    assert!(!g.admits_at(1, 5));
    assert_eq!(g.set(1, 0, 5), Err(SudokuError::Contradiction));
    assert!(g.has_empty());
    assert_eq!(count(&g, 1), 0);
}

#[test]
fn unset_takes_one_digit() {
    let mut g = Candidates::new();
    assert_eq!(g.unset(3, 0, 4), Ok(()));
    assert!(!g.admits_at(3, 4));
    assert_eq!(count(&g, 3), 8);
    assert_eq!(count(&g, 4), 9);
    // Taking it once more changes nothing.
    let before = g.open.clone();
    assert_eq!(g.unset(3, 0, 4), Ok(()));
    assert_eq!(g.open, before);
}

#[test]
fn unset_never_adds_a_candidate() {
    let s = loaded(SEVENTEEN);
    let mut g = Candidates::from_grid(&s);
    let mut before = g.open.clone();
    for d in 1..=9u8 {
        let _ = g.unset(0, 0, d % 3 + 1);
        for i in 0..729 {
            assert!(before[i] || !g.open[i]);
        }
        before = g.open.clone();
    }
}

#[test]
fn last_candidate_is_set_and_spreads() {
    let mut g = Candidates::new();
    for d in 2..=9u8 {
        assert_eq!(g.unset(0, 0, d), Ok(()));
    }
    assert_eq!(g.get(0, 0), Some(1));
    assert!(!g.admits_at(1, 1));
    assert!(!g.admits_at(9, 1));
    assert!(!g.admits_at(20, 1));
    assert!(g.admits_at(40, 1));
}

#[test]
fn taking_the_last_candidate_is_a_contradiction() {
    let mut g = Candidates::new();
    for d in 2..=9u8 {
        assert_eq!(g.unset(0, 0, d), Ok(()));
    }
    assert_eq!(g.unset(0, 0, 1), Err(SudokuError::Contradiction));
}

#[test]
fn hidden_single_is_set() {
    let mut g = Candidates::new();
    // Take 5 from every cell of the first block but the middle one.
    for y in 0..3u8 {
        for x in 0..3u8 {
            if x != 1 || y != 1 {
                assert_eq!(g.unset(x, y, 5), Ok(()));
            }
        }
    }
    assert_eq!(g.get(1, 1), Some(5));
    // The digit then leaves the row and the column of that cell.
    assert!(!g.admits_at(9 + 7, 5));
    assert!(!g.admits_at(9 * 6 + 1, 5));
    assert!(g.admits_at(9 * 6 + 7, 5));
}

#[test]
fn step_says_whether_it_changed_anything() {
    let mut g = Candidates::new();
    assert!(!g.step());
    let s = loaded(EASY);
    let mut g = Candidates::from_grid(&s);
    let before: usize = (0..81).map(|p| count(&g, p)).sum();
    assert!(g.step());
    let after: usize = (0..81).map(|p| count(&g, p)).sum();
    assert!(after < before);
}

#[test]
fn alone_in_its_block() {
    let mut g = Candidates::new();
    assert!(!g.alone(0, 5));
    assert_eq!(g.set(4, 0, 5), Ok(()));
    assert_eq!(g.set(7, 1, 5), Ok(()));
    assert_eq!(g.set(0, 3, 5), Ok(()));
    assert_eq!(g.set(1, 6, 5), Ok(()));
    // In the first block only the cell in column 2, row 2 is left for 5.
    assert_eq!(g.get(2, 2), Some(5));
    assert!(g.alone(20, 5));
}
