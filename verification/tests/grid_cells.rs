use sudoku::grid::{Sudoku, SudokuError};

#[test]
fn default_grid_is_empty() {
    let s = Sudoku::default();
    assert_eq!(s.cells.len(), 81);
    for y in 0..9u8 {
        for x in 0..9u8 {
            assert_eq!(s.get(x, y), None);
        }
    }
    assert_eq!(s.hints, vec![1, 2, 3, 4, 5, 6, 7, 8, 9]);
}

#[test]
fn index_is_row_major() {
    let s = Sudoku::default();
    assert_eq!(s.index(0, 0), 0);
    assert_eq!(s.index(8, 0), 8);
    assert_eq!(s.index(0, 1), 9);
    assert_eq!(s.index(4, 7), 67);
    assert_eq!(s.index(8, 8), 80);
}

#[test]
fn set_then_get() {
    let mut s = Sudoku::default();
    s.set(3, 5, Some(7));
    assert_eq!(s.get(3, 5), Some(7));
    assert_eq!(s.cells[48], Some(7));
    assert_eq!(s.get(5, 3), None);
    s.set(3, 5, None);
    assert_eq!(s.get(3, 5), None);
}

#[test]
fn possible_sees_row_column_and_block() {
    let mut s = Sudoku::default();
    s.set(4, 4, Some(6));
    // Same row.
    assert!(!s.possible(0, 4, 6));
    assert!(!s.possible(8, 4, 6));
    // Same column.
    assert!(!s.possible(4, 0, 6));
    assert!(!s.possible(4, 8, 6));
    // Same block, neither the row nor the column.
    assert!(!s.possible(3, 3, 6));
    assert!(!s.possible(5, 5, 6));
    assert!(!s.possible(3, 5, 6));
    // Elsewhere.
    assert!(s.possible(0, 0, 6));
    assert!(s.possible(2, 3, 6));
    assert!(s.possible(6, 6, 6));
    // Another digit.
    assert!(s.possible(0, 4, 5));
}

#[test]
fn possible_ignores_the_cell_itself() {
    let mut s = Sudoku::default();
    s.set(2, 2, Some(9));
    assert!(s.possible(2, 2, 9));
}

#[test]
fn possible_leaves_the_grid_alone() {
    let mut s = Sudoku::default();
    s.set(0, 0, Some(5));
    let before = s.cells.clone();
    let first = s.possible(1, 0, 5);
    let second = s.possible(1, 0, 5);
    assert_eq!(first, second);
    assert_eq!(s.cells, before);
}

#[test]
fn conflict_in_a_row_is_seen() {
    let mut s = Sudoku::default();
    s.set(0, 0, Some(5));
    assert!(!s.possible(1, 0, 5));
    s.set(1, 0, Some(5));
    assert!(!s.is_consistent());
    assert_eq!(s.solve(), Err(SudokuError::Unsolvable));
}

#[test]
fn consistent_grids() {
    let mut s = Sudoku::default();
    assert!(s.is_consistent());
    s.set(0, 0, Some(1));
    s.set(8, 8, Some(1));
    assert!(s.is_consistent());
    s.set(0, 8, Some(1));
    assert!(!s.is_consistent());
}
