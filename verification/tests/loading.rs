use sudoku::grid::{Sudoku, SudokuError};
use sudoku::loader::scan;

const EASY: &str = "..3.2.6..\n9..3.5..1\n..18.64..\n..81.29..\n7.......8\n..67.82..\n..26.95..\n8..2.3..9\n..5.1.3..\n";

#[test]
fn scan_reads_digits_and_blanks() {
    assert_eq!(scan(b"1.9"), vec![Some(1), None, Some(9)]);
    assert_eq!(scan(b""), Vec::<Option<u8>>::new());
}

#[test]
fn scan_skips_other_bytes() {
    assert_eq!(scan(b" 5 |\n0x.,\t7"), vec![Some(5), None, Some(7)]);
}

#[test]
fn load_reads_a_puzzle() {
    let mut s = Sudoku::default();
    assert_eq!(s.load(EASY.as_bytes()), Ok(()));
    assert_eq!(s.get(0, 0), None);
    assert_eq!(s.get(2, 0), Some(3));
    assert_eq!(s.get(4, 0), Some(2));
    assert_eq!(s.get(0, 1), Some(9));
    assert_eq!(s.get(8, 1), Some(1));
    assert_eq!(s.get(6, 8), Some(3));
    assert_eq!(s.get(8, 8), None);
    assert_eq!(s.cells.iter().filter(|c| c.is_some()).count(), 32);
}

#[test]
fn load_of_blanks_leaves_the_grid_empty() {
    let mut s = Sudoku::default();
    let text = ".".repeat(81);
    assert_eq!(s.load(text.as_bytes()), Ok(()));
    assert!(s.cells.iter().all(|c| c.is_none()));
}

#[test]
fn load_refuses_eighty_cells() {
    let mut s = Sudoku::default();
    s.set(1, 1, Some(4));
    let before = s.cells.clone();
    let text = "1".repeat(80);
    assert_eq!(s.load(text.as_bytes()), Err(SudokuError::Malformed));
    assert_eq!(s.cells, before);
}

#[test]
fn load_refuses_eighty_two_cells() {
    let mut s = Sudoku::default();
    let text = ".".repeat(82);
    assert_eq!(s.load(text.as_bytes()), Err(SudokuError::Malformed));
}

#[test]
fn load_refuses_an_empty_text() {
    let mut s = Sudoku::default();
    assert_eq!(s.load(b""), Err(SudokuError::Malformed));
}

#[test]
fn load_keeps_what_a_blank_covers() {
    let mut s = Sudoku::default();
    s.set(0, 0, Some(8));
    s.set(1, 0, Some(2));
    let mut text = String::from(".7");
    text.push_str(&".".repeat(79));
    assert_eq!(s.load(text.as_bytes()), Ok(()));
    assert_eq!(s.get(0, 0), Some(8));
    assert_eq!(s.get(1, 0), Some(7));
}
