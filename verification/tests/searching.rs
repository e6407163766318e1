use sudoku::grid::{Sudoku, SudokuError};

fn digits(text: &str) -> Vec<Option<u8>> {
    text.bytes().map(|b| if b == b'.' { None } else { Some(b - b'0') }).collect()
}

fn loaded(text: &str) -> Sudoku {
    let mut s = Sudoku::default();
    assert_eq!(s.load(text.as_bytes()), Ok(()));
    s
}

fn units_hold_each_digit_once(cells: &[Option<u8>]) -> bool {
    for u in 0..9usize {
        for d in 1..=9u8 {
            let row = (0..9).filter(|k| cells[9 * u + k] == Some(d)).count();
            let column = (0..9).filter(|k| cells[u + 9 * k] == Some(d)).count();
            let base = 27 * (u / 3) + 3 * (u % 3);
            let block = (0..9).filter(|k| cells[base + 9 * (k / 3) + k % 3] == Some(d)).count();
            if row != 1 || column != 1 || block != 1 {
                return false;
            }
        }
    }
    true
}

const EASY: &str =
    "..3.2.6..9..3.5..1..18.64....81.29..7.......8..67.82....26.95..8..2.3..9..5.1.3..";
const EASY_SOLVED: &str =
    "483921657967345821251876493548132976729564138136798245372689514814253769695417382";
const SEVENTEEN: &str =
    "....5.4.7..8...3....1.9....3..4..2...5.1........8.6..........1.4.........2.......";
const SEVENTEEN_SOLVED: &str =
    "932651487568247391741398625319475268856129743274836159693784512487512936125963874";

#[test]
fn first_empty_scans_row_major() {
    let mut s = Sudoku::default();
    assert_eq!(s.first_empty(), Some(0));
    s.set(0, 0, Some(1));
    s.set(1, 0, Some(2));
    s.set(0, 1, Some(3));
    assert_eq!(s.first_empty(), Some(2));
    let full = loaded(EASY_SOLVED);
    assert_eq!(full.first_empty(), None);
}

#[test]
fn empty_grid_gives_the_first_grid_in_order() {
    let mut s = Sudoku::default();
    assert_eq!(s.solve(), Ok(()));
    assert_eq!(
        s.cells,
        digits("123456789456789123789123456214365897365897214897214365531642978642978531978531642")
    );
    assert!(units_hold_each_digit_once(&s.cells));
}

#[test]
fn easy_puzzle_is_solved_by_search() {
    let mut s = loaded(EASY);
    s.prepare();
    assert_eq!(s.solve(), Ok(()));
    assert_eq!(s.cells, digits(EASY_SOLVED));
    assert!(units_hold_each_digit_once(&s.cells));
}

#[test]
fn seventeen_givens_are_solved() {
    let mut s = loaded(SEVENTEEN);
    assert_eq!(s.cells.iter().filter(|c| c.is_some()).count(), 17);
    s.prepare();
    assert_eq!(s.hints, vec![1, 4, 2, 3, 5, 8, 6, 7, 9]);
    assert_eq!(s.solve(), Ok(()));
    assert_eq!(s.cells, digits(SEVENTEEN_SOLVED));
}

#[test]
fn trial_order_does_not_change_the_solution() {
    let mut s = loaded(SEVENTEEN);
    assert_eq!(s.hints, vec![1, 2, 3, 4, 5, 6, 7, 8, 9]);
    assert_eq!(s.solve(), Ok(()));
    assert_eq!(s.cells, digits(SEVENTEEN_SOLVED));
}

#[test]
fn solved_grid_stays_as_it_is() {
    let mut s = loaded(EASY_SOLVED);
    assert_eq!(s.solve(), Ok(()));
    assert_eq!(s.cells, digits(EASY_SOLVED));
}

#[test]
fn search_keeps_the_givens() {
    let mut s = loaded(EASY);
    let given = s.cells.clone();
    assert!(s.search());
    for p in 0..81 {
        if given[p].is_some() {
            assert_eq!(s.cells[p], given[p]);
        }
    }
}

#[test]
fn dead_end_is_unsolvable_and_restores_the_grid() {
    // The last cell of the first row can only hold 9, which its column holds.
    let mut text = String::from("12345678.");
    text.push_str("........9");
    text.push_str(&".".repeat(63));
    let mut s = loaded(&text);
    let before = s.cells.clone();
    assert!(s.is_consistent());
    assert_eq!(s.solve(), Err(SudokuError::Unsolvable));
    assert_eq!(s.cells, before);
}

#[test]
fn search_reports_a_dead_end() {
    let mut text = String::from("12345678.");
    text.push_str("........9");
    text.push_str(&".".repeat(63));
    let mut s = loaded(&text);
    let before = s.cells.clone();
    assert!(!s.search());
    assert_eq!(s.cells, before);
}
