use sudoku::grid::{Sudoku, SudokuError};

fn digits(text: &str) -> Vec<Option<u8>> {
    text.bytes().map(|b| if b == b'.' || b == b'0' { None } else { Some(b - b'0') }).collect()
}

fn loaded(text: &str) -> Sudoku {
    let mut s = Sudoku::default();
    assert_eq!(s.load(text.as_bytes()), Ok(()));
    s
}

#[test]
fn elimination_alone_solves_the_easy_puzzle() {
    let mut s = loaded(
        "..3.2.6..9..3.5..1..18.64....81.29..7.......8..67.82....26.95..8..2.3..9..5.1.3..",
    );
    assert_eq!(s.solve_with_propagation(), Ok(()));
    assert_eq!(
        s.cells,
        digits("483921657967345821251876493548132976729564138136798245372689514814253769695417382")
    );
}

#[test]
fn search_finishes_what_elimination_leaves() {
    let mut s = loaded(
        ".......1.4.........2...........5.4.7..8...3....1.9....3..4..2...5.1........8.6...",
    );
    s.prepare();
    assert_eq!(s.solve_with_propagation(), Ok(()));
    assert_eq!(
        s.cells,
        digits("693784512487512936125963874932651487568247391741398625319475268856129743274836159")
    );
}

#[test]
fn both_ways_give_the_same_grid() {
    let text = "....5.4.7..8...3....1.9....3..4..2...5.1........8.6..........1.4.........2.......";
    let mut a = loaded(text);
    let mut b = loaded(text);
    assert_eq!(a.solve(), Ok(()));
    assert_eq!(b.solve_with_propagation(), Ok(()));
    assert_eq!(a.cells, b.cells);
}

#[test]
fn empty_grid_is_filled() {
    let mut s = Sudoku::default();
    assert_eq!(s.solve_with_propagation(), Ok(()));
    assert_eq!(
        s.cells,
        digits("123456789456789123789123456214365897365897214897214365531642978642978531978531642")
    );
}

#[test]
fn conflict_among_the_givens_is_a_contradiction() {
    let mut s = Sudoku::default();
    s.set(0, 0, Some(5));
    s.set(1, 0, Some(5));
    let before = s.cells.clone();
    assert_eq!(s.solve_with_propagation(), Err(SudokuError::Contradiction));
    assert_eq!(s.cells, before);
}

#[test]
fn cell_without_a_digit_is_a_contradiction() {
    let mut text = String::from("12345678.");
    text.push_str("........9");
    text.push_str(&".".repeat(63));
    let mut s = loaded(&text);
    let before = s.cells.clone();
    assert_eq!(s.solve_with_propagation(), Err(SudokuError::Contradiction));
    assert_eq!(s.cells, before);
}
