use sudoku::grid::Sudoku;
use sudoku::order::order_by_counts;

#[test]
fn order_is_by_frequency_then_digit() {
    let counts: Vec<usize> = vec![0, 2, 0, 5, 5, 0, 1, 2, 0, 9];
    assert_eq!(order_by_counts(&counts), vec![9, 3, 4, 1, 7, 6, 2, 5, 8]);
}

#[test]
fn order_without_givens_is_ascending() {
    let counts: Vec<usize> = vec![0; 10];
    assert_eq!(order_by_counts(&counts), vec![1, 2, 3, 4, 5, 6, 7, 8, 9]);
}

#[test]
fn order_ignores_entry_zero() {
    let counts: Vec<usize> = vec![50, 1, 1, 1, 1, 1, 1, 1, 1, 2];
    assert_eq!(order_by_counts(&counts), vec![9, 1, 2, 3, 4, 5, 6, 7, 8]);
}

#[test]
fn digit_counts_of_a_grid() {
    let mut s = Sudoku::default();
    s.set(0, 0, Some(4));
    s.set(5, 1, Some(4));
    s.set(8, 8, Some(9));
    assert_eq!(s.digit_counts(), vec![0, 0, 0, 0, 2, 0, 0, 0, 0, 1]);
}

#[test]
fn prepare_orders_the_digits_of_a_puzzle() {
    let mut s = Sudoku::default();
    let text = "..3.2.6..9..3.5..1..18.64....81.29..7.......8..67.82....26.95..8..2.3..9..5.1.3..";
    assert_eq!(s.load(text.as_bytes()), Ok(()));
    let before = s.cells.clone();
    s.prepare();
    assert_eq!(s.hints, vec![2, 8, 1, 3, 6, 9, 5, 7, 4]);
    assert_eq!(s.cells, before);
}

#[test]
fn prepare_puts_absent_digits_last() {
    let mut s = Sudoku::default();
    s.set(0, 0, Some(7));
    s.set(1, 1, Some(3));
    s.set(4, 4, Some(7));
    s.prepare();
    assert_eq!(s.hints, vec![7, 3, 1, 2, 4, 5, 6, 8, 9]);
}

#[test]
fn givens_come_in_row_major_order() {
    let mut s = Sudoku::default();
    assert_eq!(s.givens(), Vec::<u8>::new());
    s.set(8, 8, Some(2));
    s.set(0, 1, Some(9));
    s.set(3, 0, Some(5));
    s.set(4, 0, Some(5));
    assert_eq!(s.givens(), vec![5, 5, 9, 2]);
}

#[test]
fn digit_counts_do_not_depend_on_where_the_digits_stand() {
    let mut s = Sudoku::default();
    // 3, 1, 3, 2, 3, 1 in row-major order: equal digits are no neighbours.
    s.set(0, 0, Some(3));
    s.set(4, 0, Some(1));
    s.set(2, 1, Some(3));
    s.set(7, 2, Some(2));
    s.set(5, 4, Some(3));
    s.set(6, 7, Some(1));
    assert_eq!(s.digit_counts(), vec![0, 2, 1, 3, 0, 0, 0, 0, 0, 0]);
    s.prepare();
    assert_eq!(s.hints, vec![3, 1, 2, 4, 5, 6, 7, 8, 9]);
}
