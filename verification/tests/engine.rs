use sudoku::Sudoku;

#[test]
fn solver() {
    let mut sudoku = Sudoku::default();
    assert!(!sudoku.has_unique_solution());
    sudoku.solve();
    sudoku.fix();
    assert!(sudoku.has_unique_solution());
    sudoku.prune(50);
    assert!(sudoku.has_unique_solution())
}

#[test]
fn tiny() {
    let sudoku = Sudoku::generate_unsolved(1, 2, 50);
    assert_eq!(1, sudoku.fixeds_iter().iter().count());
    assert_eq!(3, sudoku.variables_iter().iter().count());
}
