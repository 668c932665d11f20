use sudoku::{Cell, Sudoku};

fn grid_of(rows: u8, cols: u8, givens: &[u8]) -> Sudoku {
    let cells: Vec<Cell> = givens
        .iter()
        .map(|v| if *v == 0 { Cell::Variable(0) } else { Cell::Fixed(*v) })
        .collect();
    Sudoku::from_cells(rows, cols, cells).expect("a well-formed grid")
}

fn digits(cells: &[Cell]) -> Vec<u8> {
    cells.iter().map(|c| c.read()).collect()
}

fn is_permutation(cells: &[Cell], side: usize) -> bool {
    let mut found = digits(cells);
    found.sort();
    found == (1..=side as u8).collect::<Vec<u8>>()
}

fn all_groups_are_permutations(sudoku: &Sudoku) -> bool {
    let side = sudoku.length();
    (0..side).all(|k| {
        is_permutation(&sudoku.row(k), side)
            && is_permutation(&sudoku.column(k), side)
            && is_permutation(&sudoku.subregion(k), side)
    })
}

#[test]
fn generated_grids_are_solved() {
    for (rows, cols) in [(1u8, 1u8), (1, 2), (2, 1), (1, 3), (2, 2), (2, 3), (3, 2), (3, 3)] {
        let sudoku = Sudoku::generate_solved(rows, cols);
        let side = rows as usize * cols as usize;
        assert_eq!(sudoku.subregion_rows(), rows as usize);
        assert_eq!(sudoku.subregion_columns(), cols as usize);
        assert_eq!(sudoku.length(), side);
        assert!(all_groups_are_permutations(&sudoku));
        assert_eq!(sudoku.variables_iter().len(), side * side);
        for r in 0..side {
            for c in 0..side {
                assert!(sudoku.validate_cell((r, c)));
            }
        }
    }
}

#[test]
fn generated_grids_can_be_frozen_and_are_then_unique() {
    let mut sudoku = Sudoku::generate_solved(2, 3);
    let before = digits(&sudoku.iter());
    sudoku.fix();
    assert_eq!(digits(&sudoku.iter()), before);
    assert_eq!(sudoku.fixeds_iter().len(), 36);
    assert!(sudoku.has_unique_solution());
    assert!(sudoku.has_solution());
}

#[test]
fn generated_puzzles_are_unique() {
    for (rows, cols, prune) in [(1u8, 1u8, 5usize), (1, 2, 0), (1, 2, 1), (2, 2, 8), (2, 3, 20), (3, 3, 40)] {
        let sudoku = Sudoku::generate_unsolved(rows, cols, prune);
        let area = sudoku.area();
        assert!(sudoku.has_unique_solution());
        let givens = sudoku.fixeds_iter().len();
        let slots = sudoku.variables_iter().len();
        assert_eq!(givens + slots, area);
        assert!(slots <= prune);
        assert!(sudoku.variables_iter().iter().all(|c| *c == Cell::Variable(0)));
        let mut solved = sudoku.clone();
        solved.solve();
        assert!(all_groups_are_permutations(&solved));
    }
}

#[test]
fn one_cell_puzzle_stays_unique_when_emptied() {
    // the only cell can be taken out: the grid of one cell has one solution
    let sudoku = Sudoku::generate_unsolved(1, 1, 50);
    assert_eq!(sudoku.iter(), vec![Cell::Variable(0)]);
    assert!(sudoku.has_unique_solution());
}

#[test]
fn pruning_removes_at_most_what_was_asked() {
    let mut sudoku = Sudoku::default();
    sudoku.solve();
    sudoku.fix();
    let solved = digits(&sudoku.iter());
    sudoku.prune(50);
    assert!(sudoku.has_unique_solution());
    let givens = sudoku.fixeds_iter().len();
    assert!(givens >= 81 - 50);
    assert!(givens <= 81);
    // what is left are givens of the solved grid, and empty slots
    for (cell, digit) in sudoku.iter().iter().zip(solved.iter()) {
        assert!(*cell == Cell::Fixed(*digit) || *cell == Cell::Variable(0));
    }
    let mut again = sudoku.clone();
    again.solve();
    assert_eq!(digits(&again.iter()), solved);
}

#[test]
fn pruning_nothing_changes_nothing() {
    let mut sudoku = Sudoku::generate_solved(2, 2);
    sudoku.fix();
    let before = sudoku.iter();
    sudoku.prune(0);
    assert_eq!(sudoku.iter(), before);
}

#[test]
fn pruning_a_minimal_grid_changes_nothing() {
    let mut sudoku = Sudoku::generate_unsolved(1, 2, 50);
    let before = sudoku.iter();
    sudoku.prune(50);
    assert_eq!(sudoku.iter(), before);
    assert!(sudoku.has_unique_solution());
    let mut larger = Sudoku::generate_unsolved(2, 2, 16);
    let minimal = larger.iter();
    larger.prune(16);
    assert_eq!(larger.iter(), minimal);
    assert!(larger.has_unique_solution());
}

#[test]
fn pruning_in_a_given_order() {
    let mut sudoku = grid_of(1, 2, &[1, 2, 2, 1]);
    sudoku.prune_in_order(&vec![0, 1, 2, 3], 50);
    assert_eq!(
        sudoku.iter(),
        vec![Cell::Variable(0), Cell::Variable(0), Cell::Variable(0), Cell::Fixed(1)]
    );
    let mut other = grid_of(1, 2, &[1, 2, 2, 1]);
    other.prune_in_order(&vec![3, 0, 1, 2], 50);
    assert_eq!(
        other.iter(),
        vec![Cell::Variable(0), Cell::Variable(0), Cell::Fixed(2), Cell::Variable(0)]
    );
}

#[test]
fn pruning_stops_at_the_number_asked() {
    let mut sudoku = grid_of(1, 2, &[1, 2, 2, 1]);
    sudoku.prune_in_order(&vec![2, 0, 1, 3], 2);
    assert_eq!(
        sudoku.iter(),
        vec![Cell::Variable(0), Cell::Fixed(2), Cell::Variable(0), Cell::Fixed(1)]
    );
    let mut none = grid_of(1, 2, &[1, 2, 2, 1]);
    none.prune_in_order(&vec![2, 0, 1, 3], 0);
    assert_eq!(digits(&none.fixeds_iter()), vec![1, 2, 2, 1]);
}

#[test]
fn pruning_passes_over_slots_and_repeats() {
    let mut sudoku = grid_of(1, 2, &[1, 0, 2, 1]);
    sudoku.set((0, 1), 2);
    sudoku.prune_in_order(&vec![1, 1, 0, 0, 2], 50);
    // the slot at index 1 keeps its digit and is not counted
    assert_eq!(
        sudoku.iter(),
        vec![Cell::Variable(0), Cell::Variable(2), Cell::Variable(0), Cell::Fixed(1)]
    );
    let mut short = grid_of(1, 2, &[1, 2, 2, 1]);
    short.prune_in_order(&Vec::new(), 50);
    assert_eq!(digits(&short.fixeds_iter()), vec![1, 2, 2, 1]);
}

#[test]
fn pruning_keeps_a_given_that_is_needed() {
    // without the first given 1 and 2 could change places in both columns
    let givens = [
        1, 0, 3, 4, //
        3, 4, 1, 0, //
        0, 0, 4, 3, //
        4, 3, 0, 0,
    ];
    let mut sudoku = grid_of(2, 2, &givens);
    assert!(sudoku.has_unique_solution());
    sudoku.prune_in_order(&vec![0], 1);
    assert_eq!(sudoku.get((0, 0)), Cell::Fixed(1));
    sudoku.prune_in_order(&vec![2], 1);
    assert_eq!(sudoku.get((0, 2)), Cell::Variable(0));
    assert!(sudoku.has_unique_solution());
}

#[test]
fn first_accepted_candidate_is_placed() {
    let mut sudoku = Sudoku::new(1, 2);
    assert!(sudoku.place_first((0, 0), &vec![2, 1]));
    assert_eq!(sudoku.get((0, 0)), Cell::Variable(2));
    // 2 clashes in the row, 1 is taken
    assert!(sudoku.place_first((0, 1), &vec![2, 1]));
    assert_eq!(sudoku.get((0, 1)), Cell::Variable(1));
    assert!(sudoku.place_first((1, 0), &vec![1, 2]));
    assert_eq!(sudoku.get((1, 0)), Cell::Variable(1));
    assert!(sudoku.place_first((1, 1), &vec![1, 2]));
    assert_eq!(digits(&sudoku.iter()), vec![2, 1, 1, 2]);
}

#[test]
fn candidate_that_leads_nowhere_is_passed_over() {
    // 4 is in order in the third cell of the first row, but it leaves 3
    // for the fourth, and the column of the fourth holds a 3 already
    let mut sudoku = Sudoku::new(2, 2);
    sudoku.set((0, 0), 1);
    sudoku.set((0, 1), 2);
    sudoku.set((2, 3), 3);
    sudoku.set((0, 2), 4);
    assert!(sudoku.validate_cell((0, 2)));
    assert!(!sudoku.has_solution());
    sudoku.set((0, 2), 0);
    assert!(sudoku.place_first((0, 2), &vec![4, 3]));
    assert_eq!(sudoku.get((0, 2)), Cell::Variable(3));
}

#[test]
fn no_candidate_leaves_the_slot_empty() {
    let mut sudoku = Sudoku::new(1, 2);
    sudoku.set((0, 0), 1);
    sudoku.set((0, 1), 2);
    assert!(!sudoku.place_first((0, 1), &Vec::new()));
    assert_eq!(sudoku.get((0, 1)), Cell::Variable(0));
    assert!(!sudoku.place_first((0, 1), &vec![1, 1]));
    assert_eq!(sudoku.get((0, 1)), Cell::Variable(0));
    assert_eq!(sudoku.get((0, 0)), Cell::Variable(1));
}

#[test]
fn a_row_is_filled_from_the_left() {
    let mut sudoku = Sudoku::new(2, 2);
    assert!(sudoku.fill_row(0, &vec![3, 1, 4, 2]));
    assert_eq!(digits(&sudoku.row(0)), vec![3, 1, 4, 2]);
    // the second row shares its subregions with the first
    assert!(sudoku.fill_row(1, &vec![3, 1, 4, 2]));
    assert_eq!(digits(&sudoku.row(1)), vec![4, 2, 3, 1]);
    assert!(sudoku.fill_row(2, &vec![1, 2, 3, 4]));
    assert!(sudoku.fill_row(3, &vec![1, 2, 3, 4]));
    assert!(all_groups_are_permutations(&sudoku));
    assert_eq!(digits(&sudoku.row(2)), vec![1, 3, 2, 4]);
    assert_eq!(digits(&sudoku.row(3)), vec![2, 4, 1, 3]);
}

#[test]
fn a_row_with_too_few_candidates_is_not_filled() {
    let mut sudoku = Sudoku::new(1, 2);
    assert!(!sudoku.fill_row(0, &vec![1]));
    assert_eq!(digits(&sudoku.row(0)), vec![1, 0]);
    assert!(!sudoku.fill_row(1, &Vec::new()));
    assert_eq!(digits(&sudoku.row(1)), vec![0, 0]);
    assert!(sudoku.fill_row(1, &vec![1, 2]));
    assert_eq!(digits(&sudoku.iter()), vec![1, 0, 2, 1]);
}

#[test]
fn generated_grids_differ() {
    // with the digits never shuffled every grid would be the same
    let first = digits(&Sudoku::generate_solved(3, 3).iter());
    let mut different = false;
    for _ in 0..8 {
        if digits(&Sudoku::generate_solved(3, 3).iter()) != first {
            different = true;
        }
    }
    assert!(different);
}

#[test]
fn pruned_puzzles_differ() {
    // with the givens never shuffled the same ones would always go first
    let mut solved = Sudoku::new(2, 3);
    solved.solve();
    solved.fix();
    let mut first = solved.clone();
    first.prune(6);
    let mut different = false;
    for _ in 0..8 {
        let mut next = solved.clone();
        next.prune(6);
        if next.iter() != first.iter() {
            different = true;
        }
    }
    assert!(different);
}

fn is_minimal(sudoku: &Sudoku) -> bool {
    sudoku.fixed_indices().iter().all(|idx| {
        let mut cells = sudoku.iter();
        cells[*idx] = Cell::Variable(0);
        let fewer = Sudoku::from_cells(
            sudoku.subregion_rows() as u8,
            sudoku.subregion_columns() as u8,
            cells,
        )
        .expect("a well-formed grid");
        !fewer.has_unique_solution()
    })
}

#[test]
fn pruning_without_end_leaves_a_minimal_puzzle() {
    for (rows, cols) in [(1u8, 2u8), (2, 2), (2, 3)] {
        let area = (rows as usize * cols as usize) * (rows as usize * cols as usize);
        let sudoku = Sudoku::generate_unsolved(rows, cols, area + 1);
        assert!(sudoku.has_unique_solution());
        assert!(is_minimal(&sudoku));
        let mut again = sudoku.clone();
        again.prune(area + 1);
        assert_eq!(again.iter(), sudoku.iter());
    }
}

#[test]
fn pruning_that_ends_early_may_leave_more() {
    let mut sudoku = Sudoku::new(2, 2);
    sudoku.solve();
    sudoku.fix();
    sudoku.prune(1);
    assert_eq!(sudoku.fixeds_iter().len(), 15);
    assert!(!is_minimal(&sudoku));
}
