use sudoku::{Cell, Sudoku};

fn grid_of(rows: u8, cols: u8, givens: &[u8]) -> Sudoku {
    let cells: Vec<Cell> = givens
        .iter()
        .map(|v| if *v == 0 { Cell::Variable(0) } else { Cell::Fixed(*v) })
        .collect();
    Sudoku::from_cells(rows, cols, cells).expect("a well-formed grid")
}

fn digits(sudoku: &Sudoku) -> Vec<u8> {
    sudoku.iter().iter().map(|c| c.read()).collect()
}

fn all_valid(sudoku: &Sudoku) -> bool {
    let side = sudoku.length();
    (0..side).all(|r| (0..side).all(|c| sudoku.validate_cell((r, c))))
}

#[test]
fn solve_finds_the_first_solution_of_the_smallest_grids() {
    let mut one = Sudoku::new(1, 1);
    one.solve();
    assert_eq!(digits(&one), vec![1]);
    let mut two = Sudoku::new(1, 2);
    two.solve();
    assert_eq!(digits(&two), vec![1, 2, 2, 1]);
    let mut three = Sudoku::new(1, 3);
    three.solve();
    assert_eq!(digits(&three), vec![1, 2, 3, 2, 3, 1, 3, 1, 2]);
}

#[test]
fn solve_finds_the_first_solution_of_four_by_four() {
    let mut sudoku = Sudoku::new(2, 2);
    sudoku.solve();
    assert_eq!(digits(&sudoku), vec![1, 2, 3, 4, 3, 4, 1, 2, 2, 1, 4, 3, 4, 3, 2, 1]);
    assert!(sudoku.iter().iter().all(|c| !c.is_fixed()));
}

#[test]
fn solve_finds_the_first_solution_of_six_by_six() {
    let mut wide = Sudoku::new(2, 3);
    wide.solve();
    assert_eq!(
        digits(&wide),
        vec![
            1, 2, 3, 4, 5, 6, 4, 5, 6, 1, 2, 3, 2, 1, 4, 3, 6, 5, 3, 6, 5, 2, 1, 4, 5, 3, 1, 6, 4,
            2, 6, 4, 2, 5, 3, 1
        ]
    );
    let mut tall = Sudoku::new(3, 2);
    tall.solve();
    assert_eq!(
        digits(&tall),
        vec![
            1, 2, 3, 4, 5, 6, 3, 4, 5, 6, 1, 2, 5, 6, 1, 2, 3, 4, 2, 1, 4, 3, 6, 5, 4, 3, 6, 5, 2,
            1, 6, 5, 2, 1, 4, 3
        ]
    );
}

#[test]
fn solve_finds_the_first_solution_of_the_classic_grid() {
    let mut sudoku = Sudoku::default();
    sudoku.solve();
    assert_eq!(
        digits(&sudoku),
        vec![
            1, 2, 3, 4, 5, 6, 7, 8, 9, //
            4, 5, 6, 7, 8, 9, 1, 2, 3, //
            7, 8, 9, 1, 2, 3, 4, 5, 6, //
            2, 1, 4, 3, 6, 5, 8, 9, 7, //
            3, 6, 5, 8, 9, 7, 2, 1, 4, //
            8, 9, 7, 2, 1, 4, 3, 6, 5, //
            5, 3, 1, 6, 4, 2, 9, 7, 8, //
            6, 4, 2, 9, 7, 8, 5, 3, 1, //
            9, 7, 8, 5, 3, 1, 6, 4, 2
        ]
    );
    assert!(all_valid(&sudoku));
}

#[test]
fn solve_respects_the_givens() {
    let mut sudoku = grid_of(2, 2, &[0, 0, 0, 4, 0, 0, 0, 0, 0, 0, 2, 0, 0, 1, 0, 0]);
    sudoku.solve();
    let solved = digits(&sudoku);
    assert_eq!(solved[3], 4);
    assert_eq!(solved[10], 2);
    assert_eq!(solved[13], 1);
    assert!(solved.iter().all(|d| 1 <= *d && *d <= 4));
    assert!(all_valid(&sudoku));
    assert_eq!(sudoku.fixeds_iter().len(), 3);
    assert_eq!(solved, vec![1, 2, 3, 4, 3, 4, 1, 2, 4, 3, 2, 1, 2, 1, 4, 3]);
}

#[test]
fn solve_leaves_an_unsolvable_grid_empty() {
    // the two givens of the first row force two equal digits into the second
    let mut sudoku = grid_of(1, 2, &[1, 1, 0, 0]);
    sudoku.solve();
    assert_eq!(
        sudoku.iter(),
        vec![Cell::Fixed(1), Cell::Fixed(1), Cell::Variable(0), Cell::Variable(0)]
    );
}

#[test]
fn solve_discards_what_the_slots_held() {
    let mut sudoku = Sudoku::new(1, 2);
    sudoku.set((0, 0), 2);
    sudoku.set((1, 1), 2);
    sudoku.set((0, 1), 2);
    sudoku.solve();
    assert_eq!(digits(&sudoku), vec![1, 2, 2, 1]);
    let mut stuck = grid_of(1, 2, &[1, 1, 0, 0]);
    stuck.set((1, 0), 2);
    stuck.solve();
    assert_eq!(digits(&stuck), vec![1, 1, 0, 0]);
}

#[test]
fn solve_of_a_grid_without_slots_changes_nothing() {
    let mut sudoku = grid_of(1, 2, &[1, 2, 2, 1]);
    let before = sudoku.iter();
    sudoku.solve();
    assert_eq!(sudoku.iter(), before);
}

#[test]
fn has_solution_takes_filled_slots_as_givens() {
    let mut sudoku = Sudoku::new(1, 2);
    assert!(sudoku.has_solution());
    sudoku.set((0, 0), 2);
    assert!(sudoku.has_solution());
    sudoku.set((0, 1), 2);
    // the filled slots are not tested themselves, but leave no digit for the rest
    assert!(!sudoku.has_solution());
    sudoku.set((0, 1), 1);
    assert!(sudoku.has_solution());
    sudoku.set((1, 0), 1);
    sudoku.set((1, 1), 2);
    assert!(sudoku.has_solution());
}

#[test]
fn has_solution_leaves_the_grid_alone() {
    let mut sudoku = Sudoku::new(2, 2);
    sudoku.set((0, 0), 4);
    sudoku.set((2, 3), 1);
    let before = sudoku.iter();
    assert!(sudoku.has_solution());
    assert_eq!(sudoku.iter(), before);
    assert!(!sudoku.has_unique_solution());
    assert_eq!(sudoku.iter(), before);
}

#[test]
fn has_solution_of_a_full_grid_is_true() {
    // nothing is left to fill, whatever the cells hold
    let sudoku = grid_of(1, 2, &[1, 1, 1, 1]);
    assert!(sudoku.has_solution());
}

#[test]
fn has_solution_sees_a_dead_end() {
    // the last cell of the first row can only hold 4, and so can none:
    // its column holds a 4 already
    let sudoku = grid_of(2, 2, &[1, 2, 3, 0, 0, 0, 0, 0, 0, 0, 0, 4, 0, 0, 0, 0]);
    assert!(!sudoku.has_solution());
    let open = grid_of(2, 2, &[1, 2, 3, 0, 0, 0, 0, 0, 0, 0, 0, 3, 0, 0, 0, 0]);
    assert!(open.has_solution());
}

#[test]
fn empty_grids_are_not_unique() {
    assert!(!Sudoku::new(1, 2).has_unique_solution());
    assert!(!Sudoku::new(2, 1).has_unique_solution());
    assert!(!Sudoku::new(2, 2).has_unique_solution());
    assert!(!Sudoku::new(2, 3).has_unique_solution());
    assert!(!Sudoku::default().has_unique_solution());
}

#[test]
fn the_grid_of_one_cell_is_unique() {
    assert!(Sudoku::new(1, 1).has_unique_solution());
    let mut filled = Sudoku::new(1, 1);
    filled.solve().fix();
    assert_eq!(filled.iter(), vec![Cell::Fixed(1)]);
    assert!(filled.has_unique_solution());
}

#[test]
fn solved_and_frozen_grids_are_unique() {
    for (rows, cols) in [(1u8, 2u8), (2, 2), (2, 3), (3, 3)] {
        let mut sudoku = Sudoku::new(rows, cols);
        assert!(!sudoku.has_unique_solution());
        sudoku.solve();
        // the digits sit in slots, which the check does not look at
        assert!(!sudoku.has_unique_solution());
        sudoku.fix();
        assert!(sudoku.has_unique_solution());
        assert_eq!(sudoku.variables_iter().len(), 0);
    }
}

#[test]
fn uniqueness_ignores_what_the_slots_hold() {
    let mut sudoku = grid_of(1, 2, &[1, 0, 0, 0]);
    assert!(sudoku.has_unique_solution());
    sudoku.set((0, 1), 1);
    sudoku.set((1, 1), 2);
    assert!(sudoku.has_unique_solution());
}

#[test]
fn one_given_decides_the_grid_of_two_digits() {
    for at in 0..4 {
        let mut givens = [0u8; 4];
        givens[at] = 2;
        assert!(grid_of(1, 2, &givens).has_unique_solution());
    }
}

#[test]
fn unsolvable_grid_is_not_unique() {
    assert!(!grid_of(1, 2, &[1, 1, 0, 0]).has_unique_solution());
    assert!(!grid_of(2, 2, &[1, 2, 3, 0, 0, 0, 0, 0, 0, 0, 0, 4, 0, 0, 0, 0]).has_unique_solution());
}

#[test]
fn two_solutions_are_found() {
    // a classic four by four with the digits 1 and 2 of two columns left open
    let givens = [
        0, 0, 3, 4, //
        3, 4, 0, 0, //
        0, 0, 4, 3, //
        4, 3, 0, 0,
    ];
    let sudoku = grid_of(2, 2, &givens);
    assert!(sudoku.has_solution());
    assert!(!sudoku.has_unique_solution());
    let mut pinned = givens;
    pinned[0] = 1;
    pinned[6] = 1;
    assert!(grid_of(2, 2, &pinned).has_unique_solution());
}

#[test]
fn last_slot_with_the_largest_digit() {
    // the first solution ends in the largest digit: the second pass
    // empties the last slot and steps back
    let givens = [
        1, 2, 3, 4, //
        3, 4, 1, 2, //
        2, 1, 4, 3, //
        4, 3, 0, 0,
    ];
    let sudoku = grid_of(2, 2, &givens);
    assert!(sudoku.has_unique_solution());
    let single = grid_of(2, 2, &[1, 2, 3, 0, 3, 4, 1, 2, 2, 1, 4, 3, 4, 3, 2, 1]);
    assert!(single.has_unique_solution());
}

#[test]
fn clashing_givens_and_the_neighbour_of_the_first_solution() {
    // every cell but the last is a given; the givens clash, and leave the
    // digits 2 and 3 for the last cell.  The second pass starts behind 3
    // and finds nothing.
    let near = [
        2, 3, 4, 1, //
        3, 4, 2, 1, //
        2, 3, 4, 1, //
        1, 1, 1, 0,
    ];
    let sudoku = grid_of(2, 2, &near);
    assert!(sudoku.has_solution());
    assert!(sudoku.has_unique_solution());
    // with 2 and 4 left for the last cell the second pass finds the 4
    let apart = [
        2, 4, 3, 1, //
        3, 2, 4, 1, //
        2, 4, 3, 1, //
        1, 1, 1, 0,
    ];
    assert!(!grid_of(2, 2, &apart).has_unique_solution());
}
