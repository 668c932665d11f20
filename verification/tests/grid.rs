use sudoku::{is_valid_subregion, Cell, Sudoku};

fn grid_of(rows: u8, cols: u8, givens: &[u8]) -> Sudoku {
    let cells: Vec<Cell> = givens
        .iter()
        .map(|v| if *v == 0 { Cell::Variable(0) } else { Cell::Fixed(*v) })
        .collect();
    Sudoku::from_cells(rows, cols, cells).expect("a well-formed grid")
}

fn digits(cells: &[Cell]) -> Vec<u8> {
    cells.iter().map(|c| c.read()).collect()
}

#[test]
fn new_grid_is_empty() {
    let sudoku = Sudoku::new(2, 3);
    assert_eq!(sudoku.subregion_rows(), 2);
    assert_eq!(sudoku.subregion_columns(), 3);
    assert_eq!(sudoku.length(), 6);
    assert_eq!(sudoku.length_u8(), 6);
    assert_eq!(sudoku.area(), 36);
    assert_eq!(sudoku.cell_count(), 36);
    assert!(sudoku.iter().iter().all(|c| *c == Cell::Variable(0)));
}

#[test]
fn default_grid_is_classic() {
    let sudoku = Sudoku::default();
    assert_eq!(sudoku.subregion_rows(), 3);
    assert_eq!(sudoku.subregion_columns(), 3);
    assert_eq!(sudoku.area(), 81);
    assert_eq!(sudoku.variables_iter().len(), 81);
    assert_eq!(sudoku.fixeds_iter().len(), 0);
}

#[test]
fn largest_side_is_allowed() {
    let sudoku = Sudoku::new(15, 17);
    assert_eq!(sudoku.length(), 255);
    assert_eq!(sudoku.area(), 65025);
}

#[test]
fn default_cell_is_an_empty_slot() {
    assert_eq!(Cell::default(), Cell::Variable(0));
    assert_eq!(Cell::default().read(), 0);
    assert!(!Cell::default().is_fixed());
}

#[test]
fn cell_set_writes_slots_only() {
    let mut slot = Cell::Variable(0);
    slot.set(4);
    assert_eq!(slot, Cell::Variable(4));
    let mut given = Cell::Fixed(3);
    given.set(4);
    assert_eq!(given, Cell::Fixed(3));
    assert_eq!(given.read(), 3);
}

#[test]
fn cell_text_shows_the_digit() {
    assert_eq!(Cell::Variable(0).text(), "");
    assert_eq!(Cell::Variable(7).text(), "7");
    assert_eq!(Cell::Fixed(12).text(), "12");
    assert_eq!(Cell::Fixed(255).text(), "255");
}

#[test]
fn from_cells_checks_the_shape() {
    let four = vec![Cell::Variable(0); 4];
    assert!(Sudoku::from_cells(1, 2, four.clone()).is_some());
    assert!(Sudoku::from_cells(2, 1, four.clone()).is_some());
    assert!(Sudoku::from_cells(0, 2, four.clone()).is_none());
    assert!(Sudoku::from_cells(2, 0, four.clone()).is_none());
    assert!(Sudoku::from_cells(2, 2, four.clone()).is_none());
    assert!(Sudoku::from_cells(1, 2, vec![Cell::Variable(0); 3]).is_none());
    assert!(Sudoku::from_cells(16, 16, vec![]).is_none());
    assert!(Sudoku::from_cells(0, 0, vec![]).is_none());
}

#[test]
fn from_cells_checks_the_digits() {
    let ok = vec![Cell::Fixed(1), Cell::Variable(2), Cell::Variable(0), Cell::Fixed(2)];
    let made = Sudoku::from_cells(1, 2, ok.clone()).expect("digits within the side");
    assert_eq!(made.iter(), ok);
    let too_large = vec![Cell::Fixed(1), Cell::Variable(3), Cell::Variable(0), Cell::Fixed(2)];
    assert!(Sudoku::from_cells(1, 2, too_large).is_none());
    let given_too_large = vec![Cell::Fixed(3), Cell::Variable(0), Cell::Variable(0), Cell::Fixed(2)];
    assert!(Sudoku::from_cells(1, 2, given_too_large).is_none());
    let empty_given = vec![Cell::Fixed(0), Cell::Variable(0), Cell::Variable(0), Cell::Fixed(2)];
    assert!(Sudoku::from_cells(1, 2, empty_given).is_none());
}

#[test]
fn set_and_get_by_both_indices() {
    let mut sudoku = Sudoku::new(2, 2);
    sudoku.set((1, 2), 3);
    assert_eq!(sudoku.get((1, 2)), Cell::Variable(3));
    assert_eq!(sudoku.at(6), Cell::Variable(3));
    assert_eq!(sudoku.flat_index((1, 2)), 6);
    sudoku.set_at(15, 4);
    assert_eq!(sudoku.get((3, 3)), Cell::Variable(4));
    sudoku.set((1, 2), 0);
    assert_eq!(sudoku.get((1, 2)), Cell::Variable(0));
    let filled = sudoku.iter().iter().filter(|c| c.read() != 0).count();
    assert_eq!(filled, 1);
}

#[test]
fn setting_a_given_changes_nothing() {
    let mut sudoku = grid_of(1, 2, &[1, 0, 0, 0]);
    let before = sudoku.iter();
    sudoku.set((0, 0), 2);
    assert_eq!(sudoku.iter(), before);
    sudoku.set_at(0, 0);
    assert_eq!(sudoku.iter(), before);
    assert_eq!(sudoku.get((0, 0)), Cell::Fixed(1));
}

#[test]
fn clone_is_independent() {
    let mut sudoku = Sudoku::new(2, 2);
    sudoku.set((0, 0), 1);
    let copy = sudoku.clone();
    sudoku.set((0, 0), 2);
    sudoku.set((1, 1), 3);
    assert_eq!(copy.get((0, 0)), Cell::Variable(1));
    assert_eq!(copy.get((1, 1)), Cell::Variable(0));
    assert_eq!(copy.subregion_rows(), 2);
    assert_eq!(copy.subregion_columns(), 2);
}

#[test]
fn rows_columns_and_subregions_in_order() {
    // subregions of 2 rows by 3 columns
    let givens: [u8; 36] = [
        1, 2, 3, 4, 5, 6, //
        4, 5, 6, 1, 2, 3, //
        2, 1, 4, 3, 6, 5, //
        3, 6, 5, 2, 1, 4, //
        5, 3, 1, 6, 4, 2, //
        6, 4, 2, 5, 3, 1,
    ];
    let sudoku = grid_of(2, 3, &givens);
    assert_eq!(digits(&sudoku.row(0)), vec![1, 2, 3, 4, 5, 6]);
    assert_eq!(digits(&sudoku.row(3)), vec![3, 6, 5, 2, 1, 4]);
    assert_eq!(digits(&sudoku.column(0)), vec![1, 4, 2, 3, 5, 6]);
    assert_eq!(digits(&sudoku.column(5)), vec![6, 3, 5, 4, 2, 1]);
    assert_eq!(digits(&sudoku.subregion(0)), vec![1, 2, 3, 4, 5, 6]);
    assert_eq!(digits(&sudoku.subregion(1)), vec![4, 5, 6, 1, 2, 3]);
    assert_eq!(digits(&sudoku.subregion(2)), vec![2, 1, 4, 3, 6, 5]);
    assert_eq!(digits(&sudoku.subregion(3)), vec![3, 6, 5, 2, 1, 4]);
    assert_eq!(digits(&sudoku.subregion(5)), vec![6, 4, 2, 5, 3, 1]);
}

#[test]
fn subregion_index_formula() {
    let wide = Sudoku::new(2, 3);
    assert_eq!(wide.get_subregion_index((0, 0)), 0);
    assert_eq!(wide.get_subregion_index((1, 2)), 0);
    assert_eq!(wide.get_subregion_index((0, 3)), 1);
    assert_eq!(wide.get_subregion_index((3, 4)), 3);
    assert_eq!(wide.get_subregion_index((5, 5)), 5);
    let tall = Sudoku::new(3, 2);
    assert_eq!(tall.get_subregion_index((2, 1)), 0);
    assert_eq!(tall.get_subregion_index((2, 5)), 2);
    assert_eq!(tall.get_subregion_index((3, 0)), 3);
    assert_eq!(tall.get_subregion_index((5, 5)), 5);
    let classic = Sudoku::default();
    assert_eq!(classic.get_subregion_index((4, 4)), 4);
    assert_eq!(classic.get_subregion_index((8, 0)), 6);
    assert_eq!(classic.get_subregion_index((0, 8)), 2);
}

#[test]
fn every_cell_lies_in_its_own_subregion() {
    for (rows, cols) in [(1u8, 1u8), (1, 2), (2, 1), (2, 2), (2, 3), (3, 2), (3, 3), (2, 5)] {
        let mut sudoku = Sudoku::new(rows, cols);
        let side = sudoku.length();
        for r in 0..side {
            for c in 0..side {
                sudoku.set((r, c), 1);
                let s = sudoku.get_subregion_index((r, c));
                assert!(s < side);
                assert_eq!(sudoku.subregion(s).iter().filter(|x| x.read() == 1).count(), 1);
                assert_eq!(sudoku.row(r).iter().filter(|x| x.read() == 1).count(), 1);
                assert_eq!(sudoku.column(c).iter().filter(|x| x.read() == 1).count(), 1);
                sudoku.set((r, c), 0);
            }
        }
    }
}

#[test]
fn at_most_once_in_a_group() {
    let cells = vec![Cell::Fixed(1), Cell::Variable(2), Cell::Variable(0), Cell::Variable(2)];
    assert!(is_valid_subregion(1, &cells));
    assert!(!is_valid_subregion(2, &cells));
    assert!(is_valid_subregion(3, &cells));
    assert!(is_valid_subregion(0, &cells));
    assert!(is_valid_subregion(5, &Vec::new()));
    let zeros = vec![Cell::Variable(0), Cell::Variable(0)];
    assert!(!is_valid_subregion(0, &zeros));
}

#[test]
fn empty_cell_is_always_valid() {
    let sudoku = grid_of(2, 2, &[1, 1, 1, 1, 0, 0, 0, 0, 0, 0, 0, 0, 0, 0, 0, 0]);
    assert!(sudoku.validate_cell((1, 0)));
    assert!(sudoku.validate_cell((3, 3)));
    assert!(sudoku.validate_at(4));
}

#[test]
fn clash_in_a_row() {
    let mut sudoku = Sudoku::new(2, 2);
    sudoku.set((0, 0), 3);
    sudoku.set((0, 3), 3);
    assert!(!sudoku.validate_cell((0, 0)));
    assert!(!sudoku.validate_cell((0, 3)));
    sudoku.set((0, 3), 4);
    assert!(sudoku.validate_cell((0, 0)));
    assert!(sudoku.validate_cell((0, 3)));
}

#[test]
fn clash_in_a_column() {
    let mut sudoku = Sudoku::new(2, 2);
    sudoku.set((0, 1), 2);
    sudoku.set((3, 1), 2);
    assert!(!sudoku.validate_cell((0, 1)));
    assert!(!sudoku.validate_cell((3, 1)));
    assert!(!sudoku.validate_at(13));
    sudoku.set((3, 1), 1);
    assert!(sudoku.validate_cell((0, 1)));
}

#[test]
fn clash_in_a_subregion() {
    // subregions of 2 rows by 3 columns: (0, 0) and (1, 2) share one,
    // (0, 0) and (2, 1) do not
    let mut sudoku = Sudoku::new(2, 3);
    sudoku.set((0, 0), 5);
    sudoku.set((1, 2), 5);
    assert!(!sudoku.validate_cell((0, 0)));
    assert!(!sudoku.validate_cell((1, 2)));
    sudoku.set((1, 2), 0);
    sudoku.set((2, 1), 5);
    assert!(sudoku.validate_cell((0, 0)));
    assert!(sudoku.validate_cell((2, 1)));
}

#[test]
fn validity_is_local() {
    // two equal givens clash with each other, not with a third cell
    let mut sudoku = grid_of(1, 2, &[1, 1, 0, 0]);
    sudoku.set((1, 0), 2);
    assert!(!sudoku.validate_cell((0, 0)));
    assert!(!sudoku.validate_cell((0, 1)));
    assert!(sudoku.validate_cell((1, 0)));
}

#[test]
fn fix_freezes_filled_slots_only() {
    let mut sudoku = Sudoku::new(1, 2);
    sudoku.set((0, 0), 1);
    sudoku.set((1, 1), 2);
    sudoku.fix();
    assert_eq!(
        sudoku.iter(),
        vec![Cell::Fixed(1), Cell::Variable(0), Cell::Variable(0), Cell::Fixed(2)]
    );
    assert_eq!(sudoku.fixeds_iter(), vec![Cell::Fixed(1), Cell::Fixed(2)]);
    assert_eq!(sudoku.variables_iter(), vec![Cell::Variable(0), Cell::Variable(0)]);
    assert_eq!(sudoku.fixed_indices(), vec![0, 3]);
}

#[test]
fn fix_keeps_every_digit() {
    let mut sudoku = Sudoku::default();
    sudoku.set((0, 0), 5);
    sudoku.set((4, 7), 9);
    sudoku.set((8, 8), 1);
    let before = digits(&sudoku.iter());
    sudoku.fix();
    assert_eq!(digits(&sudoku.iter()), before);
    sudoku.fix();
    assert_eq!(digits(&sudoku.iter()), before);
    assert_eq!(sudoku.fixeds_iter().len(), 3);
}

#[test]
fn clear_empties_the_slots() {
    let mut sudoku = grid_of(1, 2, &[1, 0, 0, 0]);
    sudoku.set((0, 1), 2);
    sudoku.set((1, 0), 2);
    sudoku.clear();
    assert_eq!(
        sudoku.iter(),
        vec![Cell::Fixed(1), Cell::Variable(0), Cell::Variable(0), Cell::Variable(0)]
    );
}

#[test]
fn a_cell_is_valid_when_its_digit_is_once_in_each_of_its_groups() {
    let givens: [u8; 16] = [1, 2, 3, 4, 3, 4, 1, 2, 2, 1, 4, 3, 4, 3, 1, 1];
    let sudoku = grid_of(2, 2, &givens);
    for r in 0..4 {
        for c in 0..4 {
            let digit = sudoku.get((r, c)).read();
            let s = sudoku.get_subregion_index((r, c));
            let once = is_valid_subregion(digit, &sudoku.row(r))
                && is_valid_subregion(digit, &sudoku.column(c))
                && is_valid_subregion(digit, &sudoku.subregion(s));
            assert_eq!(sudoku.validate_cell((r, c)), once);
        }
    }
    assert!(!sudoku.validate_cell((3, 3)));
    assert!(!sudoku.validate_cell((3, 2)));
    assert!(!sudoku.validate_cell((1, 2)));
    assert!(sudoku.validate_cell((2, 1)));
    assert!(sudoku.validate_cell((0, 0)));
}
