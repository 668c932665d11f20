use sudoku::{Cell, Sudoku};

/// A small generator of numbers, the same on every run.
struct Numbers(u64);

impl Numbers {
    fn next(&mut self, below: u64) -> u64 {
        self.0 = self.0.wrapping_mul(6364136223846793005).wrapping_add(1442695040888963407);
        (self.0 >> 33) % below
    }
}

fn peers(rows: usize, cols: usize, i: usize, j: usize) -> bool {
    let side = rows * cols;
    let (ri, ci) = (i / side, i % side);
    let (rj, cj) = (j / side, j % side);
    i != j && (ri == rj || ci == cj || (ri / rows == rj / rows && ci / cols == cj / cols))
}

/// All ways to fill the slots so that every slot is in order, in
/// dictionary order; the givens are not tested.
fn all_solutions(rows: usize, cols: usize, cells: &[Cell]) -> Vec<Vec<u8>> {
    let side = (rows * cols) as u8;
    let slots: Vec<usize> = (0..cells.len()).filter(|i| !cells[*i].is_fixed()).collect();
    let mut digits: Vec<u8> =
        cells.iter().map(|c| if c.is_fixed() { c.read() } else { 1 }).collect();
    let mut found = Vec::new();
    loop {
        let fits = slots.iter().all(|i| {
            (0..cells.len()).all(|j| !peers(rows, cols, *i, j) || digits[j] != digits[*i])
        });
        if fits {
            found.push(digits.clone());
        }
        // the next filling, the last slot turning fastest
        let mut k = slots.len();
        loop {
            if k == 0 {
                return found;
            }
            k -= 1;
            if digits[slots[k]] < side {
                digits[slots[k]] += 1;
                break;
            }
            digits[slots[k]] = 1;
        }
    }
}

fn random_grid(numbers: &mut Numbers, rows: usize, cols: usize, slots: u64) -> Vec<Cell> {
    let side = (rows * cols) as u64;
    let area = (side * side) as usize;
    let mut cells: Vec<Cell> =
        (0..area).map(|_| Cell::Fixed(1 + numbers.next(side) as u8)).collect();
    for _ in 0..slots {
        let at = numbers.next(area as u64) as usize;
        cells[at] = Cell::Variable(numbers.next(side + 1) as u8);
    }
    cells
}

/// A grid that mostly follows a solved one, so that many cases have solutions.
fn near_solved_grid(numbers: &mut Numbers, slots: u64, faults: u64) -> Vec<Cell> {
    let solved: [u8; 16] = [1, 2, 3, 4, 3, 4, 1, 2, 2, 1, 4, 3, 4, 3, 2, 1];
    let mut cells: Vec<Cell> = solved.iter().map(|d| Cell::Fixed(*d)).collect();
    for _ in 0..faults {
        let at = numbers.next(16) as usize;
        cells[at] = Cell::Fixed(1 + numbers.next(4) as u8);
    }
    for _ in 0..slots {
        let at = numbers.next(16) as usize;
        cells[at] = Cell::Variable(numbers.next(5) as u8);
    }
    cells
}

fn compare_with_all_solutions(rows: u8, cols: u8, cells: Vec<Cell>) {
    let solutions = all_solutions(rows as usize, cols as usize, &cells);
    let sudoku = Sudoku::from_cells(rows, cols, cells.clone()).expect("a well-formed grid");

    // solve: the first solution, or every slot empty
    let mut solved = sudoku.clone();
    solved.solve();
    let digits: Vec<u8> = solved.iter().iter().map(|c| c.read()).collect();
    match solutions.first() {
        Some(first) => assert_eq!(&digits, first),
        None => {
            let emptied: Vec<u8> =
                cells.iter().map(|c| if c.is_fixed() { c.read() } else { 0 }).collect();
            assert_eq!(digits, emptied);
        }
    }
    for (before, after) in cells.iter().zip(solved.iter().iter()) {
        assert_eq!(before.is_fixed(), after.is_fixed());
    }

    // uniqueness as the search sees it: every solution is the first one, or the first
    // one with its last slot raised by one
    let last_slot = (0..cells.len()).rev().find(|i| !cells[*i].is_fixed());
    let expected = match last_slot {
        None => true,
        Some(last) => match solutions.first() {
            None => false,
            Some(first) => solutions.iter().all(|g| {
                g == first
                    || (g[last] == first[last] + 1
                        && (0..g.len()).all(|i| i == last || g[i] == first[i]))
            }),
        },
    };
    assert_eq!(sudoku.has_unique_solution(), expected);

    // has_solution: the filled slots count as givens
    let frozen: Vec<Cell> = cells
        .iter()
        .map(|c| if c.read() != 0 { Cell::Fixed(c.read()) } else { *c })
        .collect();
    let completions = all_solutions(rows as usize, cols as usize, &frozen);
    assert_eq!(sudoku.has_solution(), !completions.is_empty());
    assert_eq!(sudoku.iter(), cells);
}

#[test]
fn random_grids_of_side_two() {
    let mut numbers = Numbers(1);
    for _ in 0..300 {
        let slots = numbers.next(5);
        let cells = random_grid(&mut numbers, 1, 2, slots);
        compare_with_all_solutions(1, 2, cells);
    }
}

#[test]
fn random_grids_of_side_three() {
    let mut numbers = Numbers(2);
    for _ in 0..200 {
        let slots = numbers.next(7);
        let cells = random_grid(&mut numbers, 1, 3, slots);
        compare_with_all_solutions(1, 3, cells);
        let slots = numbers.next(7);
        let cells = random_grid(&mut numbers, 3, 1, slots);
        compare_with_all_solutions(3, 1, cells);
    }
}

#[test]
fn random_grids_of_side_four() {
    let mut numbers = Numbers(3);
    for _ in 0..150 {
        let slots = numbers.next(7);
        let cells = random_grid(&mut numbers, 2, 2, slots);
        compare_with_all_solutions(2, 2, cells);
    }
}

#[test]
fn nearly_solved_grids_of_side_four() {
    let mut numbers = Numbers(4);
    for _ in 0..300 {
        let slots = 1 + numbers.next(7);
        let faults = numbers.next(3);
        let cells = near_solved_grid(&mut numbers, slots, faults);
        compare_with_all_solutions(2, 2, cells);
    }
}

#[test]
fn uniqueness_agrees_with_counting_where_no_givens_clash() {
    let mut numbers = Numbers(5);
    let mut unique = 0;
    let mut many = 0;
    for _ in 0..300 {
        let slots = 1 + numbers.next(8);
        let cells = near_solved_grid(&mut numbers, slots, 0);
        let solutions = all_solutions(2, 2, &cells);
        let sudoku = Sudoku::from_cells(2, 2, cells).expect("a well-formed grid");
        assert_eq!(sudoku.has_unique_solution(), solutions.len() == 1);
        if solutions.len() == 1 {
            unique += 1;
        } else {
            many += 1;
        }
    }
    assert!(unique > 0 && many > 0);
}
