use sudoku::{Cell, CellInput, FileOp, Message, SaveButtons, Sudoku, SudokuView};

fn grid_of(rows: u8, cols: u8, givens: &[u8]) -> Sudoku {
    let cells: Vec<Cell> = givens
        .iter()
        .map(|v| if *v == 0 { Cell::Variable(0) } else { Cell::Fixed(*v) })
        .collect();
    Sudoku::from_cells(rows, cols, cells).expect("a well-formed grid")
}

fn entry(text: &str, at: (usize, usize)) -> Message {
    Message::ChangedCell { new_value: text.to_string(), cell_index: at }
}

#[test]
fn nothing_is_remembered_at_first() {
    let mut buttons = SaveButtons::new();
    assert!(buttons.needs_path());
    assert_eq!(buttons.save(None), None);
    assert!(buttons.needs_path());
}

#[test]
fn the_first_chosen_file_is_kept() {
    let mut buttons = SaveButtons::new();
    assert_eq!(buttons.save(Some("first.sudoku".to_string())), Some("first.sudoku".to_string()));
    assert!(!buttons.needs_path());
    assert_eq!(buttons.save(Some("second.sudoku".to_string())), Some("first.sudoku".to_string()));
    assert_eq!(buttons.save(None), Some("first.sudoku".to_string()));
}

#[test]
fn reset_forgets_the_file() {
    let mut buttons = SaveButtons::new();
    buttons.save(Some("first.sudoku".to_string()));
    buttons.reset();
    assert!(buttons.needs_path());
    assert_eq!(buttons.save(None), None);
    assert_eq!(buttons.save(Some("second.sudoku".to_string())), Some("second.sudoku".to_string()));
}

#[test]
fn loading_remembers_the_file_even_if_unreadable() {
    let mut buttons = SaveButtons::new();
    assert_eq!(buttons.load_from_path("gone.sudoku".to_string(), None), None);
    assert!(!buttons.needs_path());
    assert_eq!(buttons.save(None), Some("gone.sudoku".to_string()));
    let bytes = vec![1u8, 2, 3];
    assert_eq!(buttons.load_from_path("here.sudoku".to_string(), Some(bytes.clone())), Some(bytes));
    assert_eq!(buttons.save(None), Some("here.sudoku".to_string()));
}

#[test]
fn loading_without_a_choice_does_nothing() {
    let mut buttons = SaveButtons::new();
    assert_eq!(buttons.load(None, Some(vec![9u8])), None);
    assert!(buttons.needs_path());
    buttons.save(Some("kept.sudoku".to_string()));
    assert_eq!(buttons.load(None, None), None);
    assert_eq!(buttons.save(None), Some("kept.sudoku".to_string()));
    assert_eq!(buttons.load(Some("other.sudoku".to_string()), Some(vec![7u8])), Some(vec![7u8]));
    assert_eq!(buttons.save(None), Some("other.sudoku".to_string()));
    assert_eq!(buttons.load(Some("bad.sudoku".to_string()), None), None);
    assert_eq!(buttons.save(None), Some("bad.sudoku".to_string()));
}

#[test]
fn cell_input_keeps_its_flag() {
    assert!(CellInput::new(true).is_valid());
    assert!(!CellInput::new(false).is_valid());
}

#[test]
fn messages_can_be_copied() {
    let message = entry("12", (3, 4));
    match message.clone() {
        Message::ChangedCell { new_value, cell_index } => {
            assert_eq!(new_value, "12");
            assert_eq!(cell_index, (3, 4));
        }
        _ => panic!("another message"),
    }
    assert!(matches!(Message::FileOp(FileOp::Save).clone(), Message::FileOp(FileOp::Save)));
    assert!(matches!(Message::FileOp(FileOp::Load).clone(), Message::FileOp(FileOp::Load)));
    assert!(matches!(Message::Regenerate.clone(), Message::Regenerate));
    assert!(matches!(FileOp::Load.clone(), FileOp::Load));
}

#[test]
fn a_new_game_is_a_classic_puzzle() {
    let view = SudokuView::new();
    assert_eq!(view.sudoku.length(), 9);
    assert!(view.sudoku.has_unique_solution());
    assert!(view.sudoku.fixeds_iter().len() >= 31);
}

#[test]
fn entries_write_digits_into_slots() {
    let mut view = SudokuView::new_from(Sudoku::default());
    view.update(entry("5", (2, 3)));
    assert_eq!(view.sudoku.get((2, 3)), Cell::Variable(5));
    view.update(entry("+9", (2, 3)));
    assert_eq!(view.sudoku.get((2, 3)), Cell::Variable(9));
    view.update(entry("01", (0, 0)));
    assert_eq!(view.sudoku.get((0, 0)), Cell::Variable(1));
    view.update(entry("", (2, 3)));
    assert_eq!(view.sudoku.get((2, 3)), Cell::Variable(0));
    assert_eq!(view.sudoku.iter().iter().filter(|c| c.read() != 0).count(), 1);
}

#[test]
fn entries_that_are_no_digit_of_the_grid_empty_the_slot() {
    let mut view = SudokuView::new_from(Sudoku::default());
    view.update(entry("7", (0, 0)));
    for text in ["0", "10", "255", "256", "x", "abc", " 5", "5 ", "-1", "5.0", "٣", "+"] {
        view.update(entry("5", (2, 3)));
        assert_eq!(view.sudoku.get((2, 3)), Cell::Variable(5));
        view.update(entry(text, (2, 3)));
        assert_eq!(view.sudoku.get((2, 3)), Cell::Variable(0), "{:?}", text);
        // every other cell is as it was
        assert_eq!(view.sudoku.get((0, 0)), Cell::Variable(7));
        assert_eq!(view.sudoku.iter().iter().filter(|c| c.read() != 0).count(), 1);
    }
    let mut small = SudokuView::new_from(Sudoku::new(1, 2));
    small.update(entry("2", (1, 1)));
    assert_eq!(small.sudoku.get((1, 1)), Cell::Variable(2));
    small.update(entry("3", (1, 1)));
    assert_eq!(small.sudoku.get((1, 1)), Cell::Variable(0));
    small.update(entry("2", (1, 1)));
    assert_eq!(small.sudoku.get((1, 1)), Cell::Variable(2));
}

#[test]
fn entries_leave_givens_alone() {
    let mut view = SudokuView::new_from(grid_of(1, 2, &[1, 0, 0, 0]));
    view.update(entry("2", (0, 0)));
    assert_eq!(view.sudoku.get((0, 0)), Cell::Fixed(1));
    view.update(entry("", (0, 0)));
    assert_eq!(view.sudoku.get((0, 0)), Cell::Fixed(1));
    view.update(entry("abc", (0, 0)));
    assert_eq!(view.sudoku.get((0, 0)), Cell::Fixed(1));
    view.update(entry("0", (0, 0)));
    assert_eq!(view.sudoku.get((0, 0)), Cell::Fixed(1));
}

#[test]
fn other_messages_leave_the_grid_alone() {
    let mut view = SudokuView::new_from(grid_of(1, 2, &[1, 0, 0, 0]));
    view.update(entry("2", (1, 0)));
    let before = view.sudoku.iter();
    view.update(Message::Regenerate);
    view.update(Message::FileOp(FileOp::Save));
    view.update(Message::FileOp(FileOp::Load));
    assert_eq!(view.sudoku.iter(), before);
}
