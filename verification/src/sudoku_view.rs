use vstd::prelude::*;
use crate::cell::Cell;
use crate::message::Message;
use crate::sudoku::Sudoku;
use crate::generate::drawn_puzzle;
use crate::prune::{given_count, is_minimal};
use crate::text::{parse_digit, parsed_u8};
use crate::unique::{exactly_one_solution, unique_by_search};

verus! {

/// The game on the table: a grid that the player edits through messages.
pub struct SudokuView {
    pub sudoku: Sudoku,
}

/// The cell after the player has left `text` in it.  A text that reads as
/// a digit from 1 to `side` puts that digit into a slot; any other text,
/// the empty one among them, empties the slot.  A given never changes.
pub open spec fn after_entry(cell: Cell, side: int, text: Seq<char>) -> Cell {
    match parsed_u8(text) {
        Some(v) => if 1 <= v <= side {
            cell.with_value(v)
        } else {
            cell.with_value(0)
        },
        None => cell.with_value(0),
    }
}

impl SudokuView {
    /// A fresh game of classic Sudoku: a random puzzle with one solution,
    /// made of a solved grid from which up to 50 givens were taken.
    pub fn new() -> (view: Self)
        ensures
            view.sudoku.wf(),
            view.sudoku.rows() == 3,
            view.sudoku.cols() == 3,
            unique_by_search(view.sudoku@, 3, 3),
            exactly_one_solution(view.sudoku@, 3, 3),
            forall|i: int|
                0 <= i < view.sudoku@.len() ==> (#[trigger] view.sudoku@[i]) is Fixed
                    || view.sudoku@[i] == Cell::Variable(0),
            view.sudoku@.len() <= given_count(view.sudoku@) + 50,
            view.sudoku@.len() < given_count(view.sudoku@) + 50 ==> is_minimal(view.sudoku@, 3, 3),
            drawn_puzzle(view.sudoku@, 3, 3, 50),
    {
        Self::new_from(Sudoku::generate_unsolved(3, 3, 50))
    }

    pub fn new_from(sudoku: Sudoku) -> (view: Self)
        ensures
            view.sudoku == sudoku,
    {
        Self { sudoku }
    }

    /// Applies a message to the grid.  Only an edited cell changes it: a
    /// slot takes the digit that the text reads as, and is emptied by any
    /// text that is no digit of the grid; see `after_entry`.
    pub fn update(&mut self, message: Message)
        requires
            old(self).sudoku.wf(),
            message matches Message::ChangedCell { cell_index, .. } ==> cell_index.0 < old(
                self,
            ).sudoku.side() && cell_index.1 < old(self).sudoku.side(),
        ensures
            final(self).sudoku.wf(),
            final(self).sudoku.same_shape(&old(self).sudoku),
            match message {
                Message::ChangedCell { new_value, cell_index } => final(self).sudoku@ == old(
                    self,
                ).sudoku@.update(
                    cell_index.0 * old(self).sudoku.side() + cell_index.1,
                    after_entry(
                        old(self).sudoku@[cell_index.0 * old(self).sudoku.side() + cell_index.1],
                        old(self).sudoku.side(),
                        new_value@,
                    ),
                ),
                _ => final(self).sudoku@ == old(self).sudoku@,
            },
    {
        if let Message::ChangedCell { new_value, cell_index } = message {
            let max_value: u8 = self.sudoku.length_u8();
            let ghost idx = cell_index.0 * self.sudoku.side() + cell_index.1;
            proof {
                crate::arith::lemma_compose_bound(
                    cell_index.0 as int,
                    cell_index.1 as int,
                    self.sudoku.side(),
                    self.sudoku.side(),
                );
            }
            if new_value.as_str().is_empty() {
                self.sudoku.set(cell_index, 0);
            } else if let Some(val) = parse_digit(new_value.as_str()) {
                if 1 <= val && val <= max_value {
                    self.sudoku.set(cell_index, val);
                } else {
                    self.sudoku.set(cell_index, 0);
                }
            } else {
                self.sudoku.set(cell_index, 0);
            }
        }
    }
}

} // verus!
