use vstd::prelude::*;
use crate::text::{show_digit, shown_text};

verus! {

/// One square of the grid: a given digit, or a slot that can still change.
#[derive(Clone, Copy, Debug, PartialEq, Eq, Structural)]
pub enum Cell {
    /// A digit that belongs to the puzzle and never changes.
    Fixed(u8),
    /// A slot for the solver or the player; `0` means that it is empty.
    Variable(u8),
}

impl Cell {
    /// The digit held by the cell; `0` stands for an empty slot.
    pub open spec fn value(self) -> u8 {
        match self {
            Cell::Fixed(v) => v,
            Cell::Variable(v) => v,
        }
    }

    /// The cell as it is after an attempt to write `new_value` into it:
    /// a given digit stays, a slot takes the new value.
    pub open spec fn with_value(self, new_value: u8) -> Cell {
        match self {
            Cell::Fixed(v) => Cell::Fixed(v),
            Cell::Variable(_) => Cell::Variable(new_value),
        }
    }

    /// The cell as it is after freezing: a filled slot becomes a given.
    pub open spec fn frozen(self) -> Cell {
        match self {
            Cell::Fixed(v) => Cell::Fixed(v),
            Cell::Variable(v) => if v != 0 {
                Cell::Fixed(v)
            } else {
                Cell::Variable(v)
            },
        }
    }

    /// The cell with its slot emptied; a given digit stays.
    pub open spec fn cleared(self) -> Cell {
        self.with_value(0)
    }

    pub fn read(&self) -> (v: u8)
        ensures
            v == self.value(),
    {
        match self {
            Cell::Fixed(inner) => *inner,
            Cell::Variable(inner) => *inner,
        }
    }

    /// What the cell shows: nothing when it is empty, else its digit.
    pub fn text(&self) -> (text: String)
        ensures
            text@ == shown_text(self.value()),
    {
        show_digit(self.read())
    }

    pub fn is_fixed(&self) -> (b: bool)
        ensures
            b == (*self is Fixed),
    {
        match self {
            Cell::Fixed(_) => true,
            Cell::Variable(_) => false,
        }
    }

    /// Writes `new_value` into a slot.  On a given digit this does nothing.
    pub fn set(&mut self, new_value: u8)
        ensures
            *final(self) == old(self).with_value(new_value),
            *old(self) is Fixed ==> *final(self) == *old(self),
    {
        match self {
            Cell::Fixed(_) => {},
            Cell::Variable(_) => {
                *self = Cell::Variable(new_value);
            },
        }
    }
}

impl Default for Cell {
    fn default() -> (cell: Cell)
        ensures
            cell == Cell::Variable(0),
    {
        Cell::Variable(0)
    }
}

} // verus!
