use vstd::prelude::*;

verus! {

/// How the text field of a slot is to look: as usual, or marked as
/// breaking the rule.
pub struct CellInput {
    cell_is_valid: bool,
}

impl CellInput {
    /// Whether the field is drawn as usual.
    pub closed spec fn valid(&self) -> bool {
        self.cell_is_valid
    }

    pub fn new(cell_is_valid: bool) -> (input: Self)
        ensures
            input.valid() == cell_is_valid,
    {
        Self { cell_is_valid }
    }

    pub fn is_valid(&self) -> (valid: bool)
        ensures
            valid == self.valid(),
    {
        self.cell_is_valid
    }
}

} // verus!
