use vstd::prelude::*;

verus! {

/// What the player can ask of the game.
#[derive(Debug)]
#[non_exhaustive]
pub enum Message {
    /// The text of the cell at `cell_index`, given as `(row, column)`, was
    /// edited and now reads `new_value`.
    ChangedCell { new_value: String, cell_index: (usize, usize) },
    /// The game is to be saved or loaded.
    FileOp(FileOp),
    /// A new puzzle is to be generated.
    Regenerate,
}

/// The two things that can be done with a save file.
#[derive(Debug)]
pub enum FileOp {
    Save,
    Load,
}

impl Clone for FileOp {
    fn clone(&self) -> (copy: Self)
        ensures
            copy == *self,
    {
        match self {
            FileOp::Save => FileOp::Save,
            FileOp::Load => FileOp::Load,
        }
    }
}

impl Clone for Message {
    fn clone(&self) -> (copy: Self)
        ensures
            copy == *self,
    {
        match self {
            Message::ChangedCell { new_value, cell_index } => Message::ChangedCell {
                new_value: new_value.clone(),
                cell_index: (cell_index.0, cell_index.1),
            },
            Message::FileOp(op) => Message::FileOp(op.clone()),
            Message::Regenerate => Message::Regenerate,
        }
    }
}

} // verus!
