use vstd::prelude::*;

verus! {

/// Remembers the file that the game was last saved to or loaded from.
/// The dialogs and the file system are the caller's business: it hands in
/// what they answered and is told which file to write.
pub struct SaveButtons {
    file_path: Option<String>,
}

impl SaveButtons {
    /// The path of the remembered file, if there is one.
    pub closed spec fn path(&self) -> Option<Seq<char>> {
        match self.file_path {
            Some(path) => Some(path@),
            None => None,
        }
    }

    pub fn new() -> (buttons: Self)
        ensures
            buttons.path() is None,
    {
        Self { file_path: None }
    }

    /// Forgets the remembered file.
    pub fn reset(&mut self)
        ensures
            final(self).path() is None,
    {
        self.file_path = None;
    }

    /// Whether `save` has to be told a path: no file is remembered yet.
    pub fn needs_path(&self) -> (needed: bool)
        ensures
            needed == (self.path() is None),
    {
        self.file_path.is_none()
    }

    /// Decides where to save.  A remembered file is kept and `chosen` is
    /// not looked at; where none is remembered, `chosen` (the path picked
    /// by the player, if any) is remembered from now on.  The result is
    /// the file to write to, or `None` if there is still none.
    pub fn save(&mut self, chosen: Option<String>) -> (target: Option<String>)
        ensures
            final(self).path() == match old(self).path() {
                Some(path) => Some(path),
                None => match chosen {
                    Some(path) => Some(path@),
                    None => None,
                },
            },
            match target {
                Some(path) => final(self).path() == Some(path@),
                None => final(self).path() is None,
            },
    {
        if self.file_path.is_none() {
            self.file_path = chosen;
        }
        match &self.file_path {
            Some(save_file_path) => Some(save_file_path.clone()),
            None => None,
        }
    }

    /// Records that the game was loaded from `path`, whether or not the
    /// file could be read, and hands on what was read from it.
    pub fn load_from_path(&mut self, path: String, file_contents: Option<Vec<u8>>) -> (loaded:
        Option<Vec<u8>>)
        ensures
            final(self).path() == Some(path@),
            loaded == file_contents,
    {
        self.file_path = Some(path);
        file_contents
    }

    /// Loads from the file that the player picked, if any: with no file
    /// picked nothing changes and nothing is loaded.
    pub fn load(&mut self, chosen: Option<String>, file_contents: Option<Vec<u8>>) -> (loaded:
        Option<Vec<u8>>)
        ensures
            match chosen {
                Some(path) => final(self).path() == Some(path@) && loaded == file_contents,
                None => final(self).path() == old(self).path() && loaded is None,
            },
    {
        match chosen {
            Some(file_path) => self.load_from_path(file_path, file_contents),
            None => None,
        }
    }
}

} // verus!
