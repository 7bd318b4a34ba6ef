//! Difficulty levels and the number of cells each one blanks per row.

use vstd::prelude::*;

verus! {

/// How hard a puzzle is to be: the harder, the more cells are blanked in every row.
#[derive(Clone, Copy, Debug, PartialEq, Eq, Structural)]
pub enum Difficulty {
    Easy,
    Medium,
    Hard,
}

impl Difficulty {
    /// The number of cells that this level blanks in every row.
    pub open spec fn removal_count(self) -> nat {
        match self {
            Difficulty::Easy => 4,
            Difficulty::Medium => 5,
            Difficulty::Hard => 6,
        }
    }

    /// The number of cells to blank in every row: 4 for easy, 5 for medium, 6
    /// for hard. It is never zero and never more than the nine cells of a row.
    pub fn removals(self) -> (count: usize)
        ensures
            count == self.removal_count(),
            1 <= count <= 9,
    {
        match self {
            Difficulty::Easy => 4,
            Difficulty::Medium => 5,
            Difficulty::Hard => 6,
        }
    }
}

impl Default for Difficulty {
    /// The level a new session starts with.
    fn default() -> (level: Difficulty)
        ensures
            level == Difficulty::Easy,
    {
        Difficulty::Easy
    }
}

} // verus!
