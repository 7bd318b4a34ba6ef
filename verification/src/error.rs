//! Why generating a solution or a puzzle can fail.

use vstd::prelude::*;

verus! {

/// Why a grid or a puzzle could not be produced.
#[derive(Clone, Copy, Debug, PartialEq, Eq, Structural)]
pub enum GenerationError {
    /// More than nine cells were to be blanked in a row.
    RemovalCountTooLarge,
    /// A row holds fewer non-blank cells than were to be blanked in it.
    NotEnoughCells,
    /// The draws ran out before a row was done.
    DrawsExhausted,
    /// No attempt at a solution got through within the allowed number of attempts.
    AttemptsExhausted,
}

} // verus!
