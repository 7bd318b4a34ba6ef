//! A playing session: the solution, the puzzle carved from it, and the settings
//! that the player chose.

use vstd::prelude::*;
use crate::carve::{
    carve_row, carve_row_spec, carve_with_draws, is_carve_outcome, is_carving,
    lemma_nothing_to_carve_is_allowed, lemma_solution_can_be_carved, refusal, refusal_of,
    row_carved, row_refusal, row_refusal_of,
};
use crate::difficulty::Difficulty;
use crate::error::GenerationError;
use crate::grid::{empty_board, Cell, Grid};
use crate::random::{fresh_attempt_draws, fresh_draws};
use crate::rules::is_solution;
use crate::solution::{
    after_attempt, is_attempt_outcome, is_retry_run, solution_from_draws, solution_spec, DeadEnd,
    Retry,
};

verus! {

/// The number of attempts at a solution after which generation gives up.
///
/// Roughly one attempt in three hundred gets through, so that this many
/// attempts all fail only when the draws are not random at all.
pub const MAX_ATTEMPTS: usize = 100000;

/// The number of draws that carving may spend on one row.
///
/// A draw hits a cell that is still to be blanked at least once in nine times,
/// so that a row with enough non-blank cells is done long before.
pub const DRAWS_PER_ROW: usize = 1024;

/// The number of draws that carving may spend on a whole grid.
pub const DRAWS_PER_GRID: usize = 9 * DRAWS_PER_ROW;

/// The outcome of a step that, when it succeeds, keeps its grid in the session:
/// the grid kept, or the error.
pub open spec fn kept(res: Result<(), GenerationError>, grid: Grid) -> Result<
    Grid,
    GenerationError,
> {
    match res {
        Ok(_) => Ok(grid),
        Err(e) => Err(e),
    }
}

/// `res` and `after` are what carving the row `before` from the first of
/// `draws` on leads to: the carved row, or the error and the row as it was.
pub open spec fn is_row_outcome(
    res: Result<(), GenerationError>,
    before: Seq<Cell>,
    after: Seq<Cell>,
    removals: nat,
    draws: Seq<u32>,
) -> bool {
    match carve_row_spec(before, removals, draws, 0) {
        Ok((carved, _)) => res is Ok && after == carved,
        Err(e) => res == Err::<(), GenerationError>(e) && after == before,
    }
}

/// The state of a session.
///
/// `puzzle` is the grid that the player works on: it starts as the carved
/// puzzle and takes the player's entries. `solution` is the solved grid it was
/// carved from.
#[derive(Clone, Copy, Debug)]
pub struct SudokuApp {
    pub puzzle: Grid,
    pub solution: Grid,
    pub hints: bool,
    pub difficulty: Difficulty,
    pub display_results: bool,
}

/// What the display says of a cell of the puzzle.
#[derive(Clone, Copy, Debug, PartialEq, Eq, Structural)]
pub enum Hint {
    /// Hints are off: nothing is said.
    Hidden,
    /// The cell holds what the solution holds there.
    Right,
    /// The cell differs from the solution.
    Wrong,
}

/// What the player did.
#[derive(Clone, Copy, Debug, PartialEq, Eq, Structural)]
pub enum Event {
    /// Switched the hints on or off.
    ToggleHints,
    /// Chose a difficulty for the puzzles to come.
    SetDifficulty(Difficulty),
    /// Asked for a new puzzle.
    Generate,
    /// Asked for the puzzle to be checked against the solution.
    Validate,
    /// Chose, in view of the results, to start over with a new puzzle.
    TryAgain,
    /// Chose, in view of the results, to go on with the puzzle at hand.
    Continue,
    /// Wrote `cell` at (`row`, `col`) of the puzzle.
    Enter { row: usize, col: usize, cell: Cell },
}

impl Default for SudokuApp {
    /// A session before any puzzle was generated: both grids blank, hints off,
    /// the easy level, no results shown.
    fn default() -> (app: SudokuApp)
        ensures
            app.puzzle@ == empty_board(),
            app.solution@ == empty_board(),
            !app.hints,
            app.difficulty == Difficulty::Easy,
            !app.display_results,
    {
        SudokuApp {
            puzzle: Grid::new(),
            solution: Grid::new(),
            hints: false,
            difficulty: Difficulty::Easy,
            display_results: false,
        }
    }
}

impl SudokuApp {
    /// `self` differs from `before` in its two grids at most.
    pub open spec fn same_settings(&self, before: &SudokuApp) -> bool {
        &&& self.hints == before.hints
        &&& self.difficulty == before.difficulty
        &&& self.display_results == before.display_results
    }

    /// Makes one attempt at a solved grid with fresh draws.
    ///
    /// Whether the attempt gets through depends on the draws: the outcome is
    /// the one that the 81 words drawn determine.
    pub fn try_make_solution() -> (res: Result<Grid, DeadEnd>)
        ensures
            exists|draws: Seq<u32>| draws.len() == 81 && is_attempt_outcome(res, draws),
            match res {
                Ok(grid) => is_solution(grid@),
                Err(e) => e.row < 9 && e.col < 9,
            },
    {
        let draws = fresh_attempt_draws();
        let res = solution_from_draws(&draws);
        assert(draws@.len() == 81 && is_attempt_outcome(res, draws@));
        res
    }

    /// Replaces the solution by a newly generated one: attempts are made, each
    /// from scratch, until one gets through.
    ///
    /// Gives up after `MAX_ATTEMPTS` attempts, and then leaves the session as it was.
    pub fn generate_solution(&mut self) -> (res: Result<(), GenerationError>)
        ensures
            exists|made: Seq<Seq<u32>>|
                is_retry_run(
                    kept(res, final(self).solution),
                    made,
                    MAX_ATTEMPTS as nat,
                ),
            match res {
                Ok(_) => {
                    &&& is_solution(final(self).solution@)
                    &&& final(self).puzzle == old(self).puzzle
                    &&& final(self).same_settings(old(self))
                },
                Err(e) => e == GenerationError::AttemptsExhausted && *final(self) == *old(self),
            },
    {
        self.generate_solution_within(MAX_ATTEMPTS)
    }

    /// Replaces the solution by a newly generated one, making `max_attempts`
    /// attempts at most.
    ///
    /// Attempts are made with fresh draws, one after the other. The first that
    /// gets through ends the call, and its grid becomes the solution; no
    /// attempt is made after it, and nothing of the attempts before it is kept.
    /// The call fails, and leaves the session as it was, only when
    /// `max_attempts` attempts were made and each ran into a dead end; with no
    /// attempt allowed it always fails.
    pub fn generate_solution_within(&mut self, max_attempts: usize) -> (res: Result<
        (),
        GenerationError,
    >)
        ensures
            exists|made: Seq<Seq<u32>>|
                is_retry_run(
                    kept(res, final(self).solution),
                    made,
                    max_attempts as nat,
                ),
            match res {
                Ok(_) => {
                    &&& max_attempts > 0
                    &&& is_solution(final(self).solution@)
                    &&& final(self).puzzle == old(self).puzzle
                    &&& final(self).same_settings(old(self))
                },
                Err(e) => e == GenerationError::AttemptsExhausted && *final(self) == *old(self),
            },
    {
        if max_attempts == 0 {
            assert(is_retry_run(
                kept(Err(GenerationError::AttemptsExhausted), self.solution),
                Seq::empty(),
                0,
            ));
            return Err(GenerationError::AttemptsExhausted);
        }
        let ghost mut made: Seq<Seq<u32>> = Seq::empty();
        let mut attempts: usize = 0;
        loop
            invariant
                *self == *old(self),
                attempts < max_attempts,
                made.len() == attempts,
                forall|j: int| 0 <= j < made.len() ==> #[trigger] solution_spec(made[j]) is Err,
            decreases max_attempts - attempts,
        {
            let outcome = Self::try_make_solution();
            proof {
                let draws = choose|draws: Seq<u32>|
                    draws.len() == 81 && is_attempt_outcome(outcome, draws);
                made = made.push(draws);
            }
            attempts += 1;
            match after_attempt(outcome, attempts, max_attempts) {
                Retry::Done(grid) => {
                    self.solution = grid;
                    assert(is_retry_run(kept(Ok(()), grid), made, max_attempts as nat));
                    return Ok(());
                },
                Retry::Again => {},
                Retry::GiveUp => {
                    assert(is_retry_run(
                        kept(Err(GenerationError::AttemptsExhausted), self.solution),
                        made,
                        max_attempts as nat,
                    ));
                    return Err(GenerationError::AttemptsExhausted);
                },
            }
        }
    }

    /// Carves one row for the session's difficulty with fresh draws: blanks as
    /// many of its non-blank cells as the difficulty asks for.
    ///
    /// A row with fewer non-blank cells than that is refused at once, with
    /// `NotEnoughCells` and before anything is drawn. Any other row is carved
    /// as the `DRAWS_PER_ROW` words drawn determine, and the call fails with
    /// `DrawsExhausted` when they did not suffice. A call that fails leaves
    /// the row as it was.
    pub fn try_make_puzzle(&self, row: &mut [Cell; 9]) -> (res: Result<(), GenerationError>)
        ensures
            match res {
                Ok(_) => row_carved(old(row)@, final(row)@, self.difficulty.removal_count()),
                Err(e) => *final(row) == *old(row),
            },
            row_refusal(old(row)@, self.difficulty.removal_count()) matches Some(e) ==> res
                == Err::<(), GenerationError>(e),
            row_refusal(old(row)@, self.difficulty.removal_count()) is None ==> {
                &&& res is Err ==> res == Err::<(), GenerationError>(GenerationError::DrawsExhausted)
                &&& exists|draws: Seq<u32>|
                    draws.len() == DRAWS_PER_ROW && is_row_outcome(
                        res,
                        old(row)@,
                        final(row)@,
                        self.difficulty.removal_count(),
                        draws,
                    )
            },
    {
        let removals: usize = self.difficulty.removals();
        match row_refusal_of(row, removals) {
            Some(e) => {
                return Err(e);
            },
            None => {},
        }
        let draws = fresh_draws(DRAWS_PER_ROW);
        let ghost before = row@;
        match carve_row(row, removals, draws.as_slice(), 0) {
            Ok((carved, _)) => {
                *row = carved;
                assert(is_row_outcome(Ok(()), before, row@, removals as nat, draws@));
                Ok(())
            },
            Err(e) => {
                assert(is_row_outcome(Err(e), before, row@, removals as nat, draws@));
                Err(e)
            },
        }
    }

    /// Replaces the puzzle by a new carving of the solution for the session's
    /// difficulty.
    ///
    /// A solution with a row of fewer non-blank cells than the difficulty
    /// asks for is refused at once, with `NotEnoughCells`. Any other is carved
    /// as the `DRAWS_PER_GRID` words drawn determine, and the call fails with
    /// `DrawsExhausted` when they did not suffice. A call that fails leaves the
    /// session as it was.
    pub fn generate_puzzle(&mut self) -> (res: Result<(), GenerationError>)
        ensures
            old(self).carved_to(res, final(self), old(self).difficulty.removal_count()),
    {
        self.generate_puzzle_with(self.difficulty.removals())
    }

    /// `next` and `res` are what carving the solution of `self` with `removals`
    /// cells to blank in every row leads to.
    pub open spec fn carved_to(
        &self,
        res: Result<(), GenerationError>,
        next: &SudokuApp,
        removals: nat,
    ) -> bool {
        &&& match res {
            Ok(_) => {
                &&& is_carving(self.solution@, next.puzzle@, removals)
                &&& next.solution == self.solution
                &&& next.same_settings(self)
            },
            Err(e) => *next == *self,
        }
        &&& refusal(self.solution@, removals) matches Some(e) ==> res == Err::<
            (),
            GenerationError,
        >(e)
        &&& refusal(self.solution@, removals) is None ==> {
            &&& res is Err ==> res == Err::<(), GenerationError>(GenerationError::DrawsExhausted)
            &&& exists|draws: Seq<u32>|
                draws.len() == DRAWS_PER_GRID && is_carve_outcome(
                    kept(res, next.puzzle),
                    self.solution@,
                    removals,
                    draws,
                )
        }
        &&& removals == 0 ==> res is Ok && next.puzzle == self.solution
    }

    /// Replaces the puzzle by a new carving of the solution, with `removals`
    /// cells blanked in every row.
    ///
    /// A removal count over nine is refused at once, with
    /// `RemovalCountTooLarge`, and so is, with `NotEnoughCells`, a solution with
    /// a row of fewer non-blank cells than `removals`. Any other is carved as
    /// the `DRAWS_PER_GRID` words drawn determine, and the call fails with
    /// `DrawsExhausted` when they did not suffice. A call that fails leaves the
    /// session as it was. With `removals` zero the puzzle is the solution.
    pub fn generate_puzzle_with(&mut self, removals: usize) -> (res: Result<(), GenerationError>)
        ensures
            old(self).carved_to(res, final(self), removals as nat),
    {
        match refusal_of(&self.solution, removals) {
            Some(e) => {
                proof {
                    lemma_nothing_to_carve_is_allowed(self.solution@);
                }
                return Err(e);
            },
            None => {},
        }
        let draws = fresh_draws(DRAWS_PER_GRID);
        let outcome = carve_with_draws(&self.solution, removals, draws.as_slice());
        match outcome {
            Ok(puzzle) => {
                self.puzzle = puzzle;
                assert(is_carve_outcome(
                    kept(Ok(()), self.puzzle),
                    self.solution@,
                    removals as nat,
                    draws@,
                ));
                Ok(())
            },
            Err(e) => {
                assert(is_carve_outcome(
                    kept(Err(e), self.puzzle),
                    self.solution@,
                    removals as nat,
                    draws@,
                ));
                Err(e)
            },
        }
    }

    /// `next` and `res` are what generating a solution and carving a puzzle from
    /// it lead to from `self`, when `made` are the draws of the attempts gone
    /// through and `draws` those of the carving.
    ///
    /// The solution is the grid of the last attempt in `made`, the one attempt
    /// among them that got through, and the puzzle is carved from it for the
    /// difficulty of `self`. Failure leaves the session as it was, and comes
    /// with `AttemptsExhausted` when all `MAX_ATTEMPTS` attempts ran into a
    /// dead end, or with the error of the carving.
    pub open spec fn created_from(
        &self,
        res: Result<(), GenerationError>,
        next: &SudokuApp,
        made: Seq<Seq<u32>>,
        draws: Seq<u32>,
    ) -> bool {
        let removals = self.difficulty.removal_count();
        match res {
            Ok(_) => {
                &&& next.same_settings(self)
                &&& is_retry_run(Ok(next.solution), made, MAX_ATTEMPTS as nat)
                &&& is_carve_outcome(Ok(next.puzzle), next.solution@, removals, draws)
            },
            Err(e) => {
                &&& *next == *self
                &&& is_retry_run(Err(e), made, MAX_ATTEMPTS as nat) || exists|solution: Grid|
                    is_retry_run(Ok(solution), made, MAX_ATTEMPTS as nat) && #[trigger] is_carve_outcome(
                        Err(e),
                        solution@,
                        removals,
                        draws,
                    )
            },
        }
    }

    /// `next` and `res` are what generating a solution and carving a puzzle from
    /// it lead to from `self`, for the draws that were made.
    pub open spec fn created(&self, res: Result<(), GenerationError>, next: &SudokuApp) -> bool {
        &&& exists|made: Seq<Seq<u32>>, draws: Seq<u32>|
            draws.len() == DRAWS_PER_GRID && #[trigger] self.created_from(res, next, made, draws)
        &&& match res {
            Ok(_) => {
                &&& is_solution(next.solution@)
                &&& is_carving(next.solution@, next.puzzle@, self.difficulty.removal_count())
                &&& next.same_settings(self)
            },
            Err(e) => {
                &&& *next == *self
                &&& e == GenerationError::AttemptsExhausted || e == GenerationError::DrawsExhausted
            },
        }
    }

    /// Generates a new solution and carves a new puzzle from it.
    ///
    /// The solution is the grid of the first attempt that gets through, and
    /// the puzzle is carved from it for the session's difficulty. The call
    /// fails, and leaves the session as it was, when no attempt at a solution
    /// got through (`AttemptsExhausted`) or the draws did not suffice for the
    /// carving (`DrawsExhausted`).
    pub fn create_puzzle(&mut self) -> (res: Result<(), GenerationError>)
        ensures
            old(self).created(res, final(self)),
    {
        let previous = self.solution;
        let first = self.generate_solution();
        let ghost made = choose|made: Seq<Seq<u32>>|
            is_retry_run(kept(first, self.solution), made, MAX_ATTEMPTS as nat);
        match first {
            Err(e) => {
                assert(old(self).created_from(
                    Err(e),
                    self,
                    made,
                    Seq::new(DRAWS_PER_GRID as nat, |i: int| 0u32),
                ));
                return Err(e);
            },
            Ok(_) => {},
        }
        let ghost solution = self.solution;
        let ghost removals = self.difficulty.removal_count();
        proof {
            lemma_solution_can_be_carved(self.solution@, removals);
        }
        let second = self.generate_puzzle();
        let ghost draws = choose|draws: Seq<u32>|
            draws.len() == DRAWS_PER_GRID && is_carve_outcome(
                kept(second, self.puzzle),
                solution@,
                removals,
                draws,
            );
        match second {
            Err(e) => {
                self.solution = previous;
                assert(is_carve_outcome(Err(e), solution@, removals, draws));
                assert(old(self).created_from(Err(e), self, made, draws));
                Err(e)
            },
            Ok(_) => {
                assert(old(self).created_from(Ok(()), self, made, draws));
                Ok(())
            },
        }
    }

    /// Whether the puzzle, as the player filled it, is the solution: every cell
    /// equal, none differing.
    pub fn is_solved(&self) -> (b: bool)
        ensures
            b == (self.puzzle@ == self.solution@),
    {
        self.puzzle.same_as(&self.solution)
    }

    /// What the display is to say of the cell at (`row`, `col`).
    pub fn cell_hint(&self, row: usize, col: usize) -> (hint: Hint)
        requires
            row < 9,
            col < 9,
        ensures
            hint == (if !self.hints {
                Hint::Hidden
            } else if self.puzzle@[row as int][col as int] == self.solution@[row as int][col as int] {
                Hint::Right
            } else {
                Hint::Wrong
            }),
    {
        if !self.hints {
            Hint::Hidden
        } else if self.puzzle.get(row, col) == self.solution.get(row, col) {
            Hint::Right
        } else {
            Hint::Wrong
        }
    }

    /// Whether `event` asks for a new puzzle in the state `self`.
    pub open spec fn asks_for_puzzle(&self, event: Event) -> bool {
        event == Event::Generate || (event == Event::TryAgain && self.display_results)
    }

    /// The state that follows `self` on an event that asks for no new puzzle.
    ///
    /// The settings can be changed at any time. The puzzle can be written to
    /// and checked only while no results are shown, and the results can be
    /// left only while they are shown; to go on with the puzzle at hand is
    /// open only while it is not solved. An event out of place changes nothing.
    pub open spec fn after(&self, event: Event) -> SudokuApp {
        match event {
            Event::ToggleHints => SudokuApp { hints: !self.hints, ..*self },
            Event::SetDifficulty(level) => SudokuApp { difficulty: level, ..*self },
            Event::Validate => SudokuApp { display_results: true, ..*self },
            Event::Continue => if self.display_results && self.puzzle@ != self.solution@ {
                SudokuApp { display_results: false, ..*self }
            } else {
                *self
            },
            Event::Enter { row, col, cell } => if !self.display_results && row < 9 && col < 9 {
                SudokuApp { puzzle: self.puzzle.with(row as int, col as int, cell), ..*self }
            } else {
                *self
            },
            Event::Generate | Event::TryAgain => *self,
        }
    }

    /// Takes the session from one state to the next on what the player did.
    ///
    /// An event that asks for a new puzzle replaces solution and puzzle, and
    /// `TryAgain` also puts the results away; when generation gives up, with
    /// `AttemptsExhausted` or `DrawsExhausted`, the session stays as it was.
    /// Every other event leads to `after(event)`.
    pub fn handle(&mut self, event: Event) -> (res: Result<(), GenerationError>)
        ensures
            !old(self).asks_for_puzzle(event) ==> res is Ok && *final(self) == old(self).after(event),
            old(self).asks_for_puzzle(event) ==> {
                &&& old(self).created(
                    res,
                    &SudokuApp { display_results: old(self).display_results, ..*final(self) },
                )
                &&& final(self).display_results == (old(self).display_results && !(res is Ok
                    && event == Event::TryAgain))
            },
    {
        match event {
            Event::ToggleHints => {
                self.hints = !self.hints;
                Ok(())
            },
            Event::SetDifficulty(level) => {
                self.difficulty = level;
                Ok(())
            },
            Event::Validate => {
                self.display_results = true;
                Ok(())
            },
            Event::Continue => {
                if self.display_results && !self.is_solved() {
                    self.display_results = false;
                }
                Ok(())
            },
            Event::Enter { row, col, cell } => {
                if !self.display_results && row < 9 && col < 9 {
                    self.puzzle.set(row, col, cell);
                    proof {
                        old(self).puzzle.lemma_with_is_put(row as int, col as int, cell);
                        Grid::lemma_same_view_same_grid(
                            self.puzzle,
                            old(self).puzzle.with(row as int, col as int, cell),
                        );
                    }
                }
                Ok(())
            },
            Event::Generate => {
                let res = self.create_puzzle();
                assert(SudokuApp { display_results: old(self).display_results, ..*self } == *self);
                res
            },
            Event::TryAgain => {
                if self.display_results {
                    let res = self.create_puzzle();
                    let ghost created = *self;
                    if res.is_ok() {
                        self.display_results = false;
                    }
                    assert(SudokuApp { display_results: old(self).display_results, ..*self }
                        == created);
                    res
                } else {
                    Ok(())
                }
            },
        }
    }
}

} // verus!
