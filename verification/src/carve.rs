//! Carving a puzzle out of a grid: blanking a fixed number of cells in every row.
//!
//! Each draw names a column of the row at hand. A draw that names a cell which
//! is already blank is passed over; any other draw blanks its cell. A row is
//! done when the asked number of cells has been blanked.

use vstd::prelude::*;
use crate::error::GenerationError;
use crate::grid::{is_board, Cell, Grid};
use crate::rules::{complete, is_solution, lemma_complete_unit_is_full, row_of};

verus! {

/// The number of blank cells in `row`.
pub open spec fn blank_count(row: Seq<Cell>) -> nat
    decreases row.len(),
{
    if row.len() == 0 {
        0
    } else {
        blank_count(row.drop_last()) + if row.last() is Empty {
            1nat
        } else {
            0nat
        }
    }
}

/// The number of cells in `row` that are not blank.
pub open spec fn filled_count(row: Seq<Cell>) -> int {
    row.len() - blank_count(row)
}

/// `after` is `before` with some cells blanked and nothing else changed.
pub open spec fn blanked_from(before: Seq<Cell>, after: Seq<Cell>) -> bool {
    &&& after.len() == before.len()
    &&& forall|c: int| 0 <= c < after.len() ==> after[c] == before[c] || after[c] is Empty
}

/// `after` is `before` with exactly `removals` of its non-blank cells blanked.
pub open spec fn row_carved(before: Seq<Cell>, after: Seq<Cell>, removals: nat) -> bool {
    &&& blanked_from(before, after)
    &&& blank_count(after) == blank_count(before) + removals
}

/// `puzzle` is `solution` with exactly `removals` non-blank cells blanked in every row.
pub open spec fn is_carving(
    solution: Seq<Seq<Cell>>,
    puzzle: Seq<Seq<Cell>>,
    removals: nat,
) -> bool {
    &&& is_board(solution)
    &&& is_board(puzzle)
    &&& forall|r: int| 0 <= r < 9 ==> row_carved(solution[r], #[trigger] puzzle[r], removals)
}

/// What stands against carving `row`, whatever the draws: a removal count over
/// nine, or fewer non-blank cells in the row than are to be blanked.
pub open spec fn row_refusal(row: Seq<Cell>, removals: nat) -> Option<GenerationError> {
    if removals > 9 {
        Some(GenerationError::RemovalCountTooLarge)
    } else if filled_count(row) < removals {
        Some(GenerationError::NotEnoughCells)
    } else {
        None
    }
}

/// The outcome of carving one row with the draws from position `at` on: the
/// carved row and the position of the first draw that was not used.
///
/// A row that cannot be carved is refused before any draw is looked at.
pub open spec fn carve_row_spec(row: Seq<Cell>, removals: nat, draws: Seq<u32>, at: nat) -> Result<
    (Seq<Cell>, nat),
    GenerationError,
>
    decreases draws.len() - at,
{
    match row_refusal(row, removals) {
        Some(e) => Err(e),
        None => if removals == 0 {
            Ok((row, at))
        } else if at >= draws.len() {
            Err(GenerationError::DrawsExhausted)
        } else {
            let col: int = draws[at as int] as int % 9;
            if row[col] is Empty {
                carve_row_spec(row, removals, draws, at + 1)
            } else {
                carve_row_spec(row.update(col, Cell::Empty), (removals - 1) as nat, draws, at + 1)
            }
        },
    }
}

/// The outcome of carving rows `r`, `r + 1`, …, 8 of `b`, one after the other,
/// each row going on with the draws where the row before it stopped.
pub open spec fn carve_rows_spec(
    b: Seq<Seq<Cell>>,
    removals: nat,
    draws: Seq<u32>,
    r: nat,
    at: nat,
) -> Result<Seq<Seq<Cell>>, GenerationError>
    decreases 9 - r,
{
    if r >= 9 {
        Ok(b)
    } else {
        match carve_row_spec(b[r as int], removals, draws, at) {
            Err(e) => Err(e),
            Ok((row, next)) => carve_rows_spec(b.update(r as int, row), removals, draws, r + 1, next),
        }
    }
}

/// Some row of `b` holds fewer non-blank cells than `removals`.
pub open spec fn too_blank(b: Seq<Seq<Cell>>, removals: nat) -> bool {
    exists|r: int| 0 <= r < 9 && filled_count(#[trigger] b[r]) < removals
}

/// What stands against carving `b`, whatever the draws: a removal count over
/// nine, or a row with fewer non-blank cells than are to be blanked.
pub open spec fn refusal(b: Seq<Seq<Cell>>, removals: nat) -> Option<GenerationError> {
    if removals > 9 {
        Some(GenerationError::RemovalCountTooLarge)
    } else if too_blank(b, removals) {
        Some(GenerationError::NotEnoughCells)
    } else {
        None
    }
}

/// The outcome of carving a whole board with the given draws.
pub open spec fn carve_spec(b: Seq<Seq<Cell>>, removals: nat, draws: Seq<u32>) -> Result<
    Seq<Seq<Cell>>,
    GenerationError,
> {
    match refusal(b, removals) {
        Some(e) => Err(e),
        None => carve_rows_spec(b, removals, draws, 0, 0),
    }
}

/// `res` is the outcome of carving `solution` that `removals` and `draws` determine.
pub open spec fn is_carve_outcome(
    res: Result<Grid, GenerationError>,
    solution: Seq<Seq<Cell>>,
    removals: nat,
    draws: Seq<u32>,
) -> bool {
    match res {
        Ok(puzzle) => carve_spec(solution, removals, draws) == Ok::<
            Seq<Seq<Cell>>,
            GenerationError,
        >(puzzle@),
        Err(e) => carve_spec(solution, removals, draws) == Err::<Seq<Seq<Cell>>, GenerationError>(
            e,
        ),
    }
}

/// Carving the same grid with the same removal count and the same draws
/// always gives the same outcome: the same puzzle, cell for cell, or the same
/// failure.
pub proof fn lemma_same_draws_same_puzzle(
    first: Result<Grid, GenerationError>,
    second: Result<Grid, GenerationError>,
    solution: Seq<Seq<Cell>>,
    removals: nat,
    draws: Seq<u32>,
)
    requires
        is_carve_outcome(first, solution, removals, draws),
        is_carve_outcome(second, solution, removals, draws),
    ensures
        first == second,
{
    if first is Ok {
        Grid::lemma_same_view_same_grid(first->Ok_0, second->Ok_0);
    }
}

/// A row has no more blank cells than cells.
pub proof fn lemma_blank_count_bound(row: Seq<Cell>)
    ensures
        blank_count(row) <= row.len(),
    decreases row.len(),
{
    if row.len() > 0 {
        lemma_blank_count_bound(row.drop_last());
    }
}

/// Blanking one non-blank cell raises the number of blank cells by one.
pub proof fn lemma_blank_one_more(row: Seq<Cell>, i: int)
    requires
        0 <= i < row.len(),
        row[i] !is Empty,
    ensures
        blank_count(row.update(i, Cell::Empty)) == blank_count(row) + 1,
    decreases row.len(),
{
    let after = row.update(i, Cell::Empty);
    if i == row.len() - 1 {
        assert(after.drop_last() =~= row.drop_last());
    } else {
        lemma_blank_one_more(row.drop_last(), i);
        assert(after.drop_last() =~= row.drop_last().update(i, Cell::Empty));
    }
}

/// Blanking cells never lowers the number of blank cells, and leaves it
/// unchanged only when no cell was blanked.
pub proof fn lemma_blanking_counts(before: Seq<Cell>, after: Seq<Cell>)
    requires
        blanked_from(before, after),
    ensures
        blank_count(after) >= blank_count(before),
        blank_count(after) == blank_count(before) ==> after == before,
    decreases before.len(),
{
    if before.len() > 0 {
        lemma_blanking_counts(before.drop_last(), after.drop_last());
        if blank_count(after) == blank_count(before) {
            assert(after.drop_last() == before.drop_last());
            assert(after.last() == before.last());
            assert(after =~= after.drop_last().push(after.last()));
            assert(before =~= before.drop_last().push(before.last()));
        }
    } else {
        assert(after =~= before);
    }
}

/// Nothing stands against carving nothing: with a removal count of zero no
/// grid is refused.
pub proof fn lemma_nothing_to_carve_is_allowed(b: Seq<Seq<Cell>>)
    ensures
        refusal(b, 0) is None,
{
    assert forall|r: int| 0 <= r < 9 implies filled_count(#[trigger] b[r]) >= 0 by {
        lemma_blank_count_bound(b[r]);
    }
}

/// Nothing stands against carving a solved grid with a removal count of nine
/// or less: each of its rows holds nine digits.
pub proof fn lemma_solution_can_be_carved(b: Seq<Seq<Cell>>, removals: nat)
    requires
        is_solution(b),
        removals <= 9,
    ensures
        refusal(b, removals) is None,
{
    assert forall|r: int| 0 <= r < 9 implies filled_count(#[trigger] b[r]) == 9 by {
        assert(complete(row_of(b, r)));
        lemma_complete_unit_is_full(b[r]);
        lemma_full_row_has_no_blank(b[r]);
    }
}

/// A row whose cells all hold a value has no blank cell.
pub proof fn lemma_full_row_has_no_blank(row: Seq<Cell>)
    requires
        forall|c: int| 0 <= c < row.len() ==> row[c] !is Empty,
    ensures
        blank_count(row) == 0,
    decreases row.len(),
{
    if row.len() > 0 {
        lemma_full_row_has_no_blank(row.drop_last());
    }
}

/// Every cell of a carved puzzle that is not blank holds what the solution
/// holds at the same place.
pub proof fn lemma_carving_keeps_values(
    solution: Seq<Seq<Cell>>,
    puzzle: Seq<Seq<Cell>>,
    removals: nat,
    row: int,
    col: int,
)
    requires
        is_carving(solution, puzzle, removals),
        0 <= row < 9,
        0 <= col < 9,
        puzzle[row][col] !is Empty,
    ensures
        puzzle[row][col] == solution[row][col],
{
    assert(row_carved(solution[row], puzzle[row], removals));
}

/// In a puzzle carved from a solved grid with `removals` cells taken from each
/// row, every row has exactly `removals` blank cells and `9 - removals` others.
pub proof fn lemma_carved_row_counts(
    solution: Seq<Seq<Cell>>,
    puzzle: Seq<Seq<Cell>>,
    removals: nat,
    row: int,
)
    requires
        is_solution(solution),
        is_carving(solution, puzzle, removals),
        0 <= row < 9,
    ensures
        blank_count(puzzle[row]) == removals,
        filled_count(puzzle[row]) == 9 - removals,
        removals <= 9,
{
    assert(row_carved(solution[row], puzzle[row], removals));
    assert(complete(row_of(solution, row)));
    lemma_complete_unit_is_full(solution[row]);
    lemma_full_row_has_no_blank(solution[row]);
    lemma_blank_count_bound(puzzle[row]);
}

/// Carving with nothing to take away changes nothing: a puzzle carved with a
/// removal count of zero is the grid it was carved from.
pub proof fn lemma_carving_nothing(solution: Seq<Seq<Cell>>, puzzle: Seq<Seq<Cell>>)
    requires
        is_carving(solution, puzzle, 0),
    ensures
        puzzle == solution,
{
    assert forall|r: int| 0 <= r < 9 implies puzzle[r] == solution[r] by {
        assert(row_carved(solution[r], puzzle[r], 0));
        lemma_blanking_counts(solution[r], puzzle[r]);
    }
    assert(puzzle =~= solution);
}

/// The number of blank cells in `row`.
pub fn count_blanks(row: &[Cell; 9]) -> (count: usize)
    ensures
        count == blank_count(row@),
        count <= 9,
{
    let mut count: usize = 0;
    let mut c: usize = 0;
    while c < 9
        invariant
            c <= 9,
            count <= c,
            count == blank_count(row@.take(c as int)),
        decreases 9 - c,
    {
        assert(row@.take(c + 1).drop_last() =~= row@.take(c as int));
        match row[c] {
            Cell::Empty => {
                count += 1;
            },
            Cell::Digit(_) => {},
        }
        c += 1;
    }
    assert(row@.take(9) =~= row@);
    count
}

/// What stands against carving `row`, if anything does.
pub fn row_refusal_of(row: &[Cell; 9], removals: usize) -> (e: Option<GenerationError>)
    ensures
        e == row_refusal(row@, removals as nat),
{
    if removals > 9 {
        Some(GenerationError::RemovalCountTooLarge)
    } else if 9 - count_blanks(row) < removals {
        Some(GenerationError::NotEnoughCells)
    } else {
        None
    }
}

/// What stands against carving `solution`, if anything does.
pub fn refusal_of(solution: &Grid, removals: usize) -> (e: Option<GenerationError>)
    ensures
        e == refusal(solution@, removals as nat),
{
    if removals > 9 {
        return Some(GenerationError::RemovalCountTooLarge);
    }
    let mut r: usize = 0;
    while r < 9
        invariant
            r <= 9,
            removals <= 9,
            forall|k: int| 0 <= k < r ==> filled_count(#[trigger] solution@[k]) >= removals,
        decreases 9 - r,
    {
        assert(solution.cells[r as int]@ =~= solution@[r as int]);
        if row_refusal_of(&solution.cells[r], removals).is_some() {
            return Some(GenerationError::NotEnoughCells);
        }
        r += 1;
    }
    None
}

/// Carves one row: blanks `removals` of its non-blank cells, using the draws
/// from position `start` on, and says where the next row is to go on.
///
/// The outcome is a function of the arguments alone. A row that cannot be
/// carved is refused at once: with `RemovalCountTooLarge` when more than nine
/// cells are asked for, else with `NotEnoughCells` when the row holds fewer
/// non-blank cells than that. Any other row is carved, unless the draws run
/// out first (`DrawsExhausted`); with nothing to blank no draw is used.
pub fn carve_row(row: &[Cell; 9], removals: usize, draws: &[u32], start: usize) -> (res: Result<
    ([Cell; 9], usize),
    GenerationError,
>)
    ensures
        match res {
            Ok((after, next)) => carve_row_spec(row@, removals as nat, draws@, start as nat) == Ok::<
                (Seq<Cell>, nat),
                GenerationError,
            >((after@, next as nat)),
            Err(e) => carve_row_spec(row@, removals as nat, draws@, start as nat) == Err::<
                (Seq<Cell>, nat),
                GenerationError,
            >(e),
        },
        res matches Ok((after, next)) ==> row_carved(row@, after@, removals as nat) && start
            <= next && (removals > 0 ==> next <= draws@.len()),
        removals == 0 ==> res == Ok::<([Cell; 9], usize), GenerationError>((*row, start)),
        row_refusal(row@, removals as nat) matches Some(e) ==> res == Err::<
            ([Cell; 9], usize),
            GenerationError,
        >(e),
        row_refusal(row@, removals as nat) is None && res is Err ==> res == Err::<
            ([Cell; 9], usize),
            GenerationError,
        >(GenerationError::DrawsExhausted),
{
    proof {
        lemma_blank_count_bound(row@);
    }
    match row_refusal_of(row, removals) {
        Some(e) => {
            return Err(e);
        },
        None => {},
    }
    let mut out = *row;
    let mut removed: usize = 0;
    let mut pos: usize = start;
    while removed < removals
        invariant
            removals <= 9,
            removed <= removals,
            start <= pos,
            removed > 0 ==> pos <= draws@.len(),
            removals == 0 ==> pos == start && out == *row,
            filled_count(row@) >= removals,
            row_carved(row@, out@, removed as nat),
            carve_row_spec(out@, (removals - removed) as nat, draws@, pos as nat) == carve_row_spec(
                row@,
                removals as nat,
                draws@,
                start as nat,
            ),
        decreases draws@.len() - pos,
    {
        if pos >= draws.len() {
            return Err(GenerationError::DrawsExhausted);
        }
        let col: usize = (draws[pos] % 9) as usize;
        match out[col] {
            Cell::Empty => {},
            Cell::Digit(_) => {
                proof {
                    lemma_blank_one_more(out@, col as int);
                }
                out[col] = Cell::Empty;
                removed += 1;
            },
        }
        pos += 1;
    }
    Ok((out, pos))
}

/// Carves a puzzle out of `solution`: blanks `removals` non-blank cells in every
/// row, row after row, each draw naming a column of the row at hand.
///
/// The outcome is a function of the arguments alone. A grid that cannot be
/// carved is refused at once: with `RemovalCountTooLarge` when `removals` is
/// more than nine, else with `NotEnoughCells` when some row holds fewer
/// non-blank cells than that. Any other grid is carved, unless the draws run
/// out before the last row is done (`DrawsExhausted`). With `removals` zero
/// the puzzle is the solution itself.
pub fn carve_with_draws(solution: &Grid, removals: usize, draws: &[u32]) -> (res: Result<
    Grid,
    GenerationError,
>)
    ensures
        is_carve_outcome(res, solution@, removals as nat, draws@),
        res matches Ok(puzzle) ==> is_carving(solution@, puzzle@, removals as nat),
        removals == 0 ==> res == Ok::<Grid, GenerationError>(*solution),
        refusal(solution@, removals as nat) matches Some(e) ==> res == Err::<Grid, GenerationError>(
            e,
        ),
        refusal(solution@, removals as nat) is None && res is Err ==> res == Err::<
            Grid,
            GenerationError,
        >(GenerationError::DrawsExhausted),
{
    match refusal_of(solution, removals) {
        Some(e) => {
            proof {
                lemma_nothing_to_carve_is_allowed(solution@);
            }
            return Err(e);
        },
        None => {},
    }
    let mut puzzle = *solution;
    let mut pos: usize = 0;
    let mut r: usize = 0;
    while r < 9
        invariant
            r <= 9,
            removals <= 9,
            !too_blank(solution@, removals as nat),
            forall|k: int| 0 <= k < r ==> row_carved(solution@[k], #[trigger] puzzle@[k], removals as nat),
            forall|k: int| r <= k < 9 ==> #[trigger] puzzle@[k] == solution@[k],
            removals == 0 ==> puzzle == *solution,
            carve_rows_spec(puzzle@, removals as nat, draws@, r as nat, pos as nat) == carve_spec(
                solution@,
                removals as nat,
                draws@,
            ),
        decreases 9 - r,
    {
        let ghost before = puzzle@;
        let ghost unchanged = puzzle;
        assert(puzzle.cells[r as int]@ =~= puzzle@[r as int]);
        assert(filled_count(solution@[r as int]) >= removals);
        match carve_row(&puzzle.cells[r], removals, draws, pos) {
            Err(e) => {
                return Err(e);
            },
            Ok((row, next)) => {
                puzzle.cells[r] = row;
                pos = next;
                proof {
                    assert(puzzle@[r as int] =~= row@);
                    assert forall|k: int| 0 <= k < 9 && k != r implies #[trigger] puzzle@[k]
                        == before[k] by {
                        assert(puzzle@[k] =~= before[k]);
                    }
                    assert(puzzle@ =~= before.update(r as int, row@));
                    if removals == 0 {
                        assert(puzzle.cells =~= unchanged.cells);
                    }
                }
            },
        }
        r += 1;
    }
    Ok(puzzle)
}

} // verus!
