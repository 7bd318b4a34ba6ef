//! Building a solved grid cell by cell from a sequence of draws.
//!
//! Cells are filled in row-major order. Each cell takes one of the digits that
//! its row, column and block can still take, chosen by the draw for that cell.
//! When a cell has no such digit the attempt has reached a dead end.

use vstd::prelude::*;
use crate::digits::{
    allowed, ascending, candidates, lemma_candidates_are_the_allowed, Availability,
};
use crate::error::GenerationError;
use crate::grid::{empty_board, is_board, put, Cell, Grid};
use crate::rules::{
    block_index, block_of, column_of, complete, consistent, distinct_digits, is_solution,
    lemma_distinct_unit_is_complete, lemma_put_units, lemma_unit_gains_digit,
    lemma_unit_stays_distinct, place_in_block, row_of,
};

verus! {

/// Where an attempt found a cell with no candidate digit left.
#[derive(Clone, Copy, Debug, PartialEq, Eq, Structural)]
pub struct DeadEnd {
    pub row: usize,
    pub col: usize,
}

/// The option that a draw selects: the draw is reduced modulo the number of options.
///
/// With draws spread evenly over the 32-bit words and at most nine options,
/// no option is favoured over another by more than nine in 2^32.
pub open spec fn pick(options: Seq<u8>, draw: u32) -> u8 {
    options[draw as int % options.len() as int]
}

/// What placing cell number `k` (row-major) does to board `b`, given the draw for it.
pub open spec fn place_spec(b: Seq<Seq<Cell>>, k: int, draw: u32) -> Result<
    Seq<Seq<Cell>>,
    DeadEnd,
> {
    let options = candidates(b, k / 9, k % 9);
    if options.len() == 0 {
        Err(DeadEnd { row: (k / 9) as usize, col: (k % 9) as usize })
    } else {
        Ok(put(b, k / 9, k % 9, Cell::Digit(pick(options, draw))))
    }
}

/// The outcome of filling cells `k`, `k + 1`, …, 80 of `b`, where cell `i` uses `draws[i]`.
pub open spec fn fill_spec(b: Seq<Seq<Cell>>, k: nat, draws: Seq<u32>) -> Result<
    Seq<Seq<Cell>>,
    DeadEnd,
>
    decreases 81 - k,
{
    if k >= 81 {
        Ok(b)
    } else {
        match place_spec(b, k as int, draws[k as int]) {
            Err(e) => Err(e),
            Ok(next) => fill_spec(next, k + 1, draws),
        }
    }
}

/// The outcome of one whole attempt: all 81 cells filled from a blank board.
pub open spec fn solution_spec(draws: Seq<u32>) -> Result<Seq<Seq<Cell>>, DeadEnd> {
    fill_spec(empty_board(), 0, draws)
}

/// `res` is the outcome of the attempt that `draws` determine.
pub open spec fn is_attempt_outcome(res: Result<Grid, DeadEnd>, draws: Seq<u32>) -> bool {
    match res {
        Ok(g) => solution_spec(draws) == Ok::<Seq<Seq<Cell>>, DeadEnd>(g@),
        Err(e) => solution_spec(draws) == Err::<Seq<Seq<Cell>>, DeadEnd>(e),
    }
}

/// What follows an attempt.
#[derive(Clone, Copy, Debug, PartialEq, Eq)]
pub enum Retry {
    /// The attempt got through: this is the solution.
    Done(Grid),
    /// The attempt ran into a dead end and another one is to be made.
    Again,
    /// The attempt ran into a dead end and it was the last one allowed.
    GiveUp,
}

/// What follows an attempt with the given outcome, when `made` attempts have
/// been made, this one among them, and `limit` are allowed: a grid ends the
/// retrying, a dead end calls for another attempt as long as one is left.
pub open spec fn retry_spec(outcome: Result<Grid, DeadEnd>, made: nat, limit: nat) -> Retry {
    match outcome {
        Ok(grid) => Retry::Done(grid),
        Err(_) => if made < limit {
            Retry::Again
        } else {
            Retry::GiveUp
        },
    }
}

/// `res` is what retrying leads to when the attempts, in their order, are
/// determined by the draws in `attempts`: the grid of the first attempt that
/// gets through, none before it having got through, or `AttemptsExhausted`
/// when not one of them gets through.
pub open spec fn is_retry_outcome(
    res: Result<Grid, GenerationError>,
    attempts: Seq<Seq<u32>>,
) -> bool {
    match res {
        Ok(grid) => exists|i: int|
            0 <= i < attempts.len() && #[trigger] solution_spec(attempts[i]) == Ok::<
                Seq<Seq<Cell>>,
                DeadEnd,
            >(grid@) && forall|j: int| 0 <= j < i ==> #[trigger] solution_spec(attempts[j]) is Err,
        Err(e) => e == GenerationError::AttemptsExhausted && forall|j: int|
            0 <= j < attempts.len() ==> #[trigger] solution_spec(attempts[j]) is Err,
    }
}

/// `made` are the draws of the attempts that a retry with `limit` attempts
/// allowed went through before it ended with `res`: it stops at the first
/// attempt that gets through, never earlier, and gives up only when all
/// `limit` attempts ran into a dead end.
pub open spec fn is_retry_run(
    res: Result<Grid, GenerationError>,
    made: Seq<Seq<u32>>,
    limit: nat,
) -> bool {
    &&& made.len() <= limit
    &&& forall|j: int| 0 <= j < made.len() - 1 ==> #[trigger] solution_spec(made[j]) is Err
    &&& match res {
        Ok(grid) => made.len() > 0 && solution_spec(made.last()) == Ok::<Seq<Seq<Cell>>, DeadEnd>(
            grid@,
        ),
        Err(e) => e == GenerationError::AttemptsExhausted && made.len() == limit && (made.len() > 0
            ==> solution_spec(made.last()) is Err),
    }
}

/// The draws of each attempt in a list of attempts.
pub open spec fn draws_of(attempts: Seq<[u32; 81]>) -> Seq<Seq<u32>> {
    Seq::new(attempts.len(), |i: int| attempts[i]@)
}

/// The first `k` cells of `b` (row-major) hold digits 1–9 and the others are blank.
pub open spec fn filled_to(b: Seq<Seq<Cell>>, k: int) -> bool {
    &&& is_board(b)
    &&& forall|r: int, c: int|
        0 <= r < 9 && 0 <= c < 9 ==> if r * 9 + c < k {
            #[trigger] b[r][c] matches Cell::Digit(d) && 1 <= d <= 9
        } else {
            b[r][c] == Cell::Empty
        }
}

/// A consistent board with all 81 cells filled is a solution.
pub proof fn lemma_filled_board_is_solution(b: Seq<Seq<Cell>>)
    requires
        filled_to(b, 81),
        consistent(b),
    ensures
        is_solution(b),
{
    assert forall|k: int| 0 <= k < 9 implies complete(#[trigger] row_of(b, k)) by {
        let unit = row_of(b, k);
        assert forall|i: int| 0 <= i < 9 implies (#[trigger] unit[i] matches Cell::Digit(d) && 1
            <= d <= 9) by {
            assert(unit[i] == b[k][i]);
        }
        lemma_distinct_unit_is_complete(unit);
    }
    assert forall|k: int| 0 <= k < 9 implies complete(#[trigger] column_of(b, k)) by {
        let unit = column_of(b, k);
        assert forall|i: int| 0 <= i < 9 implies (#[trigger] unit[i] matches Cell::Digit(d) && 1
            <= d <= 9) by {
            assert(unit[i] == b[i][k]);
        }
        lemma_distinct_unit_is_complete(unit);
    }
    assert forall|k: int| 0 <= k < 9 implies complete(#[trigger] block_of(b, k)) by {
        let unit = block_of(b, k);
        assert forall|i: int| 0 <= i < 9 implies (#[trigger] unit[i] matches Cell::Digit(d) && 1
            <= d <= 9) by {
            assert(unit[i] == b[(k / 3) * 3 + i / 3][(k % 3) * 3 + i % 3]);
        }
        lemma_distinct_unit_is_complete(unit);
    }
}

/// Placing an allowed digit in a blank cell keeps the board consistent.
pub proof fn lemma_place_keeps_consistent(b: Seq<Seq<Cell>>, row: int, col: int, d: u8)
    requires
        consistent(b),
        0 <= row < 9,
        0 <= col < 9,
        b[row][col] == Cell::Empty,
        allowed(b, row, col, d),
    ensures
        consistent(put(b, row, col, Cell::Digit(d))),
{
    let blk = block_index(row, col);
    lemma_put_units(b, row, col, Cell::Digit(d));
    assert(distinct_digits(row_of(b, row)));
    assert(distinct_digits(column_of(b, col)));
    assert(distinct_digits(block_of(b, blk)));
    lemma_unit_stays_distinct(row_of(b, row), col, d);
    lemma_unit_stays_distinct(column_of(b, col), row, d);
    lemma_unit_stays_distinct(block_of(b, blk), place_in_block(row, col), d);
}

/// The availability sets keep tracking a board when a digit is written into a
/// blank cell and taken out of the sets of that cell's row, column and block.
pub proof fn lemma_place_keeps_tracking(
    before: Availability,
    after: Availability,
    b: Seq<Seq<Cell>>,
    row: int,
    col: int,
    d: u8,
)
    requires
        is_board(b),
        before.tracks(b),
        0 <= row < 9,
        0 <= col < 9,
        b[row][col] == Cell::Empty,
        after.took(before, row, col, d),
    ensures
        after.tracks(put(b, row, col, Cell::Digit(d))),
{
    let next = put(b, row, col, Cell::Digit(d));
    let blk = block_index(row, col);
    lemma_put_units(b, row, col, Cell::Digit(d));
    lemma_unit_gains_digit(row_of(b, row), col, d);
    lemma_unit_gains_digit(column_of(b, col), row, d);
    lemma_unit_gains_digit(block_of(b, blk), place_in_block(row, col), d);
    assert forall|k: int, e: u8| 0 <= k < 9 implies (#[trigger] after.row_set(k).contains(e) <==> 1
        <= e <= 9 && !row_of(next, k).contains(Cell::Digit(e))) by {
        assert(before.row_set(k).contains(e) <==> 1 <= e <= 9 && !row_of(b, k).contains(
            Cell::Digit(e),
        ));
    }
    assert forall|k: int, e: u8| 0 <= k < 9 implies (#[trigger] after.col_set(k).contains(e) <==> 1
        <= e <= 9 && !column_of(next, k).contains(Cell::Digit(e))) by {
        assert(before.col_set(k).contains(e) <==> 1 <= e <= 9 && !column_of(b, k).contains(
            Cell::Digit(e),
        ));
    }
    assert forall|k: int, e: u8| 0 <= k < 9 implies (#[trigger] after.block_set(k).contains(e)
        <==> 1 <= e <= 9 && !block_of(next, k).contains(Cell::Digit(e))) by {
        assert(before.block_set(k).contains(e) <==> 1 <= e <= 9 && !block_of(b, k).contains(
            Cell::Digit(e),
        ));
    }
}

/// Every candidate for a cell is allowed there.
pub proof fn lemma_candidates_are_allowed(b: Seq<Seq<Cell>>, row: int, col: int, i: int)
    requires
        0 <= i < candidates(b, row, col).len(),
    ensures
        allowed(b, row, col, candidates(b, row, col)[i]),
{
    lemma_candidates_are_the_allowed(b, row, col);
    assert(candidates(b, row, col).contains(candidates(b, row, col)[i]));
}

/// Filling the rest of a consistent board never ends with a grid that is
/// partial or holds a digit twice: it ends at a dead end, in a cell not yet
/// filled, or with a solution.
pub proof fn lemma_fill_yields_solution(b: Seq<Seq<Cell>>, k: nat, draws: Seq<u32>)
    requires
        k <= 81,
        filled_to(b, k as int),
        consistent(b),
    ensures
        match fill_spec(b, k, draws) {
            Ok(solution) => is_solution(solution),
            Err(e) => k <= e.row * 9 + e.col && e.row < 9 && e.col < 9,
        },
    decreases 81 - k,
{
    if k >= 81 {
        lemma_filled_board_is_solution(b);
    } else {
        let row: int = k as int / 9;
        let col: int = k as int % 9;
        let options = candidates(b, row, col);
        if options.len() > 0 {
            let d = pick(options, draws[k as int]);
            let next = put(b, row, col, Cell::Digit(d));
            lemma_candidates_are_allowed(b, row, col, draws[k as int] as int % options.len() as int);
            assert(b[row][col] == Cell::Empty);
            lemma_place_keeps_consistent(b, row, col, d);
            lemma_put_units(b, row, col, Cell::Digit(d));
            assert(filled_to(next, k + 1 as int));
            lemma_fill_yields_solution(next, k + 1, draws);
        }
    }
}

/// An attempt yields a solution or reports a dead end, whatever the draws.
pub proof fn lemma_attempt_yields_solution(draws: Seq<u32>)
    ensures
        match solution_spec(draws) {
            Ok(solution) => is_solution(solution),
            Err(e) => e.row < 9 && e.col < 9,
        },
{
    assert(consistent(empty_board()));
    lemma_fill_yields_solution(empty_board(), 0, draws);
}

/// The same draws always lead to the same outcome: the same grid, cell for
/// cell, or the same dead end.
pub proof fn lemma_same_draws_same_outcome(
    first: Result<Grid, DeadEnd>,
    second: Result<Grid, DeadEnd>,
    draws: Seq<u32>,
)
    requires
        is_attempt_outcome(first, draws),
        is_attempt_outcome(second, draws),
    ensures
        first == second,
{
    if first is Ok {
        Grid::lemma_same_view_same_grid(first->Ok_0, second->Ok_0);
    }
}

/// The attempts that a retry went through lead to what it ended with.
pub proof fn lemma_retry_run_is_outcome(
    res: Result<Grid, GenerationError>,
    made: Seq<Seq<u32>>,
    limit: nat,
)
    requires
        is_retry_run(res, made, limit),
    ensures
        is_retry_outcome(res, made),
{
    if res is Ok {
        assert(solution_spec(made[made.len() - 1]) is Ok);
    } else {
        assert forall|j: int| 0 <= j < made.len() implies #[trigger] solution_spec(made[j]) is Err by {
            if j == made.len() - 1 {
                assert(made[j] == made.last());
            }
        }
    }
}

/// The same attempts always lead to the same outcome of the retrying: the
/// same grid, cell for cell, or the same failure.
pub proof fn lemma_same_attempts_same_outcome(
    first: Result<Grid, GenerationError>,
    second: Result<Grid, GenerationError>,
    attempts: Seq<Seq<u32>>,
)
    requires
        is_retry_outcome(first, attempts),
        is_retry_outcome(second, attempts),
    ensures
        first == second,
{
    if first is Ok {
        let g1 = first->Ok_0;
        let i1 = choose|i: int|
            0 <= i < attempts.len() && #[trigger] solution_spec(attempts[i]) == Ok::<
                Seq<Seq<Cell>>,
                DeadEnd,
            >(g1@) && forall|j: int| 0 <= j < i ==> #[trigger] solution_spec(attempts[j]) is Err;
        if second is Ok {
            let g2 = second->Ok_0;
            let i2 = choose|i: int|
                0 <= i < attempts.len() && #[trigger] solution_spec(attempts[i]) == Ok::<
                    Seq<Seq<Cell>>,
                    DeadEnd,
                >(g2@) && forall|j: int| 0 <= j < i ==> #[trigger] solution_spec(attempts[j]) is Err;
            assert(i1 == i2) by {
                if i1 < i2 {
                    assert(solution_spec(attempts[i1]) is Err);
                }
                if i2 < i1 {
                    assert(solution_spec(attempts[i2]) is Err);
                }
            }
            Grid::lemma_same_view_same_grid(g1, g2);
        } else {
            assert(solution_spec(attempts[i1]) is Err);
        }
    } else if second is Ok {
        let g2 = second->Ok_0;
        let i2 = choose|i: int|
            0 <= i < attempts.len() && #[trigger] solution_spec(attempts[i]) == Ok::<
                Seq<Seq<Cell>>,
                DeadEnd,
            >(g2@) && forall|j: int| 0 <= j < i ==> #[trigger] solution_spec(attempts[j]) is Err;
        assert(solution_spec(attempts[i2]) is Err);
    }
}

/// While the availability sets track a board, the digits available to a cell
/// are exactly the digits allowed there.
pub proof fn lemma_tracked_candidates(a: Availability, b: Seq<Seq<Cell>>, row: int, col: int)
    requires
        a.tracks(b),
        0 <= row < 9,
        0 <= col < 9,
    ensures
        a.cell_set(row, col) == Set::new(|d: u8| allowed(b, row, col, d)),
        ascending(a.cell_set(row, col)) == candidates(b, row, col),
{
    let blk = block_index(row, col);
    assert forall|d: u8| a.cell_set(row, col).contains(d) <==> allowed(b, row, col, d) by {
        assert(a.row_set(row).contains(d) <==> 1 <= d <= 9 && !row_of(b, row).contains(
            Cell::Digit(d),
        ));
        assert(a.col_set(col).contains(d) <==> 1 <= d <= 9 && !column_of(b, col).contains(
            Cell::Digit(d),
        ));
        assert(a.block_set(blk).contains(d) <==> 1 <= d <= 9 && !block_of(b, blk).contains(
            Cell::Digit(d),
        ));
    }
    assert(a.cell_set(row, col) =~= Set::new(|d: u8| allowed(b, row, col, d)));
}

/// The option that `draw` selects among `options`.
pub fn pick_option(options: &Vec<u8>, draw: u32) -> (d: u8)
    requires
        options.len() > 0,
    ensures
        d == pick(options@, draw),
        options@.contains(d),
{
    let i: usize = (draw as usize) % options.len();
    options[i]
}

/// Makes one attempt at a solved grid: fills the 81 cells in row-major order,
/// cell `k` taking the candidate that `draws[k]` selects.
///
/// The outcome is a function of the draws alone. An attempt that comes to a
/// cell without candidates is given up as a whole and reports that cell; an
/// attempt that gets through yields a solution.
pub fn solution_from_draws(draws: &[u32; 81]) -> (res: Result<Grid, DeadEnd>)
    ensures
        is_attempt_outcome(res, draws@),
        match res {
            Ok(g) => is_solution(g@),
            Err(e) => e.row < 9 && e.col < 9,
        },
{
    let mut grid = Grid::new();
    let mut avail = Availability::new();
    let mut k: usize = 0;
    while k < 81
        invariant
            k <= 81,
            filled_to(grid@, k as int),
            avail.tracks(grid@),
            fill_spec(grid@, k as nat, draws@) == solution_spec(draws@),
        decreases 81 - k,
    {
        let row: usize = k / 9;
        let col: usize = k % 9;
        let options = avail.candidates(row, col);
        proof {
            lemma_tracked_candidates(avail, grid@, row as int, col as int);
        }
        if options.len() == 0 {
            return Err(DeadEnd { row, col });
        }
        let d: u8 = pick_option(&options, draws[k]);
        proof {
            lemma_candidates_are_allowed(
                grid@,
                row as int,
                col as int,
                draws@[k as int] as int % options@.len() as int,
            );
        }
        let ghost before = avail;
        let ghost board = grid@;
        grid.set(row, col, Cell::Digit(d));
        avail.take(row, col, d);
        proof {
            assert(board[row as int][col as int] == Cell::Empty);
            lemma_place_keeps_tracking(before, avail, board, row as int, col as int, d);
            lemma_put_units(board, row as int, col as int, Cell::Digit(d));
            assert(place_spec(board, k as int, draws@[k as int]) == Ok::<Seq<Seq<Cell>>, DeadEnd>(
                grid@,
            ));
        }
        k += 1;
    }
    proof {
        lemma_attempt_yields_solution(draws@);
    }
    Ok(grid)
}

/// Decides what follows an attempt: `made` attempts have been made, this one
/// among them, and `limit` are allowed.
pub fn after_attempt(outcome: Result<Grid, DeadEnd>, made: usize, limit: usize) -> (next: Retry)
    ensures
        next == retry_spec(outcome, made as nat, limit as nat),
{
    match outcome {
        Ok(grid) => Retry::Done(grid),
        Err(_) => if made < limit {
            Retry::Again
        } else {
            Retry::GiveUp
        },
    }
}

/// Retries until an attempt gets through: the attempts are made in the order
/// given, each from its own draws, and the first grid that comes out is the
/// result. No attempt is made after one that got through, and the attempts
/// that ran into a dead end leave no trace in the grid.
///
/// The outcome is a function of the draws alone. It fails with
/// `AttemptsExhausted` when every attempt runs into a dead end, and so when
/// there is no attempt.
pub fn solution_from_attempts(attempts: &[[u32; 81]]) -> (res: Result<Grid, GenerationError>)
    ensures
        is_retry_outcome(res, draws_of(attempts@)),
        res matches Ok(grid) ==> is_solution(grid@),
{
    let limit: usize = attempts.len();
    if limit == 0 {
        return Err(GenerationError::AttemptsExhausted);
    }
    let mut made: usize = 0;
    loop
        invariant
            made < limit,
            limit == attempts@.len(),
            forall|j: int| 0 <= j < made ==> #[trigger] solution_spec(draws_of(attempts@)[j]) is Err,
        decreases limit - made,
    {
        let outcome = solution_from_draws(&attempts[made]);
        assert(draws_of(attempts@)[made as int] == attempts@[made as int]@);
        made += 1;
        match after_attempt(outcome, made, limit) {
            Retry::Done(grid) => {
                return Ok(grid);
            },
            Retry::Again => {},
            Retry::GiveUp => {
                return Err(GenerationError::AttemptsExhausted);
            },
        }
    }
}

} // verus!
