//! The rules of Sudoku: rows, columns and blocks, and what makes a grid a solution.

use vstd::prelude::*;
use crate::grid::{is_board, put, Cell, Grid};

verus! {

/// The block (3×3 sub-grid) that a cell lies in, numbered row-major from 0 to 8.
pub open spec fn block_index(row: int, col: int) -> int {
    (row / 3) * 3 + col / 3
}

/// Row `r` of a board, left to right.
pub open spec fn row_of(b: Seq<Seq<Cell>>, r: int) -> Seq<Cell> {
    b[r]
}

/// Column `c` of a board, top to bottom.
pub open spec fn column_of(b: Seq<Seq<Cell>>, c: int) -> Seq<Cell> {
    Seq::new(9, |r: int| b[r][c])
}

/// Block `k` of a board, row-major within the block.
pub open spec fn block_of(b: Seq<Seq<Cell>>, k: int) -> Seq<Cell> {
    Seq::new(9, |i: int| b[(k / 3) * 3 + i / 3][(k % 3) * 3 + i % 3])
}

/// The digit `d` stands at exactly one place of `unit`.
pub open spec fn occurs_once(unit: Seq<Cell>, d: u8) -> bool {
    &&& exists|i: int| 0 <= i < unit.len() && unit[i] == Cell::Digit(d)
    &&& forall|i: int, j: int|
        0 <= i < unit.len() && 0 <= j < unit.len() && unit[i] == Cell::Digit(d) && unit[j]
            == Cell::Digit(d) ==> i == j
}

/// A unit (row, column or block) is complete when it holds each digit 1–9 exactly once.
pub open spec fn complete(unit: Seq<Cell>) -> bool {
    unit.len() == 9 && forall|d: u8| 1 <= d <= 9 ==> occurs_once(unit, d)
}

/// A board is a solution when every row, column and block is complete.
pub open spec fn is_solution(b: Seq<Seq<Cell>>) -> bool {
    &&& is_board(b)
    &&& forall|k: int| 0 <= k < 9 ==> complete(#[trigger] row_of(b, k))
    &&& forall|k: int| 0 <= k < 9 ==> complete(#[trigger] column_of(b, k))
    &&& forall|k: int| 0 <= k < 9 ==> complete(#[trigger] block_of(b, k))
}

/// No two places of `unit` hold the same digit.
pub open spec fn distinct_digits(unit: Seq<Cell>) -> bool {
    forall|i: int, j: int|
        0 <= i < unit.len() && 0 <= j < unit.len() && i != j && unit[i] !is Empty ==> unit[i]
            != unit[j]
}

/// A board is consistent when no row, column or block holds a digit twice.
pub open spec fn consistent(b: Seq<Seq<Cell>>) -> bool {
    &&& is_board(b)
    &&& forall|k: int| 0 <= k < 9 ==> distinct_digits(#[trigger] row_of(b, k))
    &&& forall|k: int| 0 <= k < 9 ==> distinct_digits(#[trigger] column_of(b, k))
    &&& forall|k: int| 0 <= k < 9 ==> distinct_digits(#[trigger] block_of(b, k))
}

/// Every cell of `unit` holds a digit between 1 and 9.
pub open spec fn all_sudoku_digits(unit: Seq<Cell>) -> bool {
    forall|i: int|
        0 <= i < unit.len() ==> (#[trigger] unit[i] matches Cell::Digit(d) && 1 <= d <= 9)
}

/// The place of the cell (`row`, `col`) within its block.
pub open spec fn place_in_block(row: int, col: int) -> int {
    (row % 3) * 3 + col % 3
}

/// Whether the digit `d` stands at exactly one place of `unit`.
pub fn holds_once(unit: &[Cell; 9], d: u8) -> (b: bool)
    ensures
        b == occurs_once(unit@, d),
{
    let mut found: Option<usize> = None;
    let mut i: usize = 0;
    while i < 9
        invariant
            i <= 9,
            match found {
                None => forall|j: int| 0 <= j < i ==> unit@[j] != Cell::Digit(d),
                Some(p) => p < i && unit@[p as int] == Cell::Digit(d) && forall|j: int|
                    0 <= j < i && unit@[j] == Cell::Digit(d) ==> j == p,
            },
        decreases 9 - i,
    {
        if unit[i] == Cell::Digit(d) {
            if found.is_some() {
                return false;
            }
            found = Some(i);
        }
        i += 1;
    }
    found.is_some()
}

/// Whether `unit` holds each digit 1–9 exactly once.
pub fn unit_complete(unit: &[Cell; 9]) -> (b: bool)
    ensures
        b == complete(unit@),
{
    let mut d: u8 = 1;
    while d <= 9
        invariant
            1 <= d <= 10,
            forall|e: u8| 1 <= e < d ==> occurs_once(unit@, e),
        decreases 10 - d,
    {
        if !holds_once(unit, d) {
            return false;
        }
        d += 1;
    }
    true
}

impl Grid {
    /// Row `r`, left to right.
    pub fn row(&self, r: usize) -> (unit: [Cell; 9])
        requires
            r < 9,
        ensures
            unit@ == row_of(self@, r as int),
    {
        let unit = self.cells[r];
        assert(unit@ =~= row_of(self@, r as int));
        unit
    }

    /// Column `c`, top to bottom.
    pub fn column(&self, c: usize) -> (unit: [Cell; 9])
        requires
            c < 9,
        ensures
            unit@ == column_of(self@, c as int),
    {
        let mut unit = [Cell::Empty; 9];
        let mut r: usize = 0;
        while r < 9
            invariant
                r <= 9,
                c < 9,
                forall|i: int| 0 <= i < r ==> unit@[i] == self@[i][c as int],
            decreases 9 - r,
        {
            unit[r] = self.cells[r][c];
            r += 1;
        }
        assert(unit@ =~= column_of(self@, c as int));
        unit
    }

    /// Block `k`, row-major within the block.
    pub fn block(&self, k: usize) -> (unit: [Cell; 9])
        requires
            k < 9,
        ensures
            unit@ == block_of(self@, k as int),
    {
        let mut unit = [Cell::Empty; 9];
        let mut i: usize = 0;
        while i < 9
            invariant
                i <= 9,
                k < 9,
                forall|j: int|
                    0 <= j < i ==> unit@[j] == self@[(k / 3) * 3 + j / 3][(k % 3) * 3 + j % 3],
            decreases 9 - i,
        {
            unit[i] = self.cells[(k / 3) * 3 + i / 3][(k % 3) * 3 + i % 3];
            i += 1;
        }
        assert(unit@ =~= block_of(self@, k as int));
        unit
    }

    /// Whether the grid is a solved Sudoku: every row, every column and every
    /// block holds each digit 1–9 exactly once. The three kinds of unit are
    /// checked each for itself.
    pub fn is_valid_solution(&self) -> (b: bool)
        ensures
            b == is_solution(self@),
    {
        let mut k: usize = 0;
        while k < 9
            invariant
                k <= 9,
                forall|j: int| 0 <= j < k ==> complete(#[trigger] row_of(self@, j)),
                forall|j: int| 0 <= j < k ==> complete(#[trigger] column_of(self@, j)),
                forall|j: int| 0 <= j < k ==> complete(#[trigger] block_of(self@, j)),
            decreases 9 - k,
        {
            let row = self.row(k);
            let column = self.column(k);
            let block = self.block(k);
            if !unit_complete(&row) || !unit_complete(&column) || !unit_complete(&block) {
                return false;
            }
            k += 1;
        }
        true
    }
}

/// Nine cells that hold nine different digits between 1 and 9 hold each of
/// them exactly once.
pub proof fn lemma_distinct_unit_is_complete(unit: Seq<Cell>)
    requires
        unit.len() == 9,
        all_sudoku_digits(unit),
        distinct_digits(unit),
    ensures
        complete(unit),
{
    let values = Seq::new(9, |i: int| unit[i]->0 as int);
    assert(values.no_duplicates()) by {
        assert forall|i: int, j: int|
            0 <= i < values.len() && 0 <= j < values.len() && i != j implies values[i]
            != values[j] by {
            assert(unit[i] != unit[j]);
        }
    }
    values.unique_seq_to_set();
    vstd::set_lib::lemma_int_range(1, 10);
    let range = vstd::set_lib::set_int_range(1, 10);
    assert(values.to_set().subset_of(range)) by {
        assert forall|v: int| values.to_set().contains(v) implies range.contains(v) by {
            let i = choose|i: int| 0 <= i < values.len() && values[i] == v;
            assert(unit[i] is Digit);
        }
    }
    vstd::set_lib::lemma_set_subset_finite(range, values.to_set());
    vstd::set_lib::lemma_subset_equality(values.to_set(), range);
    assert forall|d: u8| 1 <= d <= 9 implies occurs_once(unit, d) by {
        assert(range.contains(d as int));
        assert(values.to_set().contains(d as int));
        let i = choose|i: int| 0 <= i < values.len() && values[i] == d as int;
        assert(unit[i] == Cell::Digit(d));
    }
}

/// A unit that holds each digit 1–9 exactly once has a digit in every one of
/// its nine cells, and no two of them alike.
pub proof fn lemma_complete_unit_is_full(unit: Seq<Cell>)
    requires
        complete(unit),
    ensures
        all_sudoku_digits(unit),
        distinct_digits(unit),
{
    let place = |k: int| choose|i: int| 0 <= i < unit.len() && unit[i] == Cell::Digit((k + 1) as u8);
    let places = Seq::new(9, place);
    assert forall|k: int| 0 <= k < 9 implies 0 <= #[trigger] places[k] < 9 && unit[places[k]]
        == Cell::Digit((k + 1) as u8) by {
        assert(occurs_once(unit, (k + 1) as u8));
    }
    assert(places.no_duplicates());
    places.unique_seq_to_set();
    vstd::set_lib::lemma_int_range(0, 9);
    let range = vstd::set_lib::set_int_range(0, 9);
    assert(places.to_set().subset_of(range)) by {
        assert forall|i: int| places.to_set().contains(i) implies range.contains(i) by {
            let k = choose|k: int| 0 <= k < places.len() && places[k] == i;
            assert(0 <= places[k] < 9);
        }
    }
    vstd::set_lib::lemma_set_subset_finite(range, places.to_set());
    vstd::set_lib::lemma_subset_equality(places.to_set(), range);
    assert forall|i: int| 0 <= i < unit.len() implies (#[trigger] unit[i] matches Cell::Digit(d)
        && 1 <= d <= 9) by {
        assert(range.contains(i));
        assert(places.to_set().contains(i));
        let k = choose|k: int| 0 <= k < places.len() && places[k] == i;
        assert(unit[places[k]] == Cell::Digit((k + 1) as u8));
    }
    assert forall|i: int, j: int|
        0 <= i < unit.len() && 0 <= j < unit.len() && i != j && unit[i] !is Empty implies unit[i]
        != unit[j] by {
        let d: u8 = unit[i]->0;
        assert(occurs_once(unit, d));
    }
}

/// How the rows, columns and blocks of a board change when one cell is replaced:
/// the row, the column and the block of that cell change at one place, and
/// every other unit stays as it was.
pub proof fn lemma_put_units(b: Seq<Seq<Cell>>, row: int, col: int, cell: Cell)
    requires
        is_board(b),
        0 <= row < 9,
        0 <= col < 9,
    ensures
        is_board(put(b, row, col, cell)),
        row_of(b, row)[col] == b[row][col],
        column_of(b, col)[row] == b[row][col],
        block_of(b, block_index(row, col))[place_in_block(row, col)] == b[row][col],
        forall|k: int|
            0 <= k < 9 ==> #[trigger] row_of(put(b, row, col, cell), k) == (if k == row {
                row_of(b, k).update(col, cell)
            } else {
                row_of(b, k)
            }),
        forall|k: int|
            0 <= k < 9 ==> #[trigger] column_of(put(b, row, col, cell), k) == (if k == col {
                column_of(b, k).update(row, cell)
            } else {
                column_of(b, k)
            }),
        forall|k: int|
            0 <= k < 9 ==> #[trigger] block_of(put(b, row, col, cell), k) == (if k == block_index(
                row,
                col,
            ) {
                block_of(b, k).update(place_in_block(row, col), cell)
            } else {
                block_of(b, k)
            }),
{
    let after = put(b, row, col, cell);
    assert forall|k: int| 0 <= k < 9 implies #[trigger] row_of(after, k) == (if k == row {
        row_of(b, k).update(col, cell)
    } else {
        row_of(b, k)
    }) by {}
    assert forall|k: int| 0 <= k < 9 implies #[trigger] column_of(after, k) == (if k == col {
        column_of(b, k).update(row, cell)
    } else {
        column_of(b, k)
    }) by {
        let unit = column_of(after, k);
        let expected = if k == col {
            column_of(b, k).update(row, cell)
        } else {
            column_of(b, k)
        };
        assert forall|i: int| 0 <= i < 9 implies unit[i] == expected[i] by {
            assert(unit[i] == after[i][k]);
            assert(column_of(b, k)[i] == b[i][k]);
        }
        assert(unit =~= expected);
    }
    assert forall|k: int| 0 <= k < 9 implies #[trigger] block_of(after, k) == (if k == block_index(
        row,
        col,
    ) {
        block_of(b, k).update(place_in_block(row, col), cell)
    } else {
        block_of(b, k)
    }) by {
        let unit = block_of(after, k);
        let expected = if k == block_index(row, col) {
            block_of(b, k).update(place_in_block(row, col), cell)
        } else {
            block_of(b, k)
        };
        assert forall|i: int| 0 <= i < 9 implies unit[i] == expected[i] by {
            let r: int = (k / 3) * 3 + i / 3;
            let c: int = (k % 3) * 3 + i % 3;
            assert(unit[i] == after[r][c]);
            assert(block_of(b, k)[i] == b[r][c]);
            if r == row && c == col {
                assert(k == block_index(row, col) && i == place_in_block(row, col));
            } else {
                assert(!(k == block_index(row, col) && i == place_in_block(row, col)));
                assert(after[r][c] == b[r][c]);
            }
        }
        assert(unit =~= expected);
    }
}

/// Writing a digit into a blank place of a unit adds that digit, and no other,
/// to the digits that the unit holds.
pub proof fn lemma_unit_gains_digit(unit: Seq<Cell>, i: int, d: u8)
    requires
        0 <= i < unit.len(),
        unit[i] == Cell::Empty,
    ensures
        forall|e: u8|
            unit.update(i, Cell::Digit(d)).contains(Cell::Digit(e)) <==> e == d || unit.contains(
                Cell::Digit(e),
            ),
{
    let after = unit.update(i, Cell::Digit(d));
    assert forall|e: u8| after.contains(Cell::Digit(e)) <==> e == d || unit.contains(
        Cell::Digit(e),
    ) by {
        if after.contains(Cell::Digit(e)) {
            let j = choose|j: int| 0 <= j < after.len() && after[j] == Cell::Digit(e);
            if j != i {
                assert(unit[j] == Cell::Digit(e));
            }
        }
        if e == d {
            assert(after[i] == Cell::Digit(e));
        }
        if unit.contains(Cell::Digit(e)) {
            let j = choose|j: int| 0 <= j < unit.len() && unit[j] == Cell::Digit(e);
            assert(after[j] == Cell::Digit(e));
        }
    }
}

/// Writing a digit that a unit does not hold yet into a blank place of it
/// keeps the unit's digits distinct.
pub proof fn lemma_unit_stays_distinct(unit: Seq<Cell>, i: int, d: u8)
    requires
        0 <= i < unit.len(),
        unit[i] == Cell::Empty,
        !unit.contains(Cell::Digit(d)),
        distinct_digits(unit),
    ensures
        distinct_digits(unit.update(i, Cell::Digit(d))),
{
    let after = unit.update(i, Cell::Digit(d));
    assert forall|p: int, q: int|
        0 <= p < after.len() && 0 <= q < after.len() && p != q && after[p] !is Empty implies after[p]
        != after[q] by {
        if p == i {
            assert(unit[q] == after[q]);
        } else if q == i {
            assert(unit[p] == after[p]);
        } else {
            assert(unit[p] == after[p] && unit[q] == after[q]);
        }
    }
}

} // verus!
