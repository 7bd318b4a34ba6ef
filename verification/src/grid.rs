//! Cells, grids, and what it means for a grid to be a solved Sudoku.

use vstd::prelude::*;

verus! {

/// One cell of a grid: blank, or holding a value.
///
/// A value is a Sudoku digit when it lies between 1 and 9.
#[derive(Clone, Copy, Debug, PartialEq, Eq, Structural)]
pub enum Cell {
    Empty,
    Digit(u8),
}

/// A 9×9 grid of cells, `cells[row][col]`.
#[derive(Clone, Copy, Debug, PartialEq, Eq)]
pub struct Grid {
    pub cells: [[Cell; 9]; 9],
}

/// The cell that a player's entry stands for: no character is a blank cell,
/// one character from `1` to `9` is that digit, and anything else is no cell.
pub open spec fn cell_of_text(text: Seq<char>) -> Option<Cell> {
    if text.len() == 0 {
        Some(Cell::Empty)
    } else if text.len() == 1 && '1' <= text[0] <= '9' {
        Some(Cell::Digit((text[0] as u8 - '0' as u8) as u8))
    } else {
        None
    }
}

/// The character that shows a cell: `1` to `9` for a Sudoku digit, nothing for
/// a blank cell or a value that is no Sudoku digit.
pub open spec fn char_of_cell(cell: Cell) -> Option<char> {
    match cell {
        Cell::Digit(d) if 1 <= d <= 9 => Some(('0' as u8 + d) as char),
        _ => None,
    }
}

/// The cell that a number stands for: 0 for a blank cell, any other for a cell
/// that holds it.
pub open spec fn cell_of_value(value: u8) -> Cell {
    if value == 0 {
        Cell::Empty
    } else {
        Cell::Digit(value)
    }
}

/// The number that stands for a cell: 0 for a blank cell, else the value it holds.
pub open spec fn value_of_cell(cell: Cell) -> u8 {
    match cell {
        Cell::Empty => 0,
        Cell::Digit(d) => d,
    }
}

impl Cell {
    /// The cell that `value` stands for, 0 being the blank cell.
    pub fn from_value(value: u8) -> (cell: Cell)
        ensures
            cell == cell_of_value(value),
    {
        if value == 0 {
            Cell::Empty
        } else {
            Cell::Digit(value)
        }
    }

    /// The number that stands for this cell: 0 for a blank cell, else the value it holds.
    pub fn value(self) -> (value: u8)
        ensures
            value == value_of_cell(self),
    {
        match self {
            Cell::Empty => 0,
            Cell::Digit(d) => d,
        }
    }

    /// Reads a player's entry, given as its characters.
    pub fn from_chars(text: &[char]) -> (cell: Option<Cell>)
        ensures
            cell == cell_of_text(text@),
    {
        if text.len() == 0 {
            Some(Cell::Empty)
        } else if text.len() == 1 && '1' <= text[0] && text[0] <= '9' {
            Some(Cell::Digit(text[0] as u8 - '0' as u8))
        } else {
            None
        }
    }

    /// The character that shows this cell, if it has one.
    pub fn to_char(self) -> (ch: Option<char>)
        ensures
            ch == char_of_cell(self),
    {
        match self {
            Cell::Digit(d) if 1 <= d && d <= 9 => Some(('0' as u8 + d) as char),
            _ => None,
        }
    }
}

/// A board is the mathematical model of a grid: nine rows of nine cells.
pub open spec fn is_board(b: Seq<Seq<Cell>>) -> bool {
    b.len() == 9 && forall|r: int| 0 <= r < 9 ==> (#[trigger] b[r]).len() == 9
}

/// The board whose cells are all blank.
pub open spec fn empty_board() -> Seq<Seq<Cell>> {
    Seq::new(9, |r: int| Seq::new(9, |c: int| Cell::Empty))
}

/// The board `b` with the cell at (`row`, `col`) replaced by `cell`.
pub open spec fn put(b: Seq<Seq<Cell>>, row: int, col: int, cell: Cell) -> Seq<Seq<Cell>> {
    b.update(row, b[row].update(col, cell))
}

impl View for Grid {
    type V = Seq<Seq<Cell>>;

    open spec fn view(&self) -> Seq<Seq<Cell>> {
        Seq::new(9, |r: int| Seq::new(9, |c: int| self.cells[r][c]))
    }
}

impl Grid {
    /// The grid with every cell blank.
    pub fn new() -> (g: Grid)
        ensures
            g@ == empty_board(),
    {
        let row = [Cell::Empty; 9];
        let g = Grid { cells: [row; 9] };
        assert forall|r: int| 0 <= r < 9 implies #[trigger] g@[r] == empty_board()[r] by {
            assert(g.cells[r] == row);
            assert(g@[r] =~= empty_board()[r]);
        }
        assert(g@ =~= empty_board());
        g
    }

    /// The grid that differs from `self` in holding `cell` at (`row`, `col`).
    pub open spec fn with(&self, row: int, col: int, cell: Cell) -> Grid {
        Grid {
            cells: vstd::array::spec_array_update(
                self.cells,
                row,
                vstd::array::spec_array_update(self.cells[row], col, cell),
            ),
        }
    }

    /// The model of `with` is `put`.
    pub proof fn lemma_with_is_put(self, row: int, col: int, cell: Cell)
        requires
            0 <= row < 9,
            0 <= col < 9,
        ensures
            self.with(row, col, cell)@ == put(self@, row, col, cell),
    {
        let after = self.with(row, col, cell);
        let new_row = vstd::array::spec_array_update(self.cells[row], col, cell);
        assert(new_row@ == self.cells[row]@.update(col, cell));
        assert(after.cells@ == self.cells@.update(row, new_row));
        assert forall|r: int| 0 <= r < 9 implies #[trigger] after@[r] == put(self@, row, col, cell)[r] by {
            assert forall|c: int| 0 <= c < 9 implies after@[r][c] == put(self@, row, col, cell)[r][c] by {
                assert(after@[r][c] == after.cells@[r]@[c]);
            }
            assert(after@[r] =~= put(self@, row, col, cell)[r]);
        }
        assert(after@ =~= put(self@, row, col, cell));
    }

    /// Two grids with the same cells are the same grid.
    pub proof fn lemma_same_view_same_grid(a: Grid, b: Grid)
        requires
            a@ == b@,
        ensures
            a == b,
    {
        assert forall|r: int| 0 <= r < 9 implies a.cells[r] == b.cells[r] by {
            assert forall|c: int| 0 <= c < 9 implies a.cells[r][c] == b.cells[r][c] by {
                assert(a@[r][c] == a.cells[r][c]);
                assert(b@[r][c] == b.cells[r][c]);
            }
            assert(a.cells[r] =~= b.cells[r]);
        }
        assert(a.cells =~= b.cells);
    }

    /// The grid written as nine rows of numbers, 0 standing for a blank cell.
    pub fn from_rows(rows: &[[u8; 9]; 9]) -> (g: Grid)
        ensures
            forall|r: int, c: int|
                0 <= r < 9 && 0 <= c < 9 ==> #[trigger] g@[r][c] == cell_of_value(rows[r][c]),
    {
        let mut g = Grid::new();
        let mut k: usize = 0;
        while k < 81
            invariant
                k <= 81,
                forall|r: int, c: int|
                    0 <= r < 9 && 0 <= c < 9 && r * 9 + c < k ==> #[trigger] g@[r][c]
                        == cell_of_value(rows[r][c]),
            decreases 81 - k,
        {
            g.set(k / 9, k % 9, Cell::from_value(rows[k / 9][k % 9]));
            k += 1;
        }
        g
    }

    /// The grid as nine rows of numbers, 0 standing for a blank cell.
    pub fn to_rows(&self) -> (rows: [[u8; 9]; 9])
        ensures
            forall|r: int, c: int|
                0 <= r < 9 && 0 <= c < 9 ==> rows[r][c] == value_of_cell(#[trigger] self@[r][c]),
    {
        let mut rows = [[0u8; 9]; 9];
        let mut k: usize = 0;
        while k < 81
            invariant
                k <= 81,
                forall|r: int, c: int|
                    0 <= r < 9 && 0 <= c < 9 && r * 9 + c < k ==> rows[r][c] == value_of_cell(
                        #[trigger] self@[r][c],
                    ),
            decreases 81 - k,
        {
            rows[k / 9][k % 9] = self.cells[k / 9][k % 9].value();
            k += 1;
        }
        rows
    }

    /// The cell at (`row`, `col`).
    pub fn get(&self, row: usize, col: usize) -> (cell: Cell)
        requires
            row < 9,
            col < 9,
        ensures
            cell == self@[row as int][col as int],
    {
        self.cells[row][col]
    }

    /// Replaces the cell at (`row`, `col`).
    pub fn set(&mut self, row: usize, col: usize, cell: Cell)
        requires
            row < 9,
            col < 9,
        ensures
            final(self)@ == put(old(self)@, row as int, col as int, cell),
    {
        self.cells[row][col] = cell;
        assert forall|r: int| 0 <= r < 9 implies #[trigger] self@[r] == put(
            old(self)@,
            row as int,
            col as int,
            cell,
        )[r] by {
            assert(self@[r] =~= put(old(self)@, row as int, col as int, cell)[r]);
        }
        assert(self@ =~= put(old(self)@, row as int, col as int, cell));
    }

    /// Whether two grids hold the same cells.
    pub fn same_as(&self, other: &Grid) -> (b: bool)
        ensures
            b == (self@ == other@),
    {
        let mut k: usize = 0;
        while k < 81
            invariant
                k <= 81,
                forall|r: int, c: int|
                    0 <= r < 9 && 0 <= c < 9 && r * 9 + c < k ==> self@[r][c] == other@[r][c],
            decreases 81 - k,
        {
            if self.cells[k / 9][k % 9] != other.cells[k / 9][k % 9] {
                assert(self@[(k / 9) as int][(k % 9) as int] != other@[(k / 9) as int][(k
                    % 9) as int]);
                return false;
            }
            k += 1;
        }
        proof {
            assert forall|r: int| 0 <= r < 9 implies #[trigger] self@[r] == other@[r] by {
                assert forall|c: int| 0 <= c < 9 implies self@[r][c] == other@[r][c] by {
                    assert(r * 9 + c < 81);
                }
                assert(self@[r] =~= other@[r]);
            }
            assert(self@ =~= other@);
        }
        true
    }
}

/// Whether an index starts a new band of three, other than the first: true
/// for 3, 6, 9, … and false for 0 and everything in between.
///
/// A layout of the grid puts a gap before each such row and column.
pub fn is_three(index: usize) -> (b: bool)
    ensures
        b == (index % 3 == 0 && index != 0),
{
    index % 3 == 0 && index != 0
}

} // verus!
