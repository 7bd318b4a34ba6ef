use sudoku_generator::grid::{is_three, Cell, Grid};
use sudoku_generator::rules::{holds_once, unit_complete};
use sudoku_generator::session::SudokuApp;

const SOLVED: [[u8; 9]; 9] = [
    [5, 7, 6, 2, 3, 9, 1, 4, 8],
    [8, 4, 1, 7, 6, 5, 9, 3, 2],
    [3, 9, 2, 4, 1, 8, 5, 6, 7],
    [1, 6, 4, 3, 7, 2, 8, 9, 5],
    [2, 5, 8, 9, 4, 1, 6, 7, 3],
    [7, 3, 9, 8, 5, 6, 2, 1, 4],
    [6, 2, 3, 1, 8, 7, 4, 5, 9],
    [4, 8, 5, 6, 9, 3, 7, 2, 1],
    [9, 1, 7, 5, 2, 4, 3, 8, 6],
];

fn transposed(grid: &Grid) -> Grid {
    let mut out = Grid::new();
    for r in 0..9 {
        for c in 0..9 {
            out.set(c, r, grid.get(r, c));
        }
    }
    out
}

fn units_ok(units: Vec<[Cell; 9]>) -> bool {
    units.iter().all(|unit| unit_complete(unit))
}

fn rows_ok(grid: &Grid) -> bool {
    units_ok((0..9).map(|k| grid.row(k)).collect())
}

fn columns_ok(grid: &Grid) -> bool {
    units_ok((0..9).map(|k| grid.column(k)).collect())
}

fn blocks_ok(grid: &Grid) -> bool {
    units_ok((0..9).map(|k| grid.block(k)).collect())
}

#[test]
fn a_solved_grid_is_valid() {
    let grid = Grid::from_rows(&SOLVED);
    assert!(rows_ok(&grid) && columns_ok(&grid) && blocks_ok(&grid));
    assert!(grid.is_valid_solution());
}

#[test]
fn a_blank_or_partial_grid_is_not_valid() {
    assert!(!Grid::new().is_valid_solution());
    let mut grid = Grid::from_rows(&SOLVED);
    grid.set(4, 4, Cell::Empty);
    assert!(!grid.is_valid_solution());
    grid.set(4, 4, Cell::Digit(4));
    assert!(grid.is_valid_solution());
}

#[test]
fn values_that_are_no_digits_are_not_valid() {
    let mut grid = Grid::from_rows(&SOLVED);
    grid.set(0, 0, Cell::Digit(0));
    assert!(!grid.is_valid_solution());
    grid.set(0, 0, Cell::Digit(10));
    assert!(!grid.is_valid_solution());
    grid.set(0, 0, Cell::Digit(5));
    assert!(grid.is_valid_solution());
}

#[test]
fn valid_rows_alone_do_not_make_a_solution() {
    // Every row is 1..9: rows are complete, columns and blocks are not.
    let grid = Grid::from_rows(&[[1, 2, 3, 4, 5, 6, 7, 8, 9]; 9]);
    assert!(rows_ok(&grid));
    assert!(!columns_ok(&grid));
    assert!(!blocks_ok(&grid));
    assert!(!grid.is_valid_solution());
    // Its transpose has complete columns and nothing else.
    let turned = transposed(&grid);
    assert!(columns_ok(&turned));
    assert!(!rows_ok(&turned));
    assert!(!blocks_ok(&turned));
    assert!(!turned.is_valid_solution());
}

#[test]
fn valid_rows_and_columns_do_not_make_a_solution() {
    // Row r is 1..9 turned r places: rows and columns are complete, blocks are not.
    let mut rows = [[0u8; 9]; 9];
    for r in 0..9 {
        for c in 0..9 {
            rows[r][c] = ((r + c) % 9) as u8 + 1;
        }
    }
    let grid = Grid::from_rows(&rows);
    assert!(rows_ok(&grid));
    assert!(columns_ok(&grid));
    assert!(!blocks_ok(&grid));
    assert!(!grid.is_valid_solution());
}

#[test]
fn valid_rows_and_blocks_do_not_make_a_solution() {
    // Swapping two rows of one band keeps rows and blocks; here two cells of a
    // row are swapped instead, which keeps rows and breaks columns.
    let mut grid = Grid::from_rows(&SOLVED);
    let (a, b) = (grid.get(0, 0), grid.get(0, 1));
    grid.set(0, 0, b);
    grid.set(0, 1, a);
    assert!(rows_ok(&grid));
    assert!(blocks_ok(&grid));
    assert!(!columns_ok(&grid));
    assert!(!grid.is_valid_solution());
    // The transpose keeps columns and blocks and breaks rows: it is judged by
    // its own units, not by the grid it came from.
    let turned = transposed(&grid);
    assert!(columns_ok(&turned));
    assert!(blocks_ok(&turned));
    assert!(!rows_ok(&turned));
    assert!(!turned.is_valid_solution());
}

#[test]
fn a_transposed_solution_is_checked_for_itself() {
    let mut app = SudokuApp::default();
    app.generate_solution().unwrap();
    assert!(app.solution.is_valid_solution());
    let turned = transposed(&app.solution);
    let expected = rows_ok(&turned) && columns_ok(&turned) && blocks_ok(&turned);
    assert_eq!(turned.is_valid_solution(), expected);
    // Rows and columns change places under transposition.
    for k in 0..9 {
        assert_eq!(turned.row(k), app.solution.column(k));
        assert_eq!(turned.column(k), app.solution.row(k));
    }
}

#[test]
fn units_of_a_grid() {
    let grid = Grid::from_rows(&SOLVED);
    let digits = |values: [u8; 9]| values.map(Cell::Digit);
    assert_eq!(grid.row(1), digits([8, 4, 1, 7, 6, 5, 9, 3, 2]));
    assert_eq!(grid.column(1), digits([7, 4, 9, 6, 5, 3, 2, 8, 1]));
    assert_eq!(grid.block(0), digits([5, 7, 6, 8, 4, 1, 3, 9, 2]));
    assert_eq!(grid.block(5), digits([8, 9, 5, 6, 7, 3, 2, 1, 4]));
    assert_eq!(grid.block(8), digits([4, 5, 9, 7, 2, 1, 3, 8, 6]));
}

#[test]
fn a_digit_must_stand_exactly_once() {
    let unit = [1, 2, 3, 4, 5, 6, 7, 8, 8].map(Cell::Digit);
    assert!(holds_once(&unit, 1));
    assert!(!holds_once(&unit, 8));
    assert!(!holds_once(&unit, 9));
    assert!(!unit_complete(&unit));
    let unit = [9, 8, 7, 6, 5, 4, 3, 2, 1].map(Cell::Digit);
    assert!(unit_complete(&unit));
    assert!(!holds_once(&unit, 0));
    assert!(!unit_complete(&[Cell::Empty; 9]));
}

#[test]
fn zero_stands_for_a_blank_cell() {
    assert_eq!(Cell::from_value(0), Cell::Empty);
    assert_eq!(Cell::from_value(7), Cell::Digit(7));
    assert_eq!(Cell::from_value(12), Cell::Digit(12));
    let mut rows = SOLVED;
    rows[8][8] = 0;
    let grid = Grid::from_rows(&rows);
    assert_eq!(grid.get(8, 8), Cell::Empty);
    assert_eq!(grid.get(8, 7), Cell::Digit(8));
    assert_eq!(grid.get(0, 0), Cell::Digit(5));
}

#[test]
fn a_grid_is_written_out_as_it_was_read() {
    let mut rows = SOLVED;
    rows[3][3] = 0;
    rows[5][0] = 0;
    let grid = Grid::from_rows(&rows);
    assert_eq!(grid.to_rows(), rows);
    assert_eq!(Grid::new().to_rows(), [[0u8; 9]; 9]);
    assert_eq!(Cell::Empty.value(), 0);
    assert_eq!(Cell::Digit(6).value(), 6);
    assert_eq!(Cell::from_value(Cell::Digit(6).value()), Cell::Digit(6));
}

#[test]
fn cells_are_read_and_written_by_place() {
    let mut grid = Grid::new();
    grid.set(2, 7, Cell::Digit(3));
    for r in 0..9 {
        for c in 0..9 {
            let expected = if (r, c) == (2, 7) { Cell::Digit(3) } else { Cell::Empty };
            assert_eq!(grid.get(r, c), expected);
        }
    }
    assert_eq!(grid.cells[2][7], Cell::Digit(3));
}

#[test]
fn grids_compare_cell_by_cell() {
    let grid = Grid::from_rows(&SOLVED);
    assert!(grid.same_as(&Grid::from_rows(&SOLVED)));
    for r in 0..9 {
        for c in 0..9 {
            let mut other = grid;
            other.set(r, c, Cell::Empty);
            assert!(!grid.same_as(&other));
            assert!(!other.same_as(&grid));
        }
    }
}

#[test]
fn entries_are_read_from_their_characters() {
    assert_eq!(Cell::from_chars(&[]), Some(Cell::Empty));
    assert_eq!(Cell::from_chars(&['1']), Some(Cell::Digit(1)));
    assert_eq!(Cell::from_chars(&['5']), Some(Cell::Digit(5)));
    assert_eq!(Cell::from_chars(&['9']), Some(Cell::Digit(9)));
    assert_eq!(Cell::from_chars(&['0']), None);
    assert_eq!(Cell::from_chars(&['a']), None);
    assert_eq!(Cell::from_chars(&[' ']), None);
    assert_eq!(Cell::from_chars(&['1', '2']), None);
    assert_eq!(Cell::from_chars(&['٣']), None);
}

#[test]
fn cells_are_shown_by_one_character() {
    assert_eq!(Cell::Empty.to_char(), None);
    assert_eq!(Cell::Digit(1).to_char(), Some('1'));
    assert_eq!(Cell::Digit(9).to_char(), Some('9'));
    assert_eq!(Cell::Digit(0).to_char(), None);
    assert_eq!(Cell::Digit(10).to_char(), None);
    for d in 1..=9u8 {
        let ch = Cell::Digit(d).to_char().unwrap();
        assert_eq!(Cell::from_chars(&[ch]), Some(Cell::Digit(d)));
    }
}

#[test]
fn gaps_come_before_every_third_index_but_the_first() {
    let expected = [false, false, false, true, false, false, true, false, false, true];
    for (index, want) in expected.iter().enumerate() {
        assert_eq!(is_three(index), *want);
    }
    assert!(is_three(300));
    assert!(!is_three(301));
}
