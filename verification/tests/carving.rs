use sudoku_generator::carve::{
    carve_row, carve_with_draws, count_blanks, refusal_of, row_refusal_of,
};
use sudoku_generator::error::GenerationError;
use sudoku_generator::difficulty::Difficulty;
use sudoku_generator::grid::{Cell, Grid};
use sudoku_generator::session::SudokuApp;

const SOLVED: [[u8; 9]; 9] = [
    [5, 7, 6, 2, 3, 9, 1, 4, 8],
    [8, 4, 1, 7, 6, 5, 9, 3, 2],
    [3, 9, 2, 4, 1, 8, 5, 6, 7],
    [1, 6, 4, 3, 7, 2, 8, 9, 5],
    [2, 5, 8, 9, 4, 1, 6, 7, 3],
    [7, 3, 9, 8, 5, 6, 2, 1, 4],
    [6, 2, 3, 1, 8, 7, 4, 5, 9],
    [4, 8, 5, 6, 9, 3, 7, 2, 1],
    [9, 1, 7, 5, 2, 4, 3, 8, 6],
];

const CARVE_DRAWS: [u32; 60] = [
    15648, 59866, 40140, 60750, 3233, 56084, 23657, 3480, 4507, 64483, 63753, 34816, 29612, 35903,
    39651, 50948, 51105, 27399, 31071, 55846, 23754, 31556, 6025, 49095, 54670, 23469, 11721, 64340,
    7999, 29804, 29905, 7078, 7472, 40736, 50648, 5540, 39686, 60709, 17414, 38699, 23117, 20497,
    33584, 46641, 20300, 10367, 57287, 40997, 24858, 65297, 31756, 11674, 16626, 60336, 38534,
    32294, 11461, 28439, 11702, 134,
];

fn many_draws() -> Vec<u32> {
    let mut word: u32 = 7;
    let mut draws = Vec::new();
    for _ in 0..2000 {
        word = word.wrapping_mul(1664525).wrapping_add(1013904223);
        draws.push(word >> 16);
    }
    draws
}

fn blanks_of(grid: &Grid) -> Vec<usize> {
    (0..9).map(|r| count_blanks(&grid.row(r))).collect()
}

#[test]
fn fixed_draws_carve_the_expected_puzzle() {
    let solution = Grid::from_rows(&SOLVED);
    let puzzle = carve_with_draws(&solution, 4, &CARVE_DRAWS).unwrap();
    let expected = Grid::from_rows(&[
        [0, 7, 0, 2, 3, 9, 0, 0, 8],
        [8, 4, 1, 7, 0, 0, 0, 0, 2],
        [3, 9, 0, 0, 1, 8, 0, 6, 0],
        [1, 0, 0, 0, 0, 2, 8, 9, 5],
        [0, 5, 8, 0, 0, 1, 0, 7, 3],
        [7, 3, 9, 8, 0, 0, 2, 0, 0],
        [6, 2, 0, 1, 0, 0, 4, 5, 0],
        [4, 8, 5, 0, 0, 0, 7, 2, 0],
        [0, 1, 0, 5, 2, 0, 3, 8, 0],
    ]);
    assert_eq!(puzzle.cells, expected.cells);
    // The same draws carve the same puzzle again, and more draws after them change nothing.
    assert_eq!(carve_with_draws(&solution, 4, &CARVE_DRAWS).unwrap().cells, expected.cells);
    assert_eq!(many_draws()[..60], CARVE_DRAWS);
    assert_eq!(carve_with_draws(&solution, 4, &many_draws()).unwrap(), expected);
}

#[test]
fn draws_on_blank_cells_are_passed_over() {
    let solution = Grid::from_rows(&SOLVED);
    let draws = [0, 0, 1, 3, 4, 8, 8, 7, 2, 2, 2, 2, 5, 0, 1, 0, 1, 0, 1, 0, 1, 0, 1, 6];
    let puzzle = carve_with_draws(&solution, 2, &draws).unwrap();
    let expected = Grid::from_rows(&[
        [0, 0, 6, 2, 3, 9, 1, 4, 8],
        [8, 4, 1, 0, 0, 5, 9, 3, 2],
        [3, 9, 2, 4, 1, 8, 5, 0, 0],
        [1, 6, 0, 3, 7, 0, 8, 9, 5],
        [0, 0, 8, 9, 4, 1, 6, 7, 3],
        [0, 0, 9, 8, 5, 6, 2, 1, 4],
        [0, 0, 3, 1, 8, 7, 4, 5, 9],
        [0, 0, 5, 6, 9, 3, 7, 2, 1],
        [0, 0, 7, 5, 2, 4, 3, 8, 6],
    ]);
    assert_eq!(puzzle.cells, expected.cells);
}

#[test]
fn a_row_is_carved_from_where_the_draws_stand() {
    let row = Grid::from_rows(&SOLVED).row(0);
    let draws = [100, 0, 9, 10, 4];
    // Starting at the second draw: columns 0, 0 (passed over) and 1.
    let (carved, next) = carve_row(&row, 2, &draws, 1).unwrap();
    assert_eq!(next, 4);
    assert_eq!(carved[0], Cell::Empty);
    assert_eq!(carved[1], Cell::Empty);
    assert_eq!(&carved[2..], &row[2..]);
    assert_eq!(count_blanks(&carved), 2);
}

#[test]
fn carving_nothing_returns_the_solution() {
    let solution = Grid::from_rows(&SOLVED);
    let puzzle = carve_with_draws(&solution, 0, &CARVE_DRAWS).unwrap();
    assert_eq!(puzzle.cells, solution.cells);
    // No draw is needed for it.
    let puzzle = carve_with_draws(&solution, 0, &[]).unwrap();
    assert_eq!(puzzle.cells, solution.cells);
    let (row, next) = carve_row(&solution.row(3), 0, &[], 7).unwrap();
    assert_eq!(row, solution.row(3));
    assert_eq!(next, 7);
}

#[test]
fn carving_all_nine_blanks_every_row() {
    let solution = Grid::from_rows(&SOLVED);
    let mut draws: Vec<u32> = Vec::new();
    for _ in 0..9 {
        draws.extend(0..9u32);
    }
    let puzzle = carve_with_draws(&solution, 9, &draws).unwrap();
    assert_eq!(puzzle.cells, Grid::new().cells);
    assert_eq!(blanks_of(&puzzle), vec![9; 9]);
}

#[test]
fn more_than_nine_removals_are_refused() {
    let solution = Grid::from_rows(&SOLVED);
    let draws = vec![3u32; 1000];
    assert_eq!(
        carve_with_draws(&solution, 10, &draws),
        Err(GenerationError::RemovalCountTooLarge)
    );
    assert_eq!(
        carve_with_draws(&solution, usize::MAX, &draws),
        Err(GenerationError::RemovalCountTooLarge)
    );
    assert_eq!(
        carve_row(&solution.row(0), 10, &draws, 0),
        Err(GenerationError::RemovalCountTooLarge)
    );
}

#[test]
fn too_few_draws_are_reported() {
    let solution = Grid::from_rows(&SOLVED);
    assert_eq!(carve_with_draws(&solution, 1, &[]), Err(GenerationError::DrawsExhausted));
    // Eight draws serve eight rows; the ninth row finds none.
    assert_eq!(carve_with_draws(&solution, 1, &[0; 8]), Err(GenerationError::DrawsExhausted));
    assert!(carve_with_draws(&solution, 1, &[0; 9]).is_ok());
    // Draws that keep naming one column never blank a second cell.
    assert_eq!(
        carve_row(&solution.row(0), 2, &[4; 500], 0),
        Err(GenerationError::DrawsExhausted)
    );
    // A start beyond the draws leaves nothing to use.
    assert_eq!(carve_row(&solution.row(0), 1, &[4; 5], 6), Err(GenerationError::DrawsExhausted));
}

#[test]
fn a_blank_grid_cannot_be_carved() {
    let blank = Grid::new();
    assert_eq!(carve_with_draws(&blank, 1, &CARVE_DRAWS), Err(GenerationError::NotEnoughCells));
    assert_eq!(carve_with_draws(&blank, 1, &[]), Err(GenerationError::NotEnoughCells));
    assert_eq!(carve_with_draws(&blank, 0, &CARVE_DRAWS), Ok(blank));
}

#[test]
fn a_row_with_too_few_cells_is_refused_at_once() {
    let solution = Grid::from_rows(&SOLVED);
    let mut row = [Cell::Empty; 9];
    row[4] = Cell::Digit(7);
    assert_eq!(row_refusal_of(&row, 0), None);
    assert_eq!(row_refusal_of(&row, 1), None);
    assert_eq!(row_refusal_of(&row, 2), Some(GenerationError::NotEnoughCells));
    assert_eq!(row_refusal_of(&row, 10), Some(GenerationError::RemovalCountTooLarge));
    assert_eq!(row_refusal_of(&solution.row(0), 9), None);
    // Refused whatever the draws, and carved where the cells suffice.
    assert_eq!(carve_row(&row, 2, &many_draws(), 0), Err(GenerationError::NotEnoughCells));
    assert_eq!(carve_row(&row, 2, &[], 0), Err(GenerationError::NotEnoughCells));
    assert_eq!(carve_row(&row, 1, &[3, 4], 0), Ok(([Cell::Empty; 9], 2)));
    assert_eq!(carve_row(&row, 1, &[3], 0), Err(GenerationError::DrawsExhausted));
}

#[test]
fn a_grid_with_one_row_too_blank_is_refused_at_once() {
    let mut grid = Grid::from_rows(&SOLVED);
    assert_eq!(refusal_of(&grid, 9), None);
    assert_eq!(refusal_of(&grid, 10), Some(GenerationError::RemovalCountTooLarge));
    for c in 0..6 {
        grid.set(8, c, Cell::Empty);
    }
    assert_eq!(refusal_of(&grid, 3), None);
    assert_eq!(refusal_of(&grid, 4), Some(GenerationError::NotEnoughCells));
    assert_eq!(refusal_of(&Grid::new(), 0), None);
    assert_eq!(refusal_of(&Grid::new(), 1), Some(GenerationError::NotEnoughCells));
    // The last row decides, though the rows before it could be carved.
    assert_eq!(carve_with_draws(&grid, 4, &many_draws()), Err(GenerationError::NotEnoughCells));
    let puzzle = carve_with_draws(&grid, 3, &many_draws()).unwrap();
    assert_eq!(blanks_of(&puzzle), vec![3, 3, 3, 3, 3, 3, 3, 3, 9]);
}

#[test]
fn kept_cells_equal_the_solution() {
    let solution = Grid::from_rows(&SOLVED);
    for removals in 0..=9 {
        let puzzle = carve_with_draws(&solution, removals, &many_draws()).unwrap();
        for r in 0..9 {
            for c in 0..9 {
                let cell = puzzle.get(r, c);
                assert!(cell == Cell::Empty || cell == solution.get(r, c));
            }
        }
    }
}

#[test]
fn every_row_loses_exactly_the_removal_count() {
    let solution = Grid::from_rows(&SOLVED);
    for removals in 0..=9 {
        let puzzle = carve_with_draws(&solution, removals, &many_draws()).unwrap();
        for r in 0..9 {
            let blanks = count_blanks(&puzzle.row(r));
            assert_eq!(blanks, removals);
            assert_eq!(9 - blanks, 9 - removals);
        }
    }
}

#[test]
fn easy_puzzle_has_four_blanks_per_row() {
    assert_eq!(Difficulty::Easy.removals(), 4);
    let mut app = SudokuApp::default();
    app.difficulty = Difficulty::Easy;
    app.create_puzzle().unwrap();
    assert!(app.solution.is_valid_solution());
    let blanks = blanks_of(&app.puzzle);
    assert_eq!(blanks, vec![4; 9]);
    let total: usize = blanks.iter().sum();
    assert_eq!(total, 36);
    assert_eq!(81 - total, 45);
    for r in 0..9 {
        for c in 0..9 {
            let cell = app.puzzle.get(r, c);
            assert!(cell == Cell::Empty || cell == app.solution.get(r, c));
        }
    }
}

#[test]
fn session_row_carving_follows_the_difficulty() {
    let solution = Grid::from_rows(&SOLVED);
    let levels = [(Difficulty::Easy, 4), (Difficulty::Medium, 5), (Difficulty::Hard, 6)];
    for (level, expected) in levels {
        let mut app = SudokuApp::default();
        app.difficulty = level;
        let mut row = solution.row(2);
        app.try_make_puzzle(&mut row).unwrap();
        assert_eq!(count_blanks(&row), expected);
        for c in 0..9 {
            assert!(row[c] == Cell::Empty || row[c] == solution.get(2, c));
        }
    }
}

#[test]
fn session_row_carving_gives_up_on_a_blank_row() {
    let app = SudokuApp::default();
    let mut row = [Cell::Empty; 9];
    assert_eq!(app.try_make_puzzle(&mut row), Err(GenerationError::NotEnoughCells));
    assert_eq!(row, [Cell::Empty; 9]);
    // Three cells are fewer than the four that the easy level blanks.
    let mut row = [Cell::Empty; 9];
    row[0] = Cell::Digit(1);
    row[1] = Cell::Digit(2);
    row[2] = Cell::Digit(3);
    let before = row;
    assert_eq!(app.try_make_puzzle(&mut row), Err(GenerationError::NotEnoughCells));
    assert_eq!(row, before);
    row[3] = Cell::Digit(4);
    assert_eq!(app.try_make_puzzle(&mut row), Ok(()));
    assert_eq!(row, [Cell::Empty; 9]);
}

#[test]
fn counting_blanks() {
    assert_eq!(count_blanks(&[Cell::Empty; 9]), 9);
    assert_eq!(count_blanks(&Grid::from_rows(&SOLVED).row(0)), 0);
    let mut row = [Cell::Digit(1); 9];
    row[0] = Cell::Empty;
    row[8] = Cell::Empty;
    assert_eq!(count_blanks(&row), 2);
}
