use sudoku_solver::partial_solution;
use sudoku_solver::solve;
use sudoku_solver::Sudoku;

fn board(cells: [[u8; 9]; 9]) -> Sudoku {
    Sudoku { sudoku: cells }
}

/// A complete valid Sudoku: each row is the top row cyclically shifted, the
/// shifts chosen so that columns and boxes work out as well.
fn full_valid_grid() -> Sudoku {
    board([
        [1, 2, 3, 4, 5, 6, 7, 8, 9],
        [4, 5, 6, 7, 8, 9, 1, 2, 3],
        [7, 8, 9, 1, 2, 3, 4, 5, 6],
        [2, 3, 4, 5, 6, 7, 8, 9, 1],
        [5, 6, 7, 8, 9, 1, 2, 3, 4],
        [8, 9, 1, 2, 3, 4, 5, 6, 7],
        [3, 4, 5, 6, 7, 8, 9, 1, 2],
        [6, 7, 8, 9, 1, 2, 3, 4, 5],
        [9, 1, 2, 3, 4, 5, 6, 7, 8],
    ])
}

fn assert_fully_valid(s: &Sudoku) {
    for y in 0..9 {
        for x in 0..9 {
            let v = s.sudoku[y][x];
            assert!(1 <= v && v <= 9, "cell ({}, {}) holds {}", x, y, v);
            assert!(s.is_valid(x, y), "cell ({}, {}) conflicts", x, y);
        }
    }
    // each digit exactly once per row, column and box
    for d in 1..=9u8 {
        for y in 0..9 {
            assert_eq!(s.sudoku[y].iter().filter(|&&v| v == d).count(), 1);
        }
        for x in 0..9 {
            assert_eq!((0..9).filter(|&y| s.sudoku[y][x] == d).count(), 1);
        }
        for by in 0..3 {
            for bx in 0..3 {
                let mut n = 0;
                for y in 3 * by..3 * by + 3 {
                    for x in 3 * bx..3 * bx + 3 {
                        if s.sudoku[y][x] == d {
                            n += 1;
                        }
                    }
                }
                assert_eq!(n, 1, "digit {} in box ({}, {})", d, bx, by);
            }
        }
    }
}

#[test]
fn empty_grid_finds_a_valid_completion() {
    let empty = board([[0; 9]; 9]);
    let solved = solve(empty);
    assert_fully_valid(&solved);
}

#[test]
fn one_blank_restores_the_unique_completion() {
    let full = full_valid_grid();
    let mut puzzle = full;
    puzzle.sudoku[4][4] = 0;
    assert_eq!(solve(puzzle), full);
}

#[test]
fn unsolvable_grid_returns_unchanged() {
    // a full valid grid, one cell blanked, and a neighbor altered so that the
    // one digit the row still allows is already taken in the column: no
    // completion exists, and the solver hands the puzzle back as it was
    let mut puzzle = full_valid_grid();
    puzzle.sudoku[8][8] = 0;
    puzzle.sudoku[8][7] = 8;
    assert_eq!(solve(puzzle), puzzle);
    assert!(partial_solution(puzzle, 0).is_none());
}

#[test]
fn solved_grid_passes_through_unchanged() {
    let full = full_valid_grid();
    assert_eq!(solve(full), full);
}

#[test]
fn solving_twice_gives_identical_output() {
    let mut puzzle = full_valid_grid();
    for x in 0..9 {
        puzzle.sudoku[0][x] = 0;
        puzzle.sudoku[5][x] = 0;
    }
    puzzle.sudoku[8][8] = 0;
    let first = solve(puzzle);
    let second = solve(puzzle);
    assert_eq!(first, second);
    assert_fully_valid(&first);
}

#[test]
fn givens_survive_solving() {
    let mut puzzle = full_valid_grid();
    for y in 0..9 {
        for x in 0..9 {
            if (x + y) % 3 != 0 {
                puzzle.sudoku[y][x] = 0;
            }
        }
    }
    let solved = solve(puzzle);
    assert_fully_valid(&solved);
    for y in 0..9 {
        for x in 0..9 {
            if puzzle.sudoku[y][x] != 0 {
                assert_eq!(solved.sudoku[y][x], puzzle.sudoku[y][x]);
            }
        }
    }
}

#[test]
fn empty_grid_search_succeeds_from_index_zero() {
    let empty = board([[0; 9]; 9]);
    let solved = partial_solution(empty, 0);
    assert!(solved.is_some());
}

#[test]
fn is_set_reports_nonzero_cells() {
    let mut g = board([[0; 9]; 9]);
    g.sudoku[2][7] = 4;
    assert!(g.is_set(7, 2));
    assert!(!g.is_set(2, 7));
}

#[test]
fn try_value_writes_one_cell_into_a_copy() {
    let g = board([[0; 9]; 9]);
    let h = g.try_value(3, 6, 8);
    assert_eq!(h.sudoku[6][3], 8);
    assert_eq!(g.sudoku[6][3], 0);
    for y in 0..9 {
        for x in 0..9 {
            if !(x == 3 && y == 6) {
                assert_eq!(h.sudoku[y][x], 0);
            }
        }
    }
}

#[test]
fn row_conflict_detected() {
    let mut g = board([[0; 9]; 9]);
    g.sudoku[0][0] = 7;
    g.sudoku[0][8] = 7;
    assert!(!g.is_valid(0, 0));
    assert!(!g.is_valid(8, 0));
}

#[test]
fn column_conflict_detected() {
    let mut g = board([[0; 9]; 9]);
    g.sudoku[1][4] = 2;
    g.sudoku[8][4] = 2;
    assert!(!g.is_valid(4, 1));
    assert!(!g.is_valid(4, 8));
}

#[test]
fn box_conflict_detected() {
    let mut g = board([[0; 9]; 9]);
    g.sudoku[0][0] = 9;
    g.sudoku[1][1] = 9;
    assert!(!g.is_valid(0, 0));
    assert!(!g.is_valid(1, 1));
}

#[test]
fn box_neighbor_on_the_same_row_still_conflicts() {
    // inside one box, on one row: the box loop skips this pair but the row
    // loop reports it
    let mut g = board([[0; 9]; 9]);
    g.sudoku[0][0] = 3;
    g.sudoku[0][2] = 3;
    assert!(!g.is_valid(0, 0));
    assert!(!g.is_valid(2, 0));
}

#[test]
fn blank_cells_are_always_locally_valid() {
    // only an equal nonzero neighbor invalidates: a blank cell passes even
    // beside other blanks or beside digits
    let empty = board([[0; 9]; 9]);
    assert!(empty.is_valid(0, 0));
    assert!(empty.is_valid(4, 4));
    let mut g = board([[0; 9]; 9]);
    g.sudoku[0][1] = 6;
    g.sudoku[1][0] = 2;
    assert!(g.is_valid(0, 0));
}

#[test]
fn distinct_digits_are_locally_valid() {
    let g = full_valid_grid();
    for y in 0..9 {
        for x in 0..9 {
            assert!(g.is_valid(x, y));
        }
    }
}
