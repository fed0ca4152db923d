use vstd::prelude::*;

use crate::grid::Sudoku;
use crate::grid::peers;
use crate::grid::set_cell;

verus! {

/// Column of the cell with row-major linear index `i`.
pub open spec fn idx_x(i: int) -> int {
    i % 9
}

/// Row of the cell with row-major linear index `i`.
pub open spec fn idx_y(i: int) -> int {
    i / 9
}

/// The digit at row-major linear index `i`.
pub open spec fn cell_at(s: Sudoku, i: int) -> u8 {
    s.cell(idx_x(i), idx_y(i))
}

/// `t` agrees with `s` on every cell with linear index below `n`.
pub open spec fn agrees_below(s: Sudoku, t: Sudoku, n: int) -> bool {
    forall|i: int| #![trigger cell_at(t, i)] #![trigger cell_at(s, i)]
        0 <= i < n ==> cell_at(t, i) == cell_at(s, i)
}

/// Every digit of `s` at linear index `n` or above keeps its place in `t`.
pub open spec fn keeps_givens_from(s: Sudoku, t: Sudoku, n: int) -> bool {
    forall|i: int| #![trigger cell_at(t, i)] #![trigger cell_at(s, i)]
        n <= i < 81 && cell_at(s, i) != 0 ==> cell_at(t, i) == cell_at(s, i)
}

/// Every cell with linear index `n` or above holds a digit.
pub open spec fn filled_from(t: Sudoku, n: int) -> bool {
    forall|i: int| n <= i < 81 ==> #[trigger] cell_at(t, i) != 0
}

/// `t` is a solution that the search, standing at linear index `n` on board
/// `s`, is still allowed to reach: a fully assigned, consistent board that
/// repeats all of `s` below `n` and keeps every digit of `s` from `n` on.
pub open spec fn completes_from(s: Sudoku, n: int, t: Sudoku) -> bool {
    &&& t.wf()
    &&& t.consistent()
    &&& filled_from(t, 0)
    &&& agrees_below(s, t, n)
    &&& keeps_givens_from(s, t, n)
}

/// Every nonzero cell of `s` keeps its digit in `t`.
pub open spec fn preserves_givens(s: Sudoku, t: Sudoku) -> bool {
    forall|x: int, y: int|
        0 <= x < 9 && 0 <= y < 9 && #[trigger] s.cell(x, y) != 0
            ==> #[trigger] t.cell(x, y) == s.cell(x, y)
}

/// The backtracking search as a mathematical function: what solving board
/// `s` from linear index `index` on yields. Past the last cell the board is
/// the solution; a filled cell is skipped; at a blank cell the digits are
/// tried in ascending order.
pub open spec fn spec_solution(s: Sudoku, index: int) -> Option<Sudoku>
    decreases (81 - index) * 11 + 10,
{
    if index < 0 || index >= 81 {
        Some(s)
    } else if cell_at(s, index) != 0 {
        spec_solution(s, index + 1)
    } else {
        spec_search(s, index, 1)
    }
}

/// The candidate loop of the search: the first solution reachable from `s`
/// by writing one of the digits `value` through 9 at the blank cell `index`
/// and solving on, `None` when every one of them fails.
pub open spec fn spec_search(s: Sudoku, index: int, value: u8) -> Option<Sudoku>
    decreases (81 - index) * 11 + 10 - value,
{
    if !(0 <= index < 81 && 1 <= value <= 9) {
        None
    } else {
        let trial = set_cell(s, idx_x(index), idx_y(index), value);
        if trial.valid_at(idx_x(index), idx_y(index)) {
            match spec_solution(trial, index + 1) {
                Some(t) => Some(t),
                None => spec_search(s, index, (value + 1) as u8),
            }
        } else {
            spec_search(s, index, (value + 1) as u8)
        }
    }
}

/// What `solve` returns: the first completion the search finds, or the
/// board itself when the search finds none.
pub open spec fn spec_solve(s: Sudoku) -> Sudoku {
    match spec_solution(s, 0) {
        Some(t) => t,
        None => s,
    }
}

/// A board with a completion is itself consistent: its nonzero cells all
/// reappear unchanged in the completion, so a conflict between two of them
/// would be a conflict inside the consistent completion.
pub proof fn lemma_completable_consistent(s: Sudoku, t: Sudoku)
    requires
        completes_from(s, 0, t),
    ensures
        s.consistent(),
{
    assert forall|x1: int, y1: int, x2: int, y2: int|
        0 <= x1 < 9 && 0 <= y1 < 9 && 0 <= x2 < 9 && 0 <= y2 < 9
            && peers(x1, y1, x2, y2) && #[trigger] s.cell(x1, y1) != 0
            implies s.cell(x1, y1) != #[trigger] s.cell(x2, y2) by {
        let i1 = y1 * 9 + x1;
        let i2 = y2 * 9 + x2;
        assert(cell_at(t, i1) == cell_at(s, i1));
        if s.cell(x2, y2) != 0 {
            assert(cell_at(t, i2) == cell_at(s, i2));
            assert(t.cell(x1, y1) != t.cell(x2, y2));
        }
    }
}

/// Linear-index given-preservation, read back in cell coordinates.
pub proof fn lemma_keeps_givens_coords(s: Sudoku, t: Sudoku)
    requires
        keeps_givens_from(s, t, 0),
    ensures
        preserves_givens(s, t),
{
    assert forall|x: int, y: int|
        0 <= x < 9 && 0 <= y < 9 && #[trigger] s.cell(x, y) != 0
            implies #[trigger] t.cell(x, y) == s.cell(x, y) by {
        let i = y * 9 + x;
        assert(cell_at(t, i) == cell_at(s, i));
    }
}

/// Two boards that agree cell by cell are the same board.
pub proof fn lemma_cells_equal(s: Sudoku, t: Sudoku)
    requires
        forall|x: int, y: int|
            0 <= x < 9 && 0 <= y < 9 ==> #[trigger] t.cell(x, y) == s.cell(x, y),
    ensures
        t == s,
{
    assert forall|j: int| 0 <= j < 9 implies t.sudoku[j] == s.sudoku[j] by {
        assert forall|i: int| 0 <= i < 9 implies t.sudoku[j][i] == s.sudoku[j][i] by {
            assert(t.cell(i, j) == s.cell(i, j));
        }
        assert(t.sudoku[j] =~= s.sudoku[j]);
    }
    assert(t.sudoku =~= s.sudoku);
}

/// Nine pairwise distinct values, each a digit 1 through 9, cover every
/// digit 1 through 9: nine distinct values cannot fit into the eight digits
/// left after dropping one.
proof fn lemma_nine_distinct_digits_cover(vals: Seq<int>, d: int)
    requires
        vals.len() == 9,
        forall|k: int| 0 <= k < 9 ==> 1 <= #[trigger] vals[k] <= 9,
        forall|k1: int, k2: int|
            0 <= k1 < 9 && 0 <= k2 < 9 && k1 != k2 ==> vals[k1] != vals[k2],
        1 <= d <= 9,
    ensures
        exists|k: int| 0 <= k < 9 && vals[k] == d,
{
    broadcast use vstd::set::group_set_axioms;

    if !(exists|k: int| 0 <= k < 9 && vals[k] == d) {
        assert(vals.no_duplicates());
        vals.unique_seq_to_set();
        let range = vstd::set_lib::set_int_range(1, 10);
        vstd::set_lib::lemma_int_range(1, 10);
        let without = range.remove(d);
        assert forall|v: int| vals.to_set().contains(v) implies without.contains(v) by {
            let k = choose|k: int| 0 <= k < vals.len() && vals[k] == v;
            assert(1 <= vals[k] <= 9);
        }
        assert(vals.to_set().subset_of(without));
        vstd::set_lib::lemma_len_subset(vals.to_set(), without);
        assert(false);
    }
}

/// A cell of a fully assigned board holds a digit.
proof fn lemma_filled_cell(s: Sudoku, x: int, y: int)
    requires
        filled_from(s, 0),
        0 <= x < 9,
        0 <= y < 9,
    ensures
        s.cell(x, y) != 0,
{
    let i = y * 9 + x;
    assert(cell_at(s, i) != 0);
}

/// Row `y` holds digit `d` somewhere.
pub open spec fn row_has_digit(s: Sudoku, y: int, d: u8) -> bool {
    exists|x: int| 0 <= x < 9 && #[trigger] s.cell(x, y) == d
}

/// Column `x` holds digit `d` somewhere.
pub open spec fn col_has_digit(s: Sudoku, x: int, d: u8) -> bool {
    exists|y: int| 0 <= y < 9 && #[trigger] s.cell(x, y) == d
}

/// The 3x3 box in box column `bx`, box row `by` holds digit `d` somewhere.
pub open spec fn box_has_digit(s: Sudoku, bx: int, by: int, d: u8) -> bool {
    exists|x: int, y: int|
        3 * bx <= x < 3 * bx + 3 && 3 * by <= y < 3 * by + 3 && #[trigger] s.cell(x, y) == d
}

/// On a fully assigned consistent board, every row, every column and every
/// 3x3 box contains each digit 1 through 9 exactly once: at least once by
/// the first three clauses, at most once by the last, which forbids a
/// repeated digit anywhere inside a shared unit.
pub proof fn lemma_solved_board_valid(s: Sudoku)
    requires
        s.wf(),
        s.consistent(),
        filled_from(s, 0),
    ensures
        forall|y: int, d: u8| 0 <= y < 9 && 1 <= d <= 9 ==> #[trigger] row_has_digit(s, y, d),
        forall|x: int, d: u8| 0 <= x < 9 && 1 <= d <= 9 ==> #[trigger] col_has_digit(s, x, d),
        forall|bx: int, by: int, d: u8|
            0 <= bx < 3 && 0 <= by < 3 && 1 <= d <= 9 ==> #[trigger] box_has_digit(s, bx, by, d),
        forall|x1: int, y1: int, x2: int, y2: int|
            0 <= x1 < 9 && 0 <= y1 < 9 && 0 <= x2 < 9 && 0 <= y2 < 9 && peers(x1, y1, x2, y2)
                ==> #[trigger] s.cell(x1, y1) != #[trigger] s.cell(x2, y2),
{
    assert forall|x1: int, y1: int, x2: int, y2: int|
        0 <= x1 < 9 && 0 <= y1 < 9 && 0 <= x2 < 9 && 0 <= y2 < 9 && peers(x1, y1, x2, y2)
            implies #[trigger] s.cell(x1, y1) != #[trigger] s.cell(x2, y2) by {
        lemma_filled_cell(s, x1, y1);
    }
    assert forall|y: int, d: u8| 0 <= y < 9 && 1 <= d <= 9
        implies #[trigger] row_has_digit(s, y, d) by {
        let vals = Seq::new(9, |k: int| s.cell(k, y) as int);
        assert forall|k: int| 0 <= k < 9 implies 1 <= #[trigger] vals[k] <= 9 by {
            lemma_filled_cell(s, k, y);
        }
        assert forall|k1: int, k2: int|
            0 <= k1 < 9 && 0 <= k2 < 9 && k1 != k2 implies vals[k1] != vals[k2] by {
            assert(peers(k1, y, k2, y));
        }
        lemma_nine_distinct_digits_cover(vals, d as int);
        let k = choose|k: int| 0 <= k < 9 && vals[k] == d as int;
        assert(s.cell(k, y) == d);
    }
    assert forall|x: int, d: u8| 0 <= x < 9 && 1 <= d <= 9
        implies #[trigger] col_has_digit(s, x, d) by {
        let vals = Seq::new(9, |k: int| s.cell(x, k) as int);
        assert forall|k: int| 0 <= k < 9 implies 1 <= #[trigger] vals[k] <= 9 by {
            lemma_filled_cell(s, x, k);
        }
        assert forall|k1: int, k2: int|
            0 <= k1 < 9 && 0 <= k2 < 9 && k1 != k2 implies vals[k1] != vals[k2] by {
            assert(peers(x, k1, x, k2));
        }
        lemma_nine_distinct_digits_cover(vals, d as int);
        let k = choose|k: int| 0 <= k < 9 && vals[k] == d as int;
        assert(s.cell(x, k) == d);
    }
    assert forall|bx: int, by: int, d: u8| 0 <= bx < 3 && 0 <= by < 3 && 1 <= d <= 9
        implies #[trigger] box_has_digit(s, bx, by, d) by {
        let vals = Seq::new(9, |k: int| s.cell(3 * bx + k % 3, 3 * by + k / 3) as int);
        assert forall|k: int| 0 <= k < 9 implies 1 <= #[trigger] vals[k] <= 9 by {
            lemma_filled_cell(s, 3 * bx + k % 3, 3 * by + k / 3);
        }
        assert forall|k1: int, k2: int|
            0 <= k1 < 9 && 0 <= k2 < 9 && k1 != k2 implies vals[k1] != vals[k2] by {
            let x1 = 3 * bx + k1 % 3;
            let y1 = 3 * by + k1 / 3;
            let x2 = 3 * bx + k2 % 3;
            let y2 = 3 * by + k2 / 3;
            assert(x1 / 3 == bx && x2 / 3 == bx && y1 / 3 == by && y2 / 3 == by);
            assert(peers(x1, y1, x2, y2));
        }
        lemma_nine_distinct_digits_cover(vals, d as int);
        let k = choose|k: int| 0 <= k < 9 && vals[k] == d as int;
        assert(s.cell(3 * bx + k % 3, 3 * by + k / 3) == d);
    }
}

/// Fills the blank cells of `sudoku` from linear index `index` on, trying
/// the digits 1 through 9 in ascending order at each blank cell in row-major
/// order and backtracking when a digit conflicts with a cell that sees it.
///
/// Returns the first completion found. `None` means the search exhausted
/// every branch; no completion in the sense of `completes_from` then exists.
#[verifier::loop_isolation(false)]
pub fn partial_solution(sudoku: Sudoku, index: usize) -> (r: Option<Sudoku>)
    requires
        sudoku.wf(),
        index <= 81,
    ensures
        r == spec_solution(sudoku, index as int),
        match r {
            Some(out) => {
                &&& out.wf()
                &&& agrees_below(sudoku, out, index as int)
                &&& keeps_givens_from(sudoku, out, index as int)
                &&& filled_from(out, index as int)
                &&& (sudoku.consistent() ==> out.consistent())
            },
            None => forall|t: Sudoku| !completes_from(sudoku, index as int, t),
        },
    decreases 81 - index,
{
    let x = index % 9;
    let y = index / 9;
    let mut solution: Option<Sudoku> = None;

    if index == 81 {
        solution = Some(sudoku);
    } else if sudoku.is_set(x, y) {
        solution = partial_solution(sudoku, index + 1);
        proof {
            if solution is None {
                assert forall|t: Sudoku|
                    !completes_from(sudoku, index as int, t) by {
                    if completes_from(sudoku, index as int, t) {
                        assert(cell_at(t, index as int) == cell_at(sudoku, index as int));
                        assert(completes_from(sudoku, index as int + 1, t));
                    }
                }
            }
        }
    } else {
        let ghost gindex = index as int;
        let mut value: u8 = 1;
        while value <= 9 && solution.is_none()
            invariant
                1 <= value <= 10,
                match solution {
                    Some(out) => spec_solution(sudoku, gindex) == Some(out),
                    None => spec_solution(sudoku, gindex) == spec_search(sudoku, gindex, value),
                },
                solution is None ==> forall|t: Sudoku|
                    completes_from(sudoku, gindex, t) ==> #[trigger] cell_at(t, gindex) >= value,
                match solution {
                    Some(out) => {
                        &&& out.wf()
                        &&& agrees_below(sudoku, out, gindex)
                        &&& keeps_givens_from(sudoku, out, gindex)
                        &&& filled_from(out, gindex)
                        &&& (sudoku.consistent() ==> out.consistent())
                    },
                    None => true,
                },
            decreases 10 - value,
        {
            let trial = sudoku.try_value(x, y, value);
            proof {
                assert(trial.wf());
                assert forall|i: int| 0 <= i < 81 && i != gindex
                    implies #[trigger] cell_at(trial, i) == cell_at(sudoku, i) by {
                    assert(!(idx_x(i) == x as int && idx_y(i) == y as int));
                }
            }
            if trial.is_valid(x, y) {
                if let Some(result) = partial_solution(trial, index + 1) {
                    proof {
                        assert(agrees_below(sudoku, result, gindex));
                        assert(keeps_givens_from(sudoku, result, gindex));
                        assert(cell_at(result, gindex) == value);
                        assert(filled_from(result, gindex));
                        if sudoku.consistent() {
                            sudoku.lemma_place_consistent(trial, x as int, y as int);
                        }
                    }
                    solution = Some(result);
                } else {
                    proof {
                        assert forall|t: Sudoku|
                            completes_from(sudoku, gindex, t)
                                implies #[trigger] cell_at(t, gindex) >= value + 1 by {
                            if cell_at(t, gindex) == value {
                                assert(agrees_below(trial, t, gindex + 1));
                                assert(keeps_givens_from(trial, t, gindex + 1));
                                assert(completes_from(trial, gindex + 1, t));
                            }
                        }
                    }
                }
            } else {
                proof {
                    assert forall|t: Sudoku|
                        completes_from(sudoku, gindex, t)
                            implies #[trigger] cell_at(t, gindex) >= value + 1 by {
                        if cell_at(t, gindex) == value {
                            trial.lemma_valid_at_peers(x as int, y as int);
                            assert forall|i: int, j: int|
                                0 <= i < 9 && 0 <= j < 9 && peers(i, j, x as int, y as int)
                                    implies #[trigger] trial.cell(i, j)
                                        != trial.cell(x as int, y as int) by {
                                let ii = j * 9 + i;
                                assert(cell_at(trial, ii) == trial.cell(i, j));
                                if trial.cell(i, j) == value {
                                    assert(cell_at(t, ii) == cell_at(trial, ii));
                                    assert(t.cell(i, j) == value);
                                    assert(t.cell(i, j) != t.cell(x as int, y as int));
                                }
                            }
                            assert(trial.valid_at(x as int, y as int));
                        }
                    }
                }
            }
            value = value + 1;
        }
        proof {
            if solution is None {
                assert forall|t: Sudoku|
                    !completes_from(sudoku, gindex, t) by {
                    if completes_from(sudoku, gindex, t) {
                        assert(cell_at(t, gindex) != 0);
                        assert(t.cell(idx_x(gindex), idx_y(gindex)) <= 9);
                    }
                }
            }
        }
    }
    solution
}

/// Solves the board: hands back the first completion that the backtracking
/// search finds, or the board unchanged when the search exhausts every
/// branch without completing it.
pub fn solve(sudoku: Sudoku) -> (r: Sudoku)
    requires
        sudoku.wf(),
    ensures
        r == spec_solve(sudoku),
        preserves_givens(sudoku, r),
        (exists|t: Sudoku| completes_from(sudoku, 0, t)) ==> completes_from(sudoku, 0, r),
        sudoku.consistent() && !(exists|t: Sudoku| completes_from(sudoku, 0, t)) ==> r == sudoku,
        filled_from(sudoku, 0) ==> r == sudoku,
{
    let solution = partial_solution(sudoku, 0);
    match solution {
        Some(s) => {
            proof {
                lemma_keeps_givens_coords(sudoku, s);
                if sudoku.consistent() {
                    assert(completes_from(sudoku, 0, s));
                }
                if exists|t: Sudoku| completes_from(sudoku, 0, t) {
                    let t = choose|t: Sudoku| completes_from(sudoku, 0, t);
                    lemma_completable_consistent(sudoku, t);
                    assert(completes_from(sudoku, 0, s));
                }
                if filled_from(sudoku, 0) {
                    assert forall|x: int, y: int|
                        0 <= x < 9 && 0 <= y < 9 implies #[trigger] s.cell(x, y)
                            == sudoku.cell(x, y) by {
                        let i = y * 9 + x;
                        assert(cell_at(sudoku, i) != 0);
                        assert(cell_at(s, i) == cell_at(sudoku, i));
                    }
                    lemma_cells_equal(sudoku, s);
                }
            }
            s
        },
        None => sudoku,
    }
}

} // verus!
