use vstd::prelude::*;

verus! {

/// The column (or row) of the top-left cell of the 3x3 box that contains
/// column (or row) `c`.
pub open spec fn box_origin(c: int) -> int {
    (c / 3) * 3
}

/// Two distinct cells see each other: they share a row, a column, or a 3x3
/// box, so a Sudoku solution may not give them the same digit.
pub open spec fn peers(x1: int, y1: int, x2: int, y2: int) -> bool {
    &&& !(x1 == x2 && y1 == y2)
    &&& (y1 == y2 || x1 == x2 || (x1 / 3 == x2 / 3 && y1 / 3 == y2 / 3))
}

/// The board `s` with digit `v` written at column `x`, row `y`.
pub open spec fn set_cell(s: Sudoku, x: int, y: int, v: u8) -> Sudoku {
    Sudoku {
        sudoku: vstd::array::spec_array_update(
            s.sudoku,
            y,
            vstd::array::spec_array_update(s.sudoku[y], x, v),
        ),
    }
}

/// One candidate board state: a 9x9 matrix of digits, row-major
/// (`sudoku[row][col]`), where 0 marks an unassigned cell and 1 through 9 are
/// placed digits.
#[derive(Clone, Copy, PartialEq, Eq, Debug)]
pub struct Sudoku {
    pub sudoku: [[u8; 9]; 9],
}

impl Sudoku {
    /// The digit stored at column `x`, row `y`.
    pub open spec fn cell(self, x: int, y: int) -> u8 {
        self.sudoku[y][x]
    }

    /// Every cell holds a digit 0 through 9.
    pub open spec fn wf(self) -> bool {
        forall|x: int, y: int|
            0 <= x < 9 && 0 <= y < 9 ==> #[trigger] self.cell(x, y) <= 9
    }

    /// No two cells that see each other hold the same nonzero digit: the
    /// board breaks no Sudoku constraint (blank cells constrain nothing).
    pub open spec fn consistent(self) -> bool {
        forall|x1: int, y1: int, x2: int, y2: int|
            0 <= x1 < 9 && 0 <= y1 < 9 && 0 <= x2 < 9 && 0 <= y2 < 9
                && peers(x1, y1, x2, y2) && #[trigger] self.cell(x1, y1) != 0
                ==> self.cell(x1, y1) != #[trigger] self.cell(x2, y2)
    }

    /// What `is_valid` computes: only an equal nonzero value elsewhere in
    /// the cell's 3x3 box, row or column invalidates it, so a blank cell is
    /// always locally valid. The box clause skips a cell only when it
    /// differs from the target in both coordinates; a box cell that shares
    /// the row or the column is covered by the row and column clauses
    /// instead.
    pub open spec fn valid_at(self, x: int, y: int) -> bool {
        let v = self.cell(x, y);
        if v == 0 {
            true
        } else {
            &&& forall|i: int, j: int|
                box_origin(x) <= i < box_origin(x) + 3 && box_origin(y) <= j < box_origin(y) + 3
                    && i != x && j != y ==> #[trigger] self.cell(i, j) != v
            &&& forall|i: int| 0 <= i < 9 && i != x ==> #[trigger] self.cell(i, y) != v
            &&& forall|j: int| 0 <= j < 9 && j != y ==> #[trigger] self.cell(x, j) != v
        }
    }

    /// True iff the cell at column `x`, row `y` already holds a digit.
    pub fn is_set(&self, x: usize, y: usize) -> (r: bool)
        requires
            x < 9,
            y < 9,
        ensures
            r == (self.cell(x as int, y as int) != 0),
    {
        self.sudoku[y][x] > 0
    }

    /// A copy of the board with `val` written at column `x`, row `y`.
    pub fn try_value(&self, x: usize, y: usize, val: u8) -> (r: Sudoku)
        requires
            x < 9,
            y < 9,
        ensures
            r == set_cell(*self, x as int, y as int, val),
            r.cell(x as int, y as int) == val,
            forall|i: int, j: int|
                0 <= i < 9 && 0 <= j < 9 && !(i == x && j == y)
                    ==> #[trigger] r.cell(i, j) == self.cell(i, j),
    {
        let mut sudoku = Sudoku { sudoku: self.sudoku };
        sudoku.sudoku[y][x] = val;
        proof {
            assert(sudoku.sudoku@ == self.sudoku@.update(
                y as int,
                vstd::array::spec_array_update(self.sudoku[y as int], x as int, val),
            ));
            assert(sudoku.sudoku =~= set_cell(*self, x as int, y as int, val).sudoku);
        }
        sudoku
    }

    /// Checks the digit currently stored at column `x`, row `y` against
    /// every other cell of its 3x3 box, then of its row, then of its column.
    /// Only an equal nonzero value invalidates: a blank cell is always
    /// locally valid.
    #[verifier::loop_isolation(false)]
    pub fn is_valid(&self, x: usize, y: usize) -> (r: bool)
        requires
            x < 9,
            y < 9,
        ensures
            r == self.valid_at(x as int, y as int),
    {
        let lower_x = (x / 3) * 3;
        let lower_y = (y / 3) * 3;

        let value = self.sudoku[y][x];

        if value == 0 {
            return true;
        }

        for i in lower_x..(lower_x + 3)
            invariant
                forall|i0: int, j0: int|
                    lower_x <= i0 < i && lower_y <= j0 < lower_y + 3 && i0 != x && j0 != y
                        ==> #[trigger] self.cell(i0, j0) != value,
        {
            for j in lower_y..(lower_y + 3)
                invariant
                    forall|i0: int, j0: int|
                        lower_x <= i0 < i && lower_y <= j0 < lower_y + 3 && i0 != x && j0 != y
                            ==> #[trigger] self.cell(i0, j0) != value,
                    forall|j0: int|
                        lower_y <= j0 < j && i != x && j0 != y
                            ==> #[trigger] self.cell(i as int, j0) != value,
            {
                if i != x && j != y && self.sudoku[j][i] == value {
                    proof {
                        assert(lower_x == box_origin(x as int));
                        assert(lower_y == box_origin(y as int));
                        assert(self.cell(i as int, j as int) == value);
                    }
                    return false;
                }
            }
        }

        for i in 0..9usize
            invariant
                forall|i0: int| 0 <= i0 < i && i0 != x ==> #[trigger] self.cell(i0, y as int) != value,
        {
            if i != x && self.sudoku[y][i] == value {
                proof {
                    assert(self.cell(i as int, y as int) == value);
                }
                return false;
            }
        }

        for j in 0..9usize
            invariant
                forall|j0: int| 0 <= j0 < j && j0 != y ==> #[trigger] self.cell(x as int, j0) != value,
        {
            if j != y && self.sudoku[j][x] == value {
                proof {
                    assert(self.cell(x as int, j as int) == value);
                }
                return false;
            }
        }

        true
    }

    /// A cell passes `valid_at` exactly when it is blank or no cell that
    /// sees it holds the same digit: the box cells that the box clause of
    /// `valid_at` skips are the ones sharing the target's row or column, and
    /// the row and column clauses cover those.
    pub proof fn lemma_valid_at_peers(self, x: int, y: int)
        requires
            0 <= x < 9,
            0 <= y < 9,
        ensures
            self.valid_at(x, y) <==> (self.cell(x, y) == 0 || forall|i: int, j: int|
                0 <= i < 9 && 0 <= j < 9 && peers(i, j, x, y)
                    ==> #[trigger] self.cell(i, j) != self.cell(x, y)),
    {
        let v = self.cell(x, y);
        if v != 0 && self.valid_at(x, y) {
            assert forall|i: int, j: int|
                0 <= i < 9 && 0 <= j < 9 && peers(i, j, x, y)
                    implies #[trigger] self.cell(i, j) != v by {
                if j == y {
                    assert(self.cell(i, y) != v);
                } else if i == x {
                    assert(self.cell(x, j) != v);
                } else {
                    assert(box_origin(x) <= i < box_origin(x) + 3);
                    assert(box_origin(y) <= j < box_origin(y) + 3);
                }
            }
        }
        if v != 0 && forall|i: int, j: int|
            0 <= i < 9 && 0 <= j < 9 && peers(i, j, x, y)
                ==> #[trigger] self.cell(i, j) != v {
            assert forall|i: int, j: int|
                box_origin(x) <= i < box_origin(x) + 3 && box_origin(y) <= j < box_origin(y) + 3
                    && i != x && j != y implies #[trigger] self.cell(i, j) != v by {
                assert(0 <= i < 9 && 0 <= j < 9);
                assert(peers(i, j, x, y));
            }
            assert forall|i: int| 0 <= i < 9 && i != x implies #[trigger] self.cell(i, y) != v by {
                assert(peers(i, y, x, y));
            }
            assert forall|j: int| 0 <= j < 9 && j != y implies #[trigger] self.cell(x, j) != v by {
                assert(peers(x, j, x, y));
            }
        }
    }

    /// Writing a digit that passes `valid_at` into a consistent board keeps
    /// the board consistent: the new digit conflicts with no cell that sees
    /// it, and every other pair of cells is unchanged.
    pub proof fn lemma_place_consistent(self, placed: Sudoku, x: int, y: int)
        requires
            self.consistent(),
            0 <= x < 9,
            0 <= y < 9,
            forall|i: int, j: int|
                0 <= i < 9 && 0 <= j < 9 && !(i == x && j == y)
                    ==> #[trigger] placed.cell(i, j) == self.cell(i, j),
            placed.valid_at(x, y),
        ensures
            placed.consistent(),
    {
        placed.lemma_valid_at_peers(x, y);
        assert forall|x1: int, y1: int, x2: int, y2: int|
            0 <= x1 < 9 && 0 <= y1 < 9 && 0 <= x2 < 9 && 0 <= y2 < 9
                && peers(x1, y1, x2, y2) && #[trigger] placed.cell(x1, y1) != 0
                implies placed.cell(x1, y1) != #[trigger] placed.cell(x2, y2) by {
            if x1 == x && y1 == y {
                assert(peers(x2, y2, x, y));
            } else if x2 == x && y2 == y {
                assert(peers(x1, y1, x, y));
            } else {
                assert(self.cell(x1, y1) != 0);
                assert(self.cell(x1, y1) != self.cell(x2, y2));
            }
        }
    }
}

} // verus!
