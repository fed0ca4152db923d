use vstd::prelude::*;

use crate::grid::Sudoku;
use crate::grid::set_cell;

verus! {

/// The board with every cell blank.
pub open spec fn blank_board() -> Sudoku {
    Sudoku {
        sudoku: vstd::array::spec_array_fill_for_copy_type::<[u8; 9], 9>(
            vstd::array::spec_array_fill_for_copy_type::<u8, 9>(0u8),
        ),
    }
}

/// A decimal digit character.
pub open spec fn is_digit_char(c: char) -> bool {
    '0' <= c <= '9'
}

/// The digit a decimal digit character stands for.
pub open spec fn digit_of(c: char) -> u8
    recommends
        is_digit_char(c),
{
    if c == '0' {
        0
    } else if c == '1' {
        1
    } else if c == '2' {
        2
    } else if c == '3' {
        3
    } else if c == '4' {
        4
    } else if c == '5' {
        5
    } else if c == '6' {
        6
    } else if c == '7' {
        7
    } else if c == '8' {
        8
    } else {
        9
    }
}

/// Blank space that may surround the digits of a line.
pub open spec fn is_space_char(c: char) -> bool {
    c == ' ' || c == '\t' || c == '\r'
}

/// One step of the parser's scan over the input, character by character.
///
/// `i` is the position in the input, `x` and `y` the column and row the next
/// digit would land in, `gap` whether the digits of the current line were
/// already closed off by blank space, and `g` the board built so far. `None`
/// means the input is malformed: a character that is neither a digit, a line
/// break nor blank space; a digit beyond the ninth of a line or the ninth
/// line; or a digit after a gap inside its line, which edge-trimming cannot
/// absorb.
pub open spec fn scan(s: Seq<char>, i: int, x: int, y: int, gap: bool, g: Sudoku) -> Option<
    Sudoku,
>
    decreases s.len() - i,
{
    if i < 0 || i >= s.len() {
        Some(g)
    } else {
        let c = s[i];
        if c == '\n' {
            scan(s, i + 1, 0, y + 1, false, g)
        } else if is_space_char(c) {
            scan(s, i + 1, x, y, gap || x > 0, g)
        } else if is_digit_char(c) {
            if gap || x >= 9 || y >= 9 {
                None
            } else {
                scan(s, i + 1, x + 1, y, false, set_cell(g, x, y, digit_of(c)))
            }
        } else {
            None
        }
    }
}

/// What parsing the whole input yields, starting from a blank board.
pub open spec fn parsed(s: Seq<char>) -> Option<Sudoku> {
    scan(s, 0, 0, 0, false, blank_board())
}

/// The digit character for `v`.
pub open spec fn digit_char(v: u8) -> char
    recommends
        v <= 9,
{
    if v == 0 {
        '0'
    } else if v == 1 {
        '1'
    } else if v == 2 {
        '2'
    } else if v == 3 {
        '3'
    } else if v == 4 {
        '4'
    } else if v == 5 {
        '5'
    } else if v == 6 {
        '6'
    } else if v == 7 {
        '7'
    } else if v == 8 {
        '8'
    } else {
        '9'
    }
}

/// Character `k` of the rendered board. Each row takes 20 characters: a pipe,
/// then each of its nine digits followed by a pipe, then a line break.
pub open spec fn render_char(s: Sudoku, k: int) -> char {
    let y = k / 20;
    let p = k % 20;
    if p == 19 {
        '\n'
    } else if p % 2 == 0 {
        '|'
    } else {
        digit_char(s.cell(p / 2, y))
    }
}

/// The rendered board: nine lines of pipe-separated digits.
pub open spec fn rendered(s: Sudoku) -> Seq<char> {
    Seq::new(180, |k: int| render_char(s, k))
}

/// The digit character for `v`, as a one-character string slice.
fn digit_str(v: u8) -> (r: &'static str)
    requires
        v <= 9,
    ensures
        r@ =~= seq![digit_char(v)],
{
    proof {
        reveal_strlit("0");
        reveal_strlit("1");
        reveal_strlit("2");
        reveal_strlit("3");
        reveal_strlit("4");
        reveal_strlit("5");
        reveal_strlit("6");
        reveal_strlit("7");
        reveal_strlit("8");
        reveal_strlit("9");
    }
    if v == 0 {
        "0"
    } else if v == 1 {
        "1"
    } else if v == 2 {
        "2"
    } else if v == 3 {
        "3"
    } else if v == 4 {
        "4"
    } else if v == 5 {
        "5"
    } else if v == 6 {
        "6"
    } else if v == 7 {
        "7"
    } else if v == 8 {
        "8"
    } else {
        "9"
    }
}

impl Sudoku {
    /// Reads a board from lines of digit characters, one line per row, top
    /// to bottom, at most nine digits per line, with blank space allowed at
    /// a line's edges. The caller owes a well-formed input: `scan` accepts
    /// exactly the inputs this parser is defined on.
    #[verifier::loop_isolation(false)]
    pub fn from_str(input: &str) -> (r: Sudoku)
        requires
            parsed(input@) is Some,
        ensures
            Some(r) == parsed(input@),
            r.wf(),
    {
        let n = input.unicode_len();
        let mut sudoku = Sudoku { sudoku: [[0u8; 9]; 9] };
        let mut x: usize = 0;
        let mut y: usize = 0;
        let mut gap: bool = false;
        proof {
            assert(sudoku == blank_board());
            assert(sudoku.wf());
        }
        for k in 0..n
            invariant
                scan(input@, k as int, x as int, y as int, gap, sudoku) == parsed(input@),
                sudoku.wf(),
                x <= 9,
                y <= k,
        {
            let c = input.get_char(k);
            if c == '\n' {
                y = y + 1;
                x = 0;
                gap = false;
            } else if c == ' ' || c == '\t' || c == '\r' {
                if x > 0 {
                    gap = true;
                }
            } else {
                let v: u8 = match c {
                    '0' => 0,
                    '1' => 1,
                    '2' => 2,
                    '3' => 3,
                    '4' => 4,
                    '5' => 5,
                    '6' => 6,
                    '7' => 7,
                    '8' => 8,
                    '9' => 9,
                    _ => {
                        proof {
                            assert(scan(input@, k as int, x as int, y as int, gap, sudoku)
                                is None);
                        }
                        0
                    },
                };
                proof {
                    assert(is_digit_char(c) && v == digit_of(c));
                    if gap || x >= 9 || y >= 9 {
                        assert(scan(input@, k as int, x as int, y as int, gap, sudoku) is None);
                        assert(false);
                    }
                }
                sudoku = sudoku.try_value(x, y, v);
                x = x + 1;
            }
        }
        sudoku
    }

    /// Renders the board for debugging: one line per row, each digit between
    /// pipe characters. This is not the format `from_str` reads.
    #[verifier::loop_isolation(false)]
    pub fn to_string(&self) -> (out: String)
        requires
            self.wf(),
        ensures
            out@ == rendered(*self),
    {
        let mut out = String::new();
        for y in 0..9usize
            invariant
                out@.len() == 20 * y,
                forall|k: int| 0 <= k < 20 * y ==> out@[k] == render_char(*self, k),
        {
            out.append("|");
            proof {
                reveal_strlit("|");
            }
            for x in 0..9usize
                invariant
                    out@.len() == 20 * y + 1 + 2 * x,
                    forall|k: int| 0 <= k < 20 * y + 1 + 2 * x ==> out@[k] == render_char(*self, k),
            {
                let value = self.sudoku[y][x];
                proof {
                    assert(value == self.cell(x as int, y as int));
                }
                out.append(digit_str(value));
                out.append("|");
                proof {
                    reveal_strlit("|");
                    assert(out@[20 * y + 1 + 2 * x] == digit_char(self.cell(x as int, y as int)));
                    assert((20 * y + 1 + 2 * x) / 20 == y);
                    assert((20 * y + 1 + 2 * x) % 20 == 1 + 2 * x);
                    assert((20 * y + 2 + 2 * x) / 20 == y);
                    assert((20 * y + 2 + 2 * x) % 20 == 2 + 2 * x);
                }
            }
            out.append("\n");
            proof {
                reveal_strlit("\n");
                assert((20 * y + 19) / 20 == y && (20 * y + 19) % 20 == 19);
            }
        }
        proof {
            assert(out@ =~= rendered(*self));
        }
        out
    }
}

} // verus!
