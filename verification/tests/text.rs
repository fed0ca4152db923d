use sudoku_solver::Sudoku;

fn board(cells: [[u8; 9]; 9]) -> Sudoku {
    Sudoku { sudoku: cells }
}

#[test]
fn parses_nine_digit_lines() {
    let input = "123456789\n\
                 456789123\n\
                 789123456\n\
                 234567891\n\
                 567891234\n\
                 891234567\n\
                 345678912\n\
                 678912345\n\
                 912345678";
    let g = Sudoku::from_str(input);
    assert_eq!(g.sudoku[0], [1, 2, 3, 4, 5, 6, 7, 8, 9]);
    assert_eq!(g.sudoku[1], [4, 5, 6, 7, 8, 9, 1, 2, 3]);
    assert_eq!(g.sudoku[8], [9, 1, 2, 3, 4, 5, 6, 7, 8]);
}

#[test]
fn short_lines_leave_the_rest_blank() {
    let g = Sudoku::from_str("5\n\n 3 \n");
    let mut expected = board([[0; 9]; 9]);
    expected.sudoku[0][0] = 5;
    expected.sudoku[2][0] = 3;
    assert_eq!(g, expected);
}

#[test]
fn edge_space_around_digits_is_ignored() {
    let g = Sudoku::from_str("  123\t\n456\r\n\t789");
    let mut expected = board([[0; 9]; 9]);
    expected.sudoku[0][0] = 1;
    expected.sudoku[0][1] = 2;
    expected.sudoku[0][2] = 3;
    expected.sudoku[1][0] = 4;
    expected.sudoku[1][1] = 5;
    expected.sudoku[1][2] = 6;
    expected.sudoku[2][0] = 7;
    expected.sudoku[2][1] = 8;
    expected.sudoku[2][2] = 9;
    assert_eq!(g, expected);
}

#[test]
fn zeros_in_the_input_stay_blank() {
    let g = Sudoku::from_str("090\n005");
    let mut expected = board([[0; 9]; 9]);
    expected.sudoku[0][1] = 9;
    expected.sudoku[1][2] = 5;
    assert_eq!(g, expected);
}

#[test]
fn renders_rows_of_piped_digits() {
    let blank = board([[0; 9]; 9]);
    assert_eq!(blank.to_string(), "|0|0|0|0|0|0|0|0|0|\n".repeat(9));

    let mut g = board([[0; 9]; 9]);
    g.sudoku[0] = [1, 2, 3, 4, 5, 6, 7, 8, 9];
    g.sudoku[3][4] = 7;
    let expected = String::new()
        + "|1|2|3|4|5|6|7|8|9|\n"
        + "|0|0|0|0|0|0|0|0|0|\n"
        + "|0|0|0|0|0|0|0|0|0|\n"
        + "|0|0|0|0|7|0|0|0|0|\n"
        + "|0|0|0|0|0|0|0|0|0|\n"
        + "|0|0|0|0|0|0|0|0|0|\n"
        + "|0|0|0|0|0|0|0|0|0|\n"
        + "|0|0|0|0|0|0|0|0|0|\n"
        + "|0|0|0|0|0|0|0|0|0|\n";
    assert_eq!(g.to_string(), expected);
}

#[test]
fn parsed_fixture_solves_to_itself_with_one_blank() {
    let g = Sudoku::from_str(
        "123456789\n456789123\n789123456\n234567891\n567891234\n891234567\n345678912\n678912345\n912345670",
    );
    let solved = sudoku_solver::solve(g);
    assert_eq!(solved.sudoku[8][8], 8);
    let mut full = g;
    full.sudoku[8][8] = 8;
    assert_eq!(solved, full);
}
