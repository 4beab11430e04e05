use sudoku::grid::Puzzle;
use sudoku::text::print_puzzle;

#[test]
fn print_puzzle_writes_nine_rows_of_nine_numbers() {
    let cells: [u32; 81] = [
        5, 3, 0, 0, 7, 0, 0, 0, 0, //
        6, 0, 0, 1, 9, 5, 0, 0, 0, //
        0, 9, 8, 0, 0, 0, 0, 6, 0, //
        8, 0, 0, 0, 6, 0, 0, 0, 3, //
        4, 0, 0, 8, 0, 3, 0, 0, 1, //
        7, 0, 0, 0, 2, 0, 0, 0, 6, //
        0, 6, 0, 0, 0, 0, 2, 8, 0, //
        0, 0, 0, 4, 1, 9, 0, 0, 5, //
        0, 0, 0, 0, 8, 0, 0, 7, 9,
    ];
    let expected = "5 3 0 0 7 0 0 0 0 \n\
                    6 0 0 1 9 5 0 0 0 \n\
                    0 9 8 0 0 0 0 6 0 \n\
                    8 0 0 0 6 0 0 0 3 \n\
                    4 0 0 8 0 3 0 0 1 \n\
                    7 0 0 0 2 0 0 0 6 \n\
                    0 6 0 0 0 0 2 8 0 \n\
                    0 0 0 4 1 9 0 0 5 \n\
                    0 0 0 0 8 0 0 7 9 \n";
    assert_eq!(print_puzzle(&cells), expected);
}

#[test]
fn print_puzzle_of_an_empty_board() {
    let row = "0 0 0 0 0 0 0 0 0 \n";
    let expected = format!("{}{}{}{}{}{}{}{}{}", row, row, row, row, row, row, row, row, row);
    assert_eq!(print_puzzle(&[0; 81]), expected);
    assert_eq!(print_puzzle(&[0; 81]).len(), 81 * 2 + 9);
}

#[test]
fn print_puzzle_writes_larger_numbers_in_decimal() {
    let mut cells = [0u32; 81];
    cells[0] = 10;
    cells[1] = 407;
    cells[8] = u32::MAX;
    cells[80] = 1000000;
    let text = print_puzzle(&cells);
    let mut expected = String::new();
    for i in 0..81 {
        expected.push_str(&format!("{} ", cells[i]));
        if i % 9 == 8 {
            expected.push('\n');
        }
    }
    assert_eq!(text, expected);
    assert!(text.starts_with("10 407 0 0 0 0 0 0 4294967295 \n"));
    assert!(text.ends_with("0 1000000 \n"));
}

#[test]
fn to_text_is_the_text_of_the_cells() {
    let mut cells = [0u32; 81];
    cells[4] = 4;
    let p = Puzzle { cells };
    assert_eq!(p.to_text(), print_puzzle(&cells));
    assert!(p.to_text().starts_with("0 0 0 0 4 0 0 0 0 \n"));
}
