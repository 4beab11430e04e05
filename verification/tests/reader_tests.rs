use sudoku::reader::{LineError, Reader};

const ROWS: [&str; 9] = [
    "003020600", "900305001", "001806400", "008102900", "700000008", "006708200", "002609500",
    "800203009", "005010300",
];

const GRID: [u32; 81] = [
    0, 0, 3, 0, 2, 0, 6, 0, 0, //
    9, 0, 0, 3, 0, 5, 0, 0, 1, //
    0, 0, 1, 8, 0, 6, 4, 0, 0, //
    0, 0, 8, 1, 0, 2, 9, 0, 0, //
    7, 0, 0, 0, 0, 0, 0, 0, 8, //
    0, 0, 6, 7, 0, 8, 2, 0, 0, //
    0, 0, 2, 6, 0, 9, 5, 0, 0, //
    8, 0, 0, 2, 0, 3, 0, 0, 9, //
    0, 0, 5, 0, 1, 0, 3, 0, 0,
];

#[test]
fn reader_without_lines_has_no_puzzles() {
    assert!(Reader::new().finish().is_empty());
}

#[test]
fn reader_reads_one_puzzle_after_a_header() {
    let mut r = Reader::new();
    assert_eq!(r.feed_line("Grid 01"), Ok(true));
    for row in ROWS {
        assert_eq!(r.feed_line(row), Ok(false));
    }
    let puzzles = r.finish();
    assert_eq!(puzzles.len(), 1);
    assert_eq!(puzzles[0].cells, GRID);
}

#[test]
fn reader_passes_over_spaces() {
    let mut r = Reader::new();
    assert_eq!(r.feed_line("0 0 3 0 2 0 6 0 0"), Ok(false));
    assert_eq!(r.feed_line(" 900 305 001 "), Ok(false));
    for row in &ROWS[2..] {
        assert_eq!(r.feed_line(row), Ok(false));
    }
    let puzzles = r.finish();
    assert_eq!(puzzles.len(), 1);
    assert_eq!(puzzles[0].cells, GRID);
}

#[test]
fn reader_reads_several_puzzles() {
    let mut r = Reader::new();
    for name in ["Grid 01", "Grid 02", "Grid 03"] {
        assert_eq!(r.feed_line(name), Ok(true));
        for row in ROWS {
            assert_eq!(r.feed_line(row), Ok(false));
        }
    }
    let puzzles = r.finish();
    assert_eq!(puzzles.len(), 3);
    for p in &puzzles {
        assert_eq!(p.cells, GRID);
        assert!(p.is_well_formed());
    }
}

#[test]
fn reader_drops_an_unfinished_puzzle_at_the_end() {
    let mut r = Reader::new();
    assert_eq!(r.feed_line("Grid 01"), Ok(true));
    for row in &ROWS[..8] {
        assert_eq!(r.feed_line(row), Ok(false));
    }
    assert!(r.finish().is_empty());
}

#[test]
fn header_leaves_an_unfinished_puzzle_under_way() {
    let mut r = Reader::new();
    for row in &ROWS[..4] {
        assert_eq!(r.feed_line(row), Ok(false));
    }
    assert_eq!(r.feed_line("Grid 02"), Ok(true));
    for row in &ROWS[4..] {
        assert_eq!(r.feed_line(row), Ok(false));
    }
    let puzzles = r.finish();
    assert_eq!(puzzles.len(), 1);
    assert_eq!(puzzles[0].cells, GRID);
}

#[test]
fn header_is_any_line_that_starts_with_grid() {
    let mut r = Reader::new();
    assert_eq!(r.feed_line("Grid"), Ok(true));
    assert_eq!(r.feed_line("Gridlock 7x"), Ok(true));
    assert_eq!(r.feed_line("Gri"), Err(LineError::NotADigit));
    assert_eq!(r.feed_line("grid 01"), Err(LineError::NotADigit));
    assert_eq!(r.feed_line(" Grid 01"), Err(LineError::NotADigit));
    assert_eq!(r.feed_line(""), Ok(false));
}

#[test]
fn reader_turns_down_a_character_that_is_no_digit() {
    let mut r = Reader::new();
    assert_eq!(r.feed_line("12a"), Err(LineError::NotADigit));
    assert_eq!(r.feed_line("1\t2"), Err(LineError::NotADigit));
    assert_eq!(r.feed_line("١٢٣"), Err(LineError::NotADigit));
    assert_eq!(r.feed_line("-1"), Err(LineError::NotADigit));
}

#[test]
fn reader_turns_down_an_eighty_second_digit() {
    let mut r = Reader::new();
    for row in ROWS {
        assert_eq!(r.feed_line(row), Ok(false));
    }
    assert_eq!(r.feed_line("   "), Ok(false));
    assert_eq!(r.feed_line("4"), Err(LineError::TooManyDigits));
    let puzzles = r.finish();
    assert_eq!(puzzles.len(), 1);
    assert_eq!(puzzles[0].cells, GRID);
}

#[test]
fn first_offence_in_a_line_names_the_error() {
    let mut r = Reader::new();
    for row in ROWS {
        assert_eq!(r.feed_line(row), Ok(false));
    }
    assert_eq!(r.feed_line("x1"), Err(LineError::NotADigit));
    assert_eq!(r.feed_line("1x"), Err(LineError::TooManyDigits));
}

#[test]
fn line_turned_down_leaves_the_reader_as_it_was() {
    let mut r = Reader::new();
    for row in &ROWS[..8] {
        assert_eq!(r.feed_line(row), Ok(false));
    }
    assert_eq!(r.feed_line("00501x300"), Err(LineError::NotADigit));
    assert_eq!(r.feed_line("0050103001"), Err(LineError::TooManyDigits));
    assert_eq!(r.feed_line(ROWS[8]), Ok(false));
    let puzzles = r.finish();
    assert_eq!(puzzles.len(), 1);
    assert_eq!(puzzles[0].cells, GRID);
}

#[test]
fn puzzle_read_from_text_is_solved() {
    let mut r = Reader::new();
    assert_eq!(r.feed_line("Grid 01"), Ok(true));
    for row in ROWS {
        assert_eq!(r.feed_line(row), Ok(false));
    }
    let mut puzzles = r.finish();
    let solved = sudoku::solver::solve(puzzles.remove(0)).expect("the puzzle has a solution");
    let expected: [u32; 81] = [
        4, 8, 3, 9, 2, 1, 6, 5, 7, //
        9, 6, 7, 3, 4, 5, 8, 2, 1, //
        2, 5, 1, 8, 7, 6, 4, 9, 3, //
        5, 4, 8, 1, 3, 2, 9, 7, 6, //
        7, 2, 9, 5, 6, 4, 1, 3, 8, //
        1, 3, 6, 7, 9, 8, 2, 4, 5, //
        3, 7, 2, 6, 8, 9, 5, 1, 4, //
        8, 1, 4, 2, 5, 3, 7, 6, 9, //
        6, 9, 5, 4, 1, 7, 3, 8, 2,
    ];
    assert_eq!(solved.cells, expected);
}
