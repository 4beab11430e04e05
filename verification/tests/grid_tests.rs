use sudoku::grid::{col_vals, poss_for_idx, row_vals, subgrid_vals, Puzzle};

fn classic() -> Puzzle {
    Puzzle {
        cells: [
            5, 3, 0, 0, 7, 0, 0, 0, 0, //
            6, 0, 0, 1, 9, 5, 0, 0, 0, //
            0, 9, 8, 0, 0, 0, 0, 6, 0, //
            8, 0, 0, 0, 6, 0, 0, 0, 3, //
            4, 0, 0, 8, 0, 3, 0, 0, 1, //
            7, 0, 0, 0, 2, 0, 0, 0, 6, //
            0, 6, 0, 0, 0, 0, 2, 8, 0, //
            0, 0, 0, 4, 1, 9, 0, 0, 5, //
            0, 0, 0, 0, 8, 0, 0, 7, 9,
        ],
    }
}

#[test]
fn row_vals_marks_the_digits_of_the_row() {
    let p = classic();
    assert_eq!(row_vals(&p, 2), [false, false, true, false, true, false, true, false, false]);
    assert_eq!(row_vals(&p, 40), [true, false, true, true, false, false, false, true, false]);
    assert_eq!(row_vals(&p, 80), [false, false, false, false, false, false, true, true, true]);
}

#[test]
fn row_vals_is_the_same_along_a_row() {
    let p = classic();
    for idx in 36..45 {
        assert_eq!(row_vals(&p, idx), row_vals(&p, 36));
    }
}

#[test]
fn col_vals_marks_the_digits_of_the_column() {
    let p = classic();
    assert_eq!(col_vals(&p, 2), [false, false, false, false, false, false, false, true, false]);
    assert_eq!(col_vals(&p, 40), [true, true, false, false, false, true, true, true, true]);
    assert_eq!(col_vals(&p, 80), [true, false, true, false, true, true, false, false, true]);
}

#[test]
fn subgrid_vals_marks_the_digits_of_the_subgrid() {
    let p = classic();
    assert_eq!(subgrid_vals(&p, 2), [false, false, true, false, true, true, false, true, true]);
    assert_eq!(subgrid_vals(&p, 40), [false, true, true, false, false, true, false, true, false]);
    assert_eq!(subgrid_vals(&p, 80), [false, true, false, false, true, false, true, true, true]);
}

#[test]
fn subgrid_vals_is_the_same_across_a_subgrid() {
    let p = classic();
    for idx in [30, 31, 32, 39, 40, 41, 48, 49, 50] {
        assert_eq!(subgrid_vals(&p, idx), subgrid_vals(&p, 40));
    }
}

#[test]
fn vals_of_an_empty_board_are_all_false() {
    let p = Puzzle { cells: [0; 81] };
    assert_eq!(row_vals(&p, 0), [false; 9]);
    assert_eq!(col_vals(&p, 0), [false; 9]);
    assert_eq!(subgrid_vals(&p, 0), [false; 9]);
}

#[test]
fn poss_for_idx_lists_the_unseen_digits_in_ascending_order() {
    let p = classic();
    assert_eq!(poss_for_idx(&p, 2), vec![1, 2, 4]);
    assert_eq!(poss_for_idx(&p, 40), vec![5]);
    assert_eq!(poss_for_idx(&p, 80), vec![4]);
}

#[test]
fn poss_for_idx_of_an_empty_board_is_every_digit() {
    let p = Puzzle { cells: [0; 81] };
    for idx in 0..81 {
        assert_eq!(poss_for_idx(&p, idx), vec![1, 2, 3, 4, 5, 6, 7, 8, 9]);
    }
}

#[test]
fn poss_for_idx_of_a_filled_cell_leaves_out_its_own_digit() {
    let mut cells = [0u32; 81];
    cells[0] = 7;
    let p = Puzzle { cells };
    assert_eq!(poss_for_idx(&p, 0), vec![1, 2, 3, 4, 5, 6, 8, 9]);
}

#[test]
fn well_formed_boards_hold_digits_up_to_nine() {
    assert!(classic().is_well_formed());
    assert!(Puzzle { cells: [9; 81] }.is_well_formed());
    let mut cells = [0u32; 81];
    cells[80] = 10;
    assert!(!Puzzle { cells }.is_well_formed());
}

#[test]
fn clone_copies_every_cell() {
    let p = classic();
    let q = p.clone();
    assert_eq!(p.cells, q.cells);
}
