use sudoku::board::Board;
use sudoku::cell::CellValue;
use sudoku::game::{apply_digit, apply_erase, path_acceptable, select_cell, Selection};
use sudoku::layout::{border_rects, cell_edge, locate_cell};

fn rows_of(lines: &[&str]) -> Vec<Vec<char>> {
    lines.iter().map(|l| l.chars().collect()).collect()
}

const ONE_SHORT: [&str; 9] = [
    ".23456789",
    "456789123",
    "789123456",
    "234567891",
    "567891234",
    "891234567",
    "345678912",
    "678912345",
    "912345678",
];

#[test]
fn squares_and_columns_are_extracted_in_order() {
    let board = Board::new(rows_of(&[
        "123456789",
        "456789123",
        "789123456",
        "234567891",
        "567891234",
        "891234567",
        "345678912",
        "678912345",
        "912345678",
    ]))
    .unwrap();

    let center = board.get_square(4).unwrap();
    let expected = [5u8, 6, 7, 8, 9, 1, 2, 3, 4];
    for (k, cell) in center.iter().enumerate() {
        assert_eq!(cell.value, CellValue::Number(expected[k]));
    }
    assert!(board.get_square(9).is_none());
    assert!(board.get_square(8).is_some());

    assert!(board.get_col(9).is_none());
    let col = board.get_col(0).unwrap();
    let expected_col = [1u8, 4, 7, 2, 5, 8, 3, 6, 9];
    for (k, cell) in col.iter().enumerate() {
        assert_eq!(cell.value, CellValue::Number(expected_col[k]));
    }

    assert!(board.get_row(9).is_none());
    let row = board.get_row(2).unwrap();
    let expected_row = [7u8, 8, 9, 1, 2, 3, 4, 5, 6];
    for (k, cell) in row.iter().enumerate() {
        assert_eq!(cell.value, CellValue::Number(expected_row[k]));
    }
}

#[test]
fn selecting_committing_and_typing_the_right_digit_solves() {
    let mut board = Board::new(rows_of(&ONE_SHORT)).unwrap();
    assert!(!board.is_solved());

    let cs = cell_edge(600);
    assert_eq!(cs, 61);

    // first click lands inside the empty cell at row 0, column 0
    let sel = select_cell(None, &board, 15, 115, cs);
    assert_eq!(sel, Some(Selection { col: 0, row: 0, committed: false }));
    // a second click on the same cell commits the selection
    let sel = select_cell(sel, &board, 15, 115, cs);
    assert_eq!(sel, Some(Selection { col: 0, row: 0, committed: true }));

    let solved = apply_digit(&mut board, sel.unwrap(), 1);
    assert!(solved);
    assert!(board.is_solved());
    assert!(!board.cells[0][0].is_invalid);
}

#[test]
fn typing_a_wrong_digit_does_not_solve_and_flags_the_conflict() {
    let mut board = Board::new(rows_of(&ONE_SHORT)).unwrap();
    let sel = Selection { col: 0, row: 0, committed: true };
    let solved = apply_digit(&mut board, sel, 2);
    assert!(!solved);
    assert!(!board.is_solved());
    assert_eq!(board.cells[0][0].value, CellValue::Number(2));
    assert!(board.cells[0][0].is_invalid);
}

#[test]
fn uncommitted_digits_toggle_hints_instead_of_values() {
    let mut board = Board::new(rows_of(&ONE_SHORT)).unwrap();
    let sel = Selection { col: 0, row: 0, committed: false };
    let solved = apply_digit(&mut board, sel, 7);
    assert!(!solved);
    assert!(matches!(board.cells[0][0].value, CellValue::Empty));
    assert_eq!(board.cells[0][0].hints, vec![7]);
    apply_digit(&mut board, sel, 4);
    assert_eq!(board.cells[0][0].hints, vec![4, 7]);
    apply_digit(&mut board, sel, 7);
    assert_eq!(board.cells[0][0].hints, vec![4]);
}

#[test]
fn original_cells_never_change() {
    let mut board = Board::new(rows_of(&ONE_SHORT)).unwrap();
    // (row 0, col 1) holds the given digit 2
    let sel = Selection { col: 1, row: 0, committed: true };
    let solved = apply_digit(&mut board, sel, 5);
    assert!(!solved);
    assert_eq!(board.cells[0][1].value, CellValue::Number(2));
    apply_erase(&mut board, sel);
    assert_eq!(board.cells[0][1].value, CellValue::Number(2));
    let hinting = Selection { col: 1, row: 0, committed: false };
    apply_digit(&mut board, hinting, 5);
    assert!(board.cells[0][1].hints.is_empty());
}

#[test]
fn clicking_an_original_cell_selects_nothing() {
    let board = Board::new(rows_of(&ONE_SHORT)).unwrap();
    let cs = cell_edge(600);
    // the cell at row 0, column 1 is original; its rectangle starts at x = 73
    let sel = select_cell(None, &board, 75, 115, cs);
    assert_eq!(sel, None);
}

#[test]
fn clicking_between_cells_clears_the_selection() {
    let board = Board::new(rows_of(&ONE_SHORT)).unwrap();
    let cs = cell_edge(600);
    let sel = select_cell(None, &board, 15, 115, cs);
    assert!(sel.is_some());
    // x = 71 falls in the two-pixel gap after the first column
    let sel = select_cell(sel, &board, 71, 115, cs);
    assert_eq!(sel, None);
    // and a point above the grid hits nothing either
    assert_eq!(select_cell(None, &board, 15, 50, cs), None);
}

#[test]
fn erasing_clears_only_entered_numbers() {
    let mut board = Board::new(rows_of(&ONE_SHORT)).unwrap();
    let sel = Selection { col: 0, row: 0, committed: true };
    apply_erase(&mut board, sel);
    assert!(matches!(board.cells[0][0].value, CellValue::Empty));
    apply_digit(&mut board, sel, 9);
    assert_eq!(board.cells[0][0].value, CellValue::Number(9));
    apply_erase(&mut board, sel);
    assert!(matches!(board.cells[0][0].value, CellValue::Empty));
    assert!(!board.cells[0][0].is_invalid);
}

#[test]
fn the_hit_test_matches_the_render_layout() {
    let cs: i32 = 61;
    assert_eq!(locate_cell(15, 115, cs), Some((0, 0)));
    assert_eq!(locate_cell(75, 115, cs), Some((1, 0)));
    assert_eq!(locate_cell(10, 110, cs), Some((0, 0)));
    assert_eq!(locate_cell(70, 170, cs), Some((0, 0)));
    assert_eq!(locate_cell(71, 115, cs), None);
    assert_eq!(locate_cell(15, 109, cs), None);
    // the fourth column starts one board padding further right
    assert_eq!(locate_cell(10 + 3 * 63 + 8, 115, cs), Some((3, 0)));
    // the fourth row starts one board padding further down
    assert_eq!(locate_cell(15, 110 + 3 * 63 + 8, cs), Some((0, 3)));
}

#[test]
fn border_rects_are_the_four_strips() {
    let r = border_rects(5, 7, 100, 50, 5);
    assert_eq!(r, vec![(5, 7, 100, 5), (5, 7, 5, 50), (5, 52, 100, 5), (100, 7, 5, 50)]);
}

#[test]
fn cell_edge_splits_the_window_width() {
    assert_eq!(cell_edge(600), 61);
    assert_eq!(cell_edge(57), 1);
    assert_eq!(cell_edge(48), 0);
    assert_eq!(cell_edge(10), 0);
}

#[test]
fn puzzle_paths_must_be_nonempty_ascii() {
    assert!(path_acceptable("input/lehke.txt"));
    assert!(!path_acceptable(""));
    assert!(!path_acceptable("caf\u{e9}.txt"));
}
