use sudoku::board::Board;
use sudoku::cell::CellValue;

fn rows_of(lines: &[&str]) -> Vec<Vec<char>> {
    lines.iter().map(|l| l.chars().collect()).collect()
}

const SOLVED: [&str; 9] = [
    "123456789",
    "456789123",
    "789123456",
    "234567891",
    "567891234",
    "891234567",
    "345678912",
    "678912345",
    "912345678",
];

#[test]
fn all_dots_parses_to_empty_unoriginal_cells() {
    let board = Board::new(rows_of(&["........."; 9])).unwrap();
    for row in &board.cells {
        for cell in row {
            assert!(matches!(cell.value, CellValue::Empty));
            assert!(!cell.is_original);
            assert!(!cell.is_invalid);
            assert!(cell.hints.is_empty());
        }
    }
    assert!(!board.is_solved());
}

#[test]
fn solved_grid_parses_solved_and_original() {
    let board = Board::new(rows_of(&SOLVED)).unwrap();
    assert!(board.is_solved());
    for (i, row) in board.cells.iter().enumerate() {
        for (j, cell) in row.iter().enumerate() {
            assert!(cell.is_original);
            let expected = SOLVED[i].as_bytes()[j] - b'0';
            assert_eq!(cell.value, CellValue::Number(expected));
        }
    }
}

#[test]
fn mixed_grid_marks_only_given_cells_original() {
    let mut lines = SOLVED.to_vec();
    lines[0] = ".23456789";
    lines[4] = "5678.1234";
    let board = Board::new(rows_of(&lines)).unwrap();
    assert!(matches!(board.cells[0][0].value, CellValue::Empty));
    assert!(!board.cells[0][0].is_original);
    assert!(matches!(board.cells[4][4].value, CellValue::Empty));
    assert!(!board.cells[4][4].is_original);
    assert!(board.cells[0][1].is_original);
    assert!(!board.is_solved());
}

#[test]
fn invalid_character_is_rejected() {
    let mut lines = SOLVED.to_vec();
    lines[3] = "234x67891";
    let r = Board::new(rows_of(&lines));
    assert_eq!(r.err().unwrap(), "Invalid character in input file");
}

#[test]
fn zero_digit_is_rejected() {
    let mut lines = SOLVED.to_vec();
    lines[0] = "103456789";
    let r = Board::new(rows_of(&lines));
    assert_eq!(r.err().unwrap(), "Invalid character in input file");
}

#[test]
fn wrong_row_count_is_rejected() {
    let r = Board::new(rows_of(&SOLVED[0..8]));
    assert_eq!(r.err().unwrap(), "Invalid board dimensions in input file");
}

#[test]
fn wrong_row_length_is_rejected() {
    let mut lines = SOLVED.to_vec();
    lines[7] = "6789123455";
    let r = Board::new(rows_of(&lines));
    assert_eq!(r.err().unwrap(), "Invalid board dimensions in input file");
}

#[test]
fn duplicate_in_row_is_not_solved() {
    let mut lines = SOLVED.to_vec();
    lines[0] = "122456789";
    let board = Board::new(rows_of(&lines)).unwrap();
    assert!(!board.is_solved());
}

#[test]
fn textual_render_of_solved_grid() {
    let board = Board::new(rows_of(&SOLVED)).unwrap();
    let expected = "-------------\n\
                    |123|456|789|\n\
                    |456|789|123|\n\
                    |789|123|456|\n\
                    -------------\n\
                    |234|567|891|\n\
                    |567|891|234|\n\
                    |891|234|567|\n\
                    -------------\n\
                    |345|678|912|\n\
                    |678|912|345|\n\
                    |912|345|678|\n\
                    -------------\n";
    assert_eq!(board.render_text(), expected);
}

#[test]
fn textual_render_of_empty_grid() {
    let board = Board::new(rows_of(&["........."; 9])).unwrap();
    let expected = "-------------\n\
                    |...|...|...|\n\
                    |...|...|...|\n\
                    |...|...|...|\n\
                    -------------\n\
                    |...|...|...|\n\
                    |...|...|...|\n\
                    |...|...|...|\n\
                    -------------\n\
                    |...|...|...|\n\
                    |...|...|...|\n\
                    |...|...|...|\n\
                    -------------\n";
    assert_eq!(board.render_text(), expected);
}
