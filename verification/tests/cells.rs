use sudoku::cell::{digit_str, Cell, CellValue};

#[test]
fn toggling_a_hint_twice_removes_it_again() {
    let mut cell = Cell::new(CellValue::Empty, false);
    cell.add_hint(3);
    assert_eq!(cell.hints, vec![3]);
    cell.add_hint(3);
    assert_eq!(cell.hints, Vec::<u8>::new());
}

#[test]
fn hints_stay_sorted_whatever_the_insertion_order() {
    let mut cell = Cell::new(CellValue::Empty, false);
    cell.add_hint(5);
    cell.add_hint(2);
    assert_eq!(cell.hints, vec![2, 5]);
    cell.add_hint(9);
    cell.add_hint(1);
    assert_eq!(cell.hints, vec![1, 2, 5, 9]);
    cell.add_hint(5);
    assert_eq!(cell.hints, vec![1, 2, 9]);
}

#[test]
fn new_cell_keeps_its_arguments() {
    let given = Cell::new(CellValue::Number(7), true);
    assert_eq!(given.value, CellValue::Number(7));
    assert!(given.is_original);
    assert!(!given.is_invalid);
    assert!(given.hints.is_empty());

    let empty = Cell::new(CellValue::Empty, false);
    assert_eq!(empty.value, CellValue::Empty);
    assert!(!empty.is_original);
}

#[test]
fn hint_text_is_a_comma_separated_digit_list() {
    let mut cell = Cell::new(CellValue::Empty, false);
    assert_eq!(cell.hints_text(), "");
    cell.add_hint(5);
    assert_eq!(cell.hints_text(), "5");
    cell.add_hint(2);
    cell.add_hint(8);
    assert_eq!(cell.hints_text(), "2,5,8");
}

#[test]
fn digit_strings_match_their_digits() {
    let expected = ["1", "2", "3", "4", "5", "6", "7", "8", "9"];
    for d in 1..=9u8 {
        assert_eq!(digit_str(d), expected[(d - 1) as usize]);
    }
}
