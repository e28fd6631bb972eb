//! Tests for the board's cell access and well-formedness check.

use numple::Numple;

#[test]
fn set_then_get_round_trips() {
    let mut n = Numple { numbers: [[0u32; 9]; 9] };
    n.set(3, 7, 9);
    assert_eq!(n.get(3, 7), 9);
    assert_eq!(n.get(3, 6), 0);
    assert_eq!(n.numbers[3][7], 9);
    n.set(3, 7, 0);
    assert_eq!(n.get(3, 7), 0);
}

#[test]
fn default_board_is_empty() {
    let n = Numple::default();
    assert_eq!(n.numbers, [[0u32; 9]; 9]);
}

#[test]
fn well_formed_accepts_digits_and_rejects_larger_values() {
    let mut cells = [[0u32; 9]; 9];
    cells[2][2] = 9;
    let n = Numple { numbers: cells };
    assert!(n.well_formed());
    cells[5][1] = 10;
    let bad = Numple { numbers: cells };
    assert!(!bad.well_formed());
}
