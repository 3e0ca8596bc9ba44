use network_shapley::labels::{comes_before, in_city, is_public_operator, same_text};
use network_shapley::utils::{factorial, generate_bitmap, has_digit, holds, single};

#[test]
fn test_has_digit() {
    assert!(has_digit("SIN1"));
    assert!(has_digit("FRA01"));
    assert!(!has_digit("SIN"));
    assert!(!has_digit("FRA"));
}

#[test]
fn utils_test_factorial() {
    assert_eq!(factorial(0), 1);
    assert_eq!(factorial(5), 120);
    assert_eq!(factorial(10), 3628800);
}

#[test]
fn coalition_computation_test_factorial() {
    assert_eq!(factorial(0), 1);
    assert_eq!(factorial(1), 1);
    assert_eq!(factorial(2), 2);
    assert_eq!(factorial(3), 6);
    assert_eq!(factorial(4), 24);
    assert_eq!(factorial(5), 120);
}

#[test]
fn factorial_at_its_limit() {
    assert_eq!(factorial(20), 2432902008176640000);
}

#[test]
fn has_digit_edge_cases() {
    assert!(!has_digit(""));
    assert!(has_digit("0"));
    assert!(has_digit("nyc-dz001"));
    assert!(!has_digit("nyc-dz-abc"));
    assert!(!has_digit("Zürich"));
}

#[test]
fn bitmap_rows_are_the_bits_of_the_column_index() {
    let bitmap = generate_bitmap(3);
    assert_eq!(bitmap.len(), 3);
    for row in 0..3 {
        assert_eq!(bitmap[row].len(), 8);
        for col in 0..8usize {
            assert_eq!(bitmap[row][col], ((col >> row) & 1) as u8);
        }
    }
    assert_eq!(generate_bitmap(0).len(), 0);
}

#[test]
fn single_and_holds_agree() {
    assert_eq!(single(0), 1);
    assert_eq!(single(4), 16);
    assert!(holds(5, 0));
    assert!(!holds(5, 1));
    assert!(holds(5, 2));
}

#[test]
fn labels_compare_as_strings_do() {
    let words = ["", "0", "A", "AB", "Alpha", "B", "Beta", "a", "é", "NYC1", "NYC10", "NYC2"];
    for a in words {
        for b in words {
            assert_eq!(comes_before(a, b), a < b);
            assert_eq!(same_text(a, b), a == b);
        }
    }
}

#[test]
fn city_is_the_first_three_characters() {
    assert!(in_city("NYC1", "NYC"));
    assert!(in_city("NYC", "NYC"));
    assert!(!in_city("NY", "NY"));
    assert!(!in_city("LAX1", "NYC"));
    assert!(!in_city("NYC1", "NYC1"));
}

#[test]
fn only_the_text_zero_is_the_public_operator() {
    assert!(is_public_operator("0"));
    assert!(!is_public_operator(""));
    assert!(!is_public_operator("00"));
    assert!(!is_public_operator("O"));
}
