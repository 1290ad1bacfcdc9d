use mimcge::number::{
    derive_rounds, find_decryption_exponent, find_multiplier, find_t, gcd, group_order_modulo,
    is_permutation_exponent, largest_element,
};

#[test]
fn gcd_of_small_numbers() {
    assert_eq!(gcd(12, 18), 6);
    assert_eq!(gcd(18, 12), 6);
    assert_eq!(gcd(3, 31), 1);
    assert_eq!(gcd(17, 17), 17);
}

#[test]
fn gcd_with_zero() {
    assert_eq!(gcd(0, 5), 5);
    assert_eq!(gcd(5, 0), 5);
    assert_eq!(gcd(0, 0), 0);
}

#[test]
fn gcd_of_large_numbers() {
    assert_eq!(gcd(u128::MAX, 3), 3);
    assert_eq!(gcd((1u128 << 127) - 1, 3), 1);
}

#[test]
fn largest_element_is_two_to_the_width_less_one() {
    assert_eq!(largest_element(0), 0);
    assert_eq!(largest_element(5), 31);
    assert_eq!(largest_element(127), (1u128 << 127) - 1);
    assert_eq!(largest_element(128), u128::MAX);
}

#[test]
fn permutation_exponents() {
    assert!(is_permutation_exponent(3, 5));
    assert!(is_permutation_exponent(5, 5));
    assert!(is_permutation_exponent(2, 8));
    assert!(is_permutation_exponent(7, 11));
    assert!(is_permutation_exponent(17, 125));
}

#[test]
fn exponents_that_do_not_permute() {
    // 2^8 - 1 = 255 = 3 * 5 * 17
    assert!(!is_permutation_exponent(3, 8));
    assert!(!is_permutation_exponent(5, 8));
    assert!(!is_permutation_exponent(17, 8));
    assert!(!is_permutation_exponent(31, 5));
    assert!(!is_permutation_exponent(0, 5));
}

#[test]
fn smallest_multiplier() {
    assert_eq!(find_t(3, 5), Some(2));
    assert_eq!(find_t(5, 5), Some(4));
    assert_eq!(find_t(2, 8), Some(1));
    assert_eq!(find_t(7, 11), Some(2));
    assert_eq!(find_t(17, 125), Some(6));
}

#[test]
fn no_multiplier() {
    assert_eq!(find_t(0, 5), None);
    assert_eq!(find_t(1, 5), None);
    assert_eq!(find_t(3, 8), None);
    assert_eq!(find_t(31, 5), None);
}

#[test]
fn decryption_exponents() {
    assert_eq!(find_decryption_exponent(3, 5), Some(21));
    assert_eq!(find_decryption_exponent(5, 5), Some(25));
    assert_eq!(find_decryption_exponent(2, 8), Some(128));
    assert_eq!(find_decryption_exponent(7, 11), Some(585));
    assert_eq!(find_decryption_exponent(11, 33), Some(2342709434));
    assert_eq!(find_decryption_exponent(1, 5), None);
    assert_eq!(find_decryption_exponent(3, 8), None);
}

#[test]
fn decryption_exponent_of_the_widest_fields() {
    assert_eq!(
        find_decryption_exponent(17, 125),
        Some(15012457364159049858678291504342715211)
    );
    assert_eq!(
        find_multiplier(3, 127),
        Some((2, 113427455640312821154458202477256070485))
    );
}

#[test]
fn multiplier_and_exponent_together() {
    assert_eq!(find_multiplier(3, 5), Some((2, 21)));
    assert_eq!(find_multiplier(5, 17), Some((4, 104857)));
    assert_eq!(find_multiplier(1, 17), None);
}

#[test]
fn rounds_are_the_width_over_the_logarithm_rounded_up() {
    assert_eq!(derive_rounds(3, 5), 4);
    assert_eq!(derive_rounds(2, 8), 8);
    assert_eq!(derive_rounds(3, 17), 11);
    assert_eq!(derive_rounds(5, 5), 3);
    assert_eq!(derive_rounds(7, 11), 4);
    assert_eq!(derive_rounds(11, 33), 10);
    assert_eq!(derive_rounds(3, 125), 79);
    assert_eq!(derive_rounds(17, 125), 31);
    assert_eq!(derive_rounds(3, 127), 81);
}

#[test]
fn rounds_for_extreme_arguments() {
    assert_eq!(derive_rounds(2, 0), 0);
    assert_eq!(derive_rounds(2, 127), 127);
    assert_eq!(derive_rounds(u128::MAX, 127), 1);
    assert_eq!(derive_rounds(4, 8), 4);
}

#[test]
fn remainder_of_two_to_the_width_less_one() {
    assert_eq!(group_order_modulo(5, 7), 3);
    assert_eq!(group_order_modulo(0, 5), 0);
    assert_eq!(group_order_modulo(64, 3), 0);
    assert_eq!(group_order_modulo(64, 7), 1);
    assert_eq!(group_order_modulo(200, 1), 0);
    assert_eq!(group_order_modulo(127, u128::MAX), (1u128 << 127) - 1);
    assert_eq!(group_order_modulo(128, u128::MAX), 0);
    assert_eq!(group_order_modulo(129, u128::MAX), 1);
    // 2^1000 = (2^4)^250 leaves 1 when divided by 5
    assert_eq!(group_order_modulo(1000, 5), 0);
}

#[test]
fn permutation_exponents_of_any_width() {
    assert!(!is_permutation_exponent(3, 6));
    assert!(is_permutation_exponent(5, 6));
    assert!(!is_permutation_exponent(3, 64));
    assert!(is_permutation_exponent(7, 64));
    assert!(!is_permutation_exponent(5, 128));
    assert!(is_permutation_exponent(3, 129));
    assert!(!is_permutation_exponent(3, 1000));
    assert!(is_permutation_exponent(3, 1001));
    assert!(is_permutation_exponent(1, 200));
    assert!(is_permutation_exponent(0, 1));
    assert!(!is_permutation_exponent(0, 0));
    assert!(!is_permutation_exponent(0, 200));
    assert!(!is_permutation_exponent(u128::MAX, 128));
    assert!(is_permutation_exponent(u128::MAX, 127));
}
