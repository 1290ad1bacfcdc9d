use mimcge::codec::{to_binary, to_decimal};
use mimcge::field::{
    _multiply_finite_field, _square_multiply, add_finite_field, multiply_finite_field,
    power_finite_field, power_in_field, square_multiply,
};

const WIDTHS: [u32; 13] = [5, 8, 11, 17, 25, 31, 33, 47, 61, 83, 101, 125, 127];

// elements of the field of width n, taken from the digits of a fixed number
fn element(seed: u128, n: u32) -> Vec<u8> {
    to_binary(seed.wrapping_mul(0x9E3779B97F4A7C15F39CC0605CEDC835).rotate_left(n), n)
}

#[test]
fn addition_laws_on_fixed_elements() {
    for n in WIDTHS {
        let (a, b, c) = (element(1, n), element(2, n), element(3, n));
        let zero = to_binary(0, n);
        assert_eq!(
            add_finite_field(&add_finite_field(&a, &b), &c),
            add_finite_field(&a, &add_finite_field(&b, &c))
        );
        assert_eq!(add_finite_field(&a, &b), add_finite_field(&b, &a));
        assert_eq!(add_finite_field(&a, &zero), a);
        assert_eq!(add_finite_field(&zero, &a), a);
        assert_eq!(add_finite_field(&a, &a), zero);
    }
}

#[test]
fn addition_is_exclusive_or_of_the_numbers() {
    let a = to_binary(92397, 17);
    let b = to_binary(69816, 17);
    assert_eq!(to_decimal(&add_finite_field(&a, &b)), 92397 ^ 69816);
    assert_eq!(to_decimal(&add_finite_field(&a, &b)), 30805);
}

#[test]
fn addition_goes_by_the_length_of_the_first() {
    assert_eq!(add_finite_field(&vec![1, 0], &vec![1, 1, 1]), vec![0, 1]);
    assert_eq!(add_finite_field(&vec![], &vec![1]), Vec::<u8>::new());
    assert_eq!(add_finite_field(&vec![3, 5], &vec![6, 5]), vec![5, 0]);
}

#[test]
fn product_laws_on_fixed_elements() {
    for n in WIDTHS {
        let (a, b, c) = (element(4, n), element(5, n), element(6, n));
        let one = to_binary(1, n);
        let ab = multiply_finite_field(&a, &b, n).unwrap();
        let bc = multiply_finite_field(&b, &c, n).unwrap();
        let ac = multiply_finite_field(&a, &c, n).unwrap();
        assert_eq!(ab, multiply_finite_field(&b, &a, n).unwrap());
        assert_eq!(
            multiply_finite_field(&ab, &c, n).unwrap(),
            multiply_finite_field(&a, &bc, n).unwrap()
        );
        assert_eq!(
            multiply_finite_field(&add_finite_field(&a, &b), &c, n).unwrap(),
            add_finite_field(&ac, &bc)
        );
        assert_eq!(multiply_finite_field(&a, &one, n).unwrap(), a);
        assert_eq!(multiply_finite_field(&one, &a, n).unwrap(), a);
    }
}

#[test]
fn field_closure_on_fixed_elements() {
    for n in WIDTHS {
        for seed in [0, 7, 8, 9] {
            let x = element(seed, n);
            assert_eq!(square_multiply(&x, 1u128 << n, n).unwrap(), x);
        }
        let x = to_binary(2, n);
        assert_eq!(square_multiply(&x, 1u128 << n, n).unwrap(), x);
    }
}

#[test]
fn field_closure_of_every_element_of_the_smallest_fields() {
    for v in 0..32 {
        assert_eq!(square_multiply(&to_binary(v, 5), 32, 5).unwrap(), to_binary(v, 5));
        assert_eq!(power_finite_field(&to_binary(v, 5), 32, 5).unwrap(), to_binary(v, 5));
    }
    for v in 0..256 {
        assert_eq!(square_multiply(&to_binary(v, 8), 256, 8).unwrap(), to_binary(v, 8));
    }
}

#[test]
fn power_zero_is_one() {
    for n in WIDTHS {
        let one = to_binary(1, n);
        assert_eq!(square_multiply(&element(10, n), 0, n).unwrap(), one);
        assert_eq!(power_finite_field(&element(10, n), 0, n).unwrap(), one);
        assert_eq!(square_multiply(&to_binary(0, n), 0, n).unwrap(), one);
    }
}

#[test]
fn power_one_is_the_element() {
    let a = to_binary(47142, 17);
    assert_eq!(power_finite_field(&a, 1, 17).unwrap(), a);
    assert_eq!(square_multiply(&a, 1, 17).unwrap(), a);
    assert_eq!(power_in_field(&a, 1, 17), a);
}

#[test]
fn both_power_algorithms_agree() {
    for n in [5, 8, 17, 33, 127] {
        let a = element(11, n);
        for e in [0usize, 1, 2, 3, 5, 8, 21, 64, 100] {
            assert_eq!(
                power_finite_field(&a, e, n).unwrap(),
                square_multiply(&a, e as u128, n).unwrap()
            );
        }
    }
}

#[test]
fn products_of_integers() {
    assert_eq!(_multiply_finite_field(26, 16, 5), 28);
    assert_eq!(_multiply_finite_field(0, 16, 5), 0);
    assert_eq!(_multiply_finite_field(26, 0, 5), 0);
    assert_eq!(_multiply_finite_field(3, 3, 5), 5);
    // x * x^4 = x^5 = x^2 + 1
    assert_eq!(_multiply_finite_field(2, 16, 5), 5);
    assert_eq!(_multiply_finite_field(92397, 69816, 17), 13921);
}

#[test]
fn powers_of_integers() {
    assert_eq!(_square_multiply(1, 4, 5, 5), 17);
    assert_eq!(_square_multiply(1, 47142, 5, 17), 31737);
    assert_eq!(_square_multiply(1, 12068538, 5135, 25), 25000991);
    assert_eq!(_square_multiply(1, 19, 32, 5), 19);
    assert_eq!(_square_multiply(7, 4, 0, 5), 7);
    assert_eq!(_square_multiply(3, 4, 5, 5), _multiply_finite_field(3, 17, 5));
}

#[test]
fn decryption_exponent_undoes_the_exponent() {
    // 3 * 21 = 1 + 2 * 31
    for v in 0..32 {
        let x = to_binary(v, 5);
        let y = square_multiply(&x, 3, 5).unwrap();
        assert_eq!(square_multiply(&y, 21, 5).unwrap(), x);
    }
    // 7 * 585 = 1 + 2 * 2047
    let x = to_binary(1440, 11);
    let y = square_multiply(&x, 7, 11).unwrap();
    assert_eq!(square_multiply(&y, 585, 11).unwrap(), x);
}

// the product of two polynomials of degree below 64, and its remainder by a
// polynomial with the term x^n, by long division
fn reduced_polynomial_product(a: u128, b: u128, modulus: u128, n: u32) -> u128 {
    let mut product = 0u128;
    for i in 0..64 {
        if (b >> i) & 1 == 1 {
            product ^= a << i;
        }
    }
    for degree in (n..128).rev() {
        if (product >> degree) & 1 == 1 {
            product ^= modulus << (degree - n);
        }
    }
    product
}

#[test]
fn product_is_the_reduced_polynomial_product() {
    for (n, modulus) in [
        (5u32, 0x25u128),
        (8, 0x11D),
        (11, 0x805),
        (17, 0x20009),
        (25, 0x2000145),
        (31, 0x80000009),
        (33, 0x200003D49),
        (47, 0x800000000021),
        (61, 0x2000000000000027),
    ] {
        for seed in 0..8 {
            let a = to_decimal(&element(20 + seed, n));
            let b = to_decimal(&element(40 + seed, n));
            assert_eq!(_multiply_finite_field(a, b, n), reduced_polynomial_product(a, b, modulus, n));
        }
    }
}

#[test]
fn power_of_the_degree_is_the_rest_of_the_polynomial() {
    // x^5 = x^2 + 1 and x^127 = x + 1
    assert_eq!(_square_multiply(1, 2, 5, 5), 0x05);
    assert_eq!(_square_multiply(1, 2, 8, 8), 0x1D);
    assert_eq!(_square_multiply(1, 2, 127, 127), 0x03);
    assert_eq!(_square_multiply(1, 2, 4, 5), 16);
}
