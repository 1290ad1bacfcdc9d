use mimcge::field::{add_finite_field, multiply_finite_field};
use mimcge::random::generate_random_bits;

/// Associativity: (a + b) + c = a + (b + c) and (a * b) * c = a * (b * c)
#[test]
fn associativity_5() {
    let a = generate_random_bits(5);
    let b = generate_random_bits(5);
    let c = generate_random_bits(5);
    assert_eq!(add_finite_field(&add_finite_field(&a, &b), &c), add_finite_field(&a, &add_finite_field(&b, &c)));
    assert_eq!(multiply_finite_field(&multiply_finite_field(&a, &b, 5).unwrap(), &c, 5).unwrap(), multiply_finite_field(&a, &multiply_finite_field(&b, &c, 5).unwrap(), 5).unwrap());
}

#[test]
fn associativity_8() {
    let a = generate_random_bits(8);
    let b = generate_random_bits(8);
    let c = generate_random_bits(8);
    assert_eq!(add_finite_field(&add_finite_field(&a, &b), &c), add_finite_field(&a, &add_finite_field(&b, &c)));
    assert_eq!(multiply_finite_field(&multiply_finite_field(&a, &b, 8).unwrap(), &c, 8).unwrap(), multiply_finite_field(&a, &multiply_finite_field(&b, &c, 8).unwrap(), 8).unwrap());
}

#[test]
fn associativity_11() {
    let a = generate_random_bits(11);
    let b = generate_random_bits(11);
    let c = generate_random_bits(11);
    assert_eq!(add_finite_field(&add_finite_field(&a, &b), &c), add_finite_field(&a, &add_finite_field(&b, &c)));
    assert_eq!(multiply_finite_field(&multiply_finite_field(&a, &b, 11).unwrap(), &c, 11).unwrap(), multiply_finite_field(&a, &multiply_finite_field(&b, &c, 11).unwrap(), 11).unwrap());
}

#[test]
fn associativity_17() {
    let a = generate_random_bits(17);
    let b = generate_random_bits(17);
    let c = generate_random_bits(17);
    assert_eq!(add_finite_field(&add_finite_field(&a, &b), &c), add_finite_field(&a, &add_finite_field(&b, &c)));
    assert_eq!(multiply_finite_field(&multiply_finite_field(&a, &b, 17).unwrap(), &c, 17).unwrap(), multiply_finite_field(&a, &multiply_finite_field(&b, &c, 17).unwrap(), 17).unwrap());
}

#[test]
fn associativity_25() {
    let a = generate_random_bits(25);
    let b = generate_random_bits(25);
    let c = generate_random_bits(25);
    assert_eq!(add_finite_field(&add_finite_field(&a, &b), &c), add_finite_field(&a, &add_finite_field(&b, &c)));
    assert_eq!(multiply_finite_field(&multiply_finite_field(&a, &b, 25).unwrap(), &c, 25).unwrap(), multiply_finite_field(&a, &multiply_finite_field(&b, &c, 25).unwrap(), 25).unwrap());
}

#[test]
fn associativity_31() {
    let a = generate_random_bits(31);
    let b = generate_random_bits(31);
    let c = generate_random_bits(31);
    assert_eq!(add_finite_field(&add_finite_field(&a, &b), &c), add_finite_field(&a, &add_finite_field(&b, &c)));
    assert_eq!(multiply_finite_field(&multiply_finite_field(&a, &b, 31).unwrap(), &c, 31).unwrap(), multiply_finite_field(&a, &multiply_finite_field(&b, &c, 31).unwrap(), 31).unwrap());
}


#[test]
fn associativity_33() {
    let a = generate_random_bits(33);
    let b = generate_random_bits(33);
    let c = generate_random_bits(33);
    assert_eq!(add_finite_field(&add_finite_field(&a, &b), &c), add_finite_field(&a, &add_finite_field(&b, &c)));
    assert_eq!(multiply_finite_field(&multiply_finite_field(&a, &b, 33).unwrap(), &c, 33).unwrap(), multiply_finite_field(&a, &multiply_finite_field(&b, &c, 33).unwrap(), 33).unwrap());
}

#[test]
fn associativity_47() {
    let a = generate_random_bits(47);
    let b = generate_random_bits(47);
    let c = generate_random_bits(47);
    assert_eq!(add_finite_field(&add_finite_field(&a, &b), &c), add_finite_field(&a, &add_finite_field(&b, &c)));
    assert_eq!(multiply_finite_field(&multiply_finite_field(&a, &b, 47).unwrap(), &c, 47).unwrap(), multiply_finite_field(&a, &multiply_finite_field(&b, &c, 47).unwrap(), 47).unwrap());
}

#[test]
fn associativity_61() {
    let a = generate_random_bits(61);
    let b = generate_random_bits(61);
    let c = generate_random_bits(61);
    assert_eq!(add_finite_field(&add_finite_field(&a, &b), &c), add_finite_field(&a, &add_finite_field(&b, &c)));
    assert_eq!(multiply_finite_field(&multiply_finite_field(&a, &b, 61).unwrap(), &c, 61).unwrap(), multiply_finite_field(&a, &multiply_finite_field(&b, &c, 61).unwrap(), 61).unwrap());
}

#[test]
fn associativity_83() {
    let a = generate_random_bits(83);
    let b = generate_random_bits(83);
    let c = generate_random_bits(83);
    assert_eq!(add_finite_field(&add_finite_field(&a, &b), &c), add_finite_field(&a, &add_finite_field(&b, &c)));
    assert_eq!(multiply_finite_field(&multiply_finite_field(&a, &b, 83).unwrap(), &c, 83).unwrap(), multiply_finite_field(&a, &multiply_finite_field(&b, &c, 83).unwrap(), 83).unwrap());
}

#[test]
fn associativity_101() {
    let a = generate_random_bits(101);
    let b = generate_random_bits(101);
    let c = generate_random_bits(101);
    assert_eq!(add_finite_field(&add_finite_field(&a, &b), &c), add_finite_field(&a, &add_finite_field(&b, &c)));
    assert_eq!(multiply_finite_field(&multiply_finite_field(&a, &b, 101).unwrap(), &c, 101).unwrap(), multiply_finite_field(&a, &multiply_finite_field(&b, &c, 101).unwrap(), 101).unwrap());
}

#[test]
fn associativity_125() {
    let a = generate_random_bits(125);
    let b = generate_random_bits(125);
    let c = generate_random_bits(125);
    assert_eq!(add_finite_field(&add_finite_field(&a, &b), &c), add_finite_field(&a, &add_finite_field(&b, &c)));
    assert_eq!(multiply_finite_field(&multiply_finite_field(&a, &b, 125).unwrap(), &c, 125).unwrap(), multiply_finite_field(&a, &multiply_finite_field(&b, &c, 125).unwrap(), 125).unwrap());
}

#[test]
fn associativity_127() {
    let a = generate_random_bits(127);
    let b = generate_random_bits(127);
    let c = generate_random_bits(127);
    assert_eq!(add_finite_field(&add_finite_field(&a, &b), &c), add_finite_field(&a, &add_finite_field(&b, &c)));
    assert_eq!(multiply_finite_field(&multiply_finite_field(&a, &b, 127).unwrap(), &c, 127).unwrap(), multiply_finite_field(&a, &multiply_finite_field(&b, &c, 127).unwrap(), 127).unwrap());
}
