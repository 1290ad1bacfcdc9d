//! Arithmetic in the binary fields GF(2^n): the table of defining
//! polynomials, the mathematical model of the field operations on integers,
//! and the executable operations on bit sequences.

use crate::codec::{
    bits_to_nat, is_element, lemma_bits_value_bound, nat_to_bits, to_binary, to_decimal,
};
use crate::error::CipherError;
use crate::field_laws::{
    lemma_field_order, lemma_halving, lemma_mul_associative, lemma_mul_closed,
    lemma_mul_commutative, lemma_mul_one_left, lemma_mul_one_right, lemma_mul_zero_left,
    lemma_one_in_field, lemma_pow_add, lemma_pow_closed, lemma_pow_mul, lemma_pow_one,
    lemma_xor_laws,
};
use vstd::prelude::*;

verus! {

/// The widths `n` for which a defining polynomial of GF(2^n) is tabulated.
pub open spec fn supported_width(n: u32) -> bool {
    n == 5 || n == 8 || n == 11 || n == 17 || n == 25 || n == 31 || n == 33 || n == 47 || n == 61
        || n == 83 || n == 101 || n == 125 || n == 127
}

/// The mask of the degree bit `x^(n-1)` of the field of width `n`; zero for a
/// width without a tabulated polynomial.
pub open spec fn degree_mask(n: u32) -> u128 {
    if n == 5 {
        0x10
    } else if n == 8 {
        0x80
    } else if n == 11 {
        0x400
    } else if n == 17 {
        0x10000
    } else if n == 25 {
        0x1000000
    } else if n == 31 {
        0x40000000
    } else if n == 33 {
        0x100000000
    } else if n == 47 {
        0x400000000000
    } else if n == 61 {
        0x1000000000000000
    } else if n == 83 {
        0x400000000000000000000
    } else if n == 101 {
        0x10000000000000000000000000
    } else if n == 125 {
        0x10000000000000000000000000000000
    } else if n == 127 {
        0x40000000000000000000000000000000
    } else {
        0
    }
}

/// The defining polynomial of the field of width `n`, bit `i` holding the
/// coefficient of `x^i`; zero for a width without a tabulated polynomial.
pub open spec fn reduction_constant(n: u32) -> u128 {
    if n == 5 {
        0x25  // x^5 + x^2 + 1
    } else if n == 8 {
        0x11D  // x^8 + x^4 + x^3 + x^2 + 1
    } else if n == 11 {
        0x805  // x^11 + x^2 + 1
    } else if n == 17 {
        0x20009  // x^17 + x^3 + 1
    } else if n == 25 {
        0x2000145  // x^25 + x^8 + x^6 + x^2 + 1
    } else if n == 31 {
        0x80000009  // x^31 + x^3 + 1
    } else if n == 33 {
        0x200003D49  // x^33 + x^13 + x^12 + x^11 + x^10 + x^8 + x^6 + x^3 + 1
    } else if n == 47 {
        0x800000000021  // x^47 + x^5 + 1
    } else if n == 61 {
        0x2000000000000027  // x^61 + x^5 + x^2 + x + 1
    } else if n == 83 {
        0x800000000000000000095  // x^83 + x^7 + x^4 + x^2 + 1
    } else if n == 101 {
        0x200000000000000000000000C3  // x^101 + x^7 + x^6 + x + 1
    } else if n == 125 {
        0x200000000000000000000000004BBE69  // x^125 + x^22 + x^19 + ... + x^3 + 1
    } else if n == 127 {
        0x80000000000000000000000000000003  // x^127 + x + 1
    } else {
        0
    }
}

/// `a` encodes an element of the field of width `n`: it is below `2^n`.
pub open spec fn in_field(a: u128, n: u32) -> bool {
    a < 2 * degree_mask(n)
}

/// The product of `a` and the polynomial `x`, reduced by the field's defining
/// polynomial.
pub open spec fn times_x(a: u128, n: u32) -> u128 {
    if a & degree_mask(n) != 0 {
        (a << 1) ^ reduction_constant(n)
    } else {
        a << 1
    }
}

/// The product of `a` and `b` in the field of width `n`: the sum, over the
/// terms `x^i` of `b`, of `a * x^i`, each reduced by the defining polynomial.
/// For a field element `a` this is the remainder, by the defining polynomial,
/// of the product of `a` and `b` as polynomials.
pub open spec fn gf_mul(a: u128, b: u128, n: u32) -> u128
    decreases b,
{
    if b == 0 {
        0
    } else {
        let rest = gf_mul(times_x(a, n), b / 2, n);
        if b % 2 == 1 {
            a ^ rest
        } else {
            rest
        }
    }
}

/// `a` raised to the power `e` in the field of width `n`; the empty product
/// is the element 1.
pub open spec fn gf_pow(a: u128, e: nat, n: u32) -> u128
    decreases e,
{
    if e == 0 {
        1
    } else {
        gf_mul(a, gf_pow(a, (e - 1) as nat, n), n)
    }
}

/// `a` squared `k` times in a row in the field of width `n`: `a` raised to
/// the power `2^k`.
pub open spec fn gf_square_iter(a: u128, k: u32, n: u32) -> u128
    decreases k,
{
    if k == 0 {
        a
    } else {
        let s = gf_square_iter(a, (k - 1) as u32, n);
        gf_mul(s, s, n)
    }
}

/// The bitwise sum of two bit sequences: entry `i` is `a[i] ^ b[i]`, over the
/// length of `a`.
pub open spec fn xor_bits(a: Seq<u8>, b: Seq<u8>) -> Seq<u8> {
    Seq::new(a.len(), |i: int| a[i] ^ b[i])
}

/// The product of two field elements given as bit sequences.
pub open spec fn field_product(a: Seq<u8>, b: Seq<u8>, n: u32) -> Seq<u8> {
    nat_to_bits(gf_mul(bits_to_nat(a) as u128, bits_to_nat(b) as u128, n) as nat, n as nat)
}

/// The power of a field element given as a bit sequence.
pub open spec fn field_power(a: Seq<u8>, e: nat, n: u32) -> Seq<u8> {
    nat_to_bits(gf_pow(bits_to_nat(a) as u128, e, n) as nat, n as nat)
}

/// Looks up the defining polynomial of the field of width `block_size`: the
/// mask of its degree bit and its reduction constant.
pub fn irreducible_polynomial(block_size: u32) -> (entry: Option<(u128, u128)>)
    ensures
        entry.is_some() == supported_width(block_size),
        entry.is_some() ==> entry.unwrap() == (
            degree_mask(block_size),
            reduction_constant(block_size),
        ),
{
    if block_size == 5 {
        Some((0x10, 0x25))
    } else if block_size == 8 {
        Some((0x80, 0x11D))
    } else if block_size == 11 {
        Some((0x400, 0x805))
    } else if block_size == 17 {
        Some((0x10000, 0x20009))
    } else if block_size == 25 {
        Some((0x1000000, 0x2000145))
    } else if block_size == 31 {
        Some((0x40000000, 0x80000009))
    } else if block_size == 33 {
        Some((0x100000000, 0x200003D49))
    } else if block_size == 47 {
        Some((0x400000000000, 0x800000000021))
    } else if block_size == 61 {
        Some((0x1000000000000000, 0x2000000000000027))
    } else if block_size == 83 {
        Some((0x400000000000000000000, 0x800000000000000000095))
    } else if block_size == 101 {
        Some((0x10000000000000000000000000, 0x200000000000000000000000C3))
    } else if block_size == 125 {
        Some((0x10000000000000000000000000000000, 0x200000000000000000000000004BBE69))
    } else if block_size == 127 {
        Some((0x40000000000000000000000000000000, 0x80000000000000000000000000000003))
    } else {
        None
    }
}

/// Adds two field elements: the bitwise exclusive or, entry by entry.
pub fn add_finite_field(a: &Vec<u8>, b: &Vec<u8>) -> (sum: Vec<u8>)
    requires
        a@.len() <= b@.len(),
    ensures
        sum@ == xor_bits(a@, b@),
{
    let mut result: Vec<u8> = Vec::with_capacity(a.len());
    let mut i: usize = 0;
    while i < a.len()
        invariant
            i <= a@.len() <= b@.len(),
            result@.len() == i,
            forall|j: int| 0 <= j < i ==> result@[j] == a@[j] ^ b@[j],
        decreases a.len() - i,
    {
        result.push(a[i] ^ b[i]);
        i += 1;
    }
    proof {
        assert(result@ =~= xor_bits(a@, b@));
    }
    result
}

/// Multiplies two integers that encode elements of the field of width
/// `block_size`, by shifting and adding.
pub fn _multiply_finite_field(a: u128, b: u128, block_size: u32) -> (product: u128)
    requires
        supported_width(block_size),
    ensures
        product == gf_mul(a, b, block_size),
{
    let poly = irreducible_polynomial(block_size).unwrap();
    let mut a: u128 = a;
    let mut b: u128 = b;
    let mut p: u128 = 0u128;
    let ghost a0 = a;
    let ghost b0 = b;
    proof {
        lemma_xor_laws(gf_mul(a, b, block_size), 0, 0);
    }
    while a != 0 && b != 0
        invariant
            supported_width(block_size),
            poly == (degree_mask(block_size), reduction_constant(block_size)),
            p ^ gf_mul(a, b, block_size) == gf_mul(a0, b0, block_size),
        decreases b,
    {
        proof {
            lemma_halving(b);
            lemma_xor_laws(p, a, gf_mul(times_x(a, block_size), b / 2, block_size));
        }
        if (b & 1) >= 1 {
            p = p ^ a;
        }
        if (a & poly.0) >= 1 {
            a = (a << 1) ^ poly.1;
        } else {
            a = a << 1;
        }
        b = b >> 1;
    }
    proof {
        lemma_mul_zero_left(b, block_size);
        lemma_xor_laws(p, 0, 0);
    }
    p
}

/// Reads a field element of a tabulated width as the integer that encodes
/// it.
fn element_value(a: &Vec<u8>, block_size: u32) -> (value: u128)
    requires
        supported_width(block_size),
        is_element(a@, block_size as nat),
    ensures
        value == bits_to_nat(a@),
        in_field(value, block_size),
{
    proof {
        lemma_bits_value_bound(a@);
        lemma_field_order(block_size);
    }
    to_decimal(a.as_slice())
}

/// Multiplies two elements of the field of width `block_size`. Fails if no
/// defining polynomial is tabulated for that width.
pub fn multiply_finite_field(a: &Vec<u8>, b: &Vec<u8>, block_size: u32) -> (product: Result<
    Vec<u8>,
    CipherError,
>)
    requires
        is_element(a@, block_size as nat),
        is_element(b@, block_size as nat),
    ensures
        match product {
            Ok(p) => supported_width(block_size) && p@ == field_product(a@, b@, block_size)
                && is_element(p@, block_size as nat),
            Err(e) => !supported_width(block_size) && e == CipherError::UnsupportedWidth,
        },
{
    if irreducible_polynomial(block_size).is_none() {
        return Err(CipherError::UnsupportedWidth);
    }
    let x: u128 = element_value(a, block_size);
    let y: u128 = element_value(b, block_size);
    Ok(to_binary(_multiply_finite_field(x, y, block_size), block_size))
}

/// Raises an element of the field of width `block_size` to the power
/// `exponent`, one multiplication per unit of the exponent. Fails if no
/// defining polynomial is tabulated for that width.
pub fn power_finite_field(a: &Vec<u8>, exponent: usize, block_size: u32) -> (power: Result<
    Vec<u8>,
    CipherError,
>)
    requires
        is_element(a@, block_size as nat),
    ensures
        match power {
            Ok(p) => supported_width(block_size) && p@ == field_power(
                a@,
                exponent as nat,
                block_size,
            ) && is_element(p@, block_size as nat),
            Err(e) => !supported_width(block_size) && e == CipherError::UnsupportedWidth,
        },
{
    if irreducible_polynomial(block_size).is_none() {
        return Err(CipherError::UnsupportedWidth);
    }
    let x: u128 = element_value(a, block_size);
    let mut result: u128 = 1;
    let mut i: usize = 0;
    while i < exponent
        invariant
            supported_width(block_size),
            i <= exponent,
            result == gf_pow(x, i as nat, block_size),
        decreases exponent - i,
    {
        result = _multiply_finite_field(x, result, block_size);
        i += 1;
    }
    Ok(to_binary(result, block_size))
}

/// Multiplies `y` by the power `exponent` of `x` in the field of width
/// `block_size`, squaring `x` once per bit of the exponent.
pub fn _square_multiply(y: u128, x: u128, exponent: u128, block_size: u32) -> (result: u128)
    requires
        supported_width(block_size),
        in_field(x, block_size),
        in_field(y, block_size),
    ensures
        result == gf_mul(y, gf_pow(x, exponent as nat, block_size), block_size),
        in_field(result, block_size),
{
    let ghost goal = gf_mul(y, gf_pow(x, exponent as nat, block_size), block_size);
    let mut y: u128 = y;
    let mut x: u128 = x;
    let mut e: u128 = exponent;
    while e != 0
        invariant
            supported_width(block_size),
            in_field(x, block_size),
            in_field(y, block_size),
            gf_mul(y, gf_pow(x, e as nat, block_size), block_size) == goal,
        decreases e,
    {
        let ghost n = block_size;
        let ghost half = (e / 2) as nat;
        let ghost rest = gf_pow(x, 2 * half, n);
        proof {
            lemma_pow_one(x, n);
            lemma_pow_add(x, 1, 1, n);
            lemma_pow_mul(x, 2, half, n);
            lemma_mul_closed(x, x, n);
            lemma_mul_closed(x, y, n);
            lemma_pow_closed(x, 2 * half, n);
            if e % 2 == 1 {
                assert(gf_pow(x, e as nat, n) == gf_mul(x, rest, n));
                lemma_mul_commutative(x, y, n);
                lemma_mul_associative(y, x, rest, n);
            }
        }
        if e % 2 == 1 {
            y = _multiply_finite_field(x, y, block_size);
        }
        x = _multiply_finite_field(x, x, block_size);
        e = e / 2;
    }
    proof {
        lemma_mul_one_right(y, block_size);
    }
    y
}

/// Raises an element of a field of tabulated width to the power `exponent`
/// by squaring and multiplying.
pub fn power_in_field(a: &Vec<u8>, exponent: u128, block_size: u32) -> (power: Vec<u8>)
    requires
        supported_width(block_size),
        is_element(a@, block_size as nat),
    ensures
        power@ == field_power(a@, exponent as nat, block_size),
        is_element(power@, block_size as nat),
{
    let x: u128 = element_value(a, block_size);
    proof {
        lemma_one_in_field(block_size);
        lemma_pow_closed(x, exponent as nat, block_size);
        lemma_mul_one_left(gf_pow(x, exponent as nat, block_size), block_size);
    }
    to_binary(_square_multiply(1, x, exponent, block_size), block_size)
}

/// Raises an element of the field of width `block_size` to the power
/// `exponent` by squaring and multiplying. Fails if no defining polynomial is
/// tabulated for that width.
pub fn square_multiply(a: &Vec<u8>, exponent: u128, block_size: u32) -> (power: Result<
    Vec<u8>,
    CipherError,
>)
    requires
        is_element(a@, block_size as nat),
    ensures
        match power {
            Ok(p) => supported_width(block_size) && p@ == field_power(
                a@,
                exponent as nat,
                block_size,
            ) && is_element(p@, block_size as nat),
            Err(e) => !supported_width(block_size) && e == CipherError::UnsupportedWidth,
        },
{
    if irreducible_polynomial(block_size).is_none() {
        return Err(CipherError::UnsupportedWidth);
    }
    Ok(power_in_field(a, exponent, block_size))
}

} // verus!
