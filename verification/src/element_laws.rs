//! The laws of the field, stated for field elements as bit sequences: the
//! additive group, the product, and the closure of the field under powers.

use crate::codec::{
    bits_to_nat, is_bits, is_element, lemma_binary_of_decimal, lemma_bits_value_bound,
    lemma_decimal_of_binary_small, nat_to_bits, zero_bits,
};
use crate::field::{
    field_power, field_product, gf_mul, gf_pow, in_field, supported_width, xor_bits,
};
use crate::field_laws::{
    lemma_field_closure, lemma_field_order, lemma_mul_associative, lemma_mul_closed,
    lemma_mul_commutative, lemma_mul_linear_left, lemma_mul_one_right, lemma_one_in_field,
    lemma_pow_closed, lemma_pow_inverse,
};
use crate::number::{group_order, lemma_pow2_128};
use vstd::arithmetic::power2::{lemma_pow2_strictly_increases, lemma_pow2_unfold, pow2};
use vstd::prelude::*;

verus! {

/// The field element 1 of width `n`.
pub open spec fn one_bits(n: nat) -> Seq<u8> {
    nat_to_bits(1, n)
}

/// Exclusive or on bits.
pub proof fn lemma_xor_bit(a: u8, b: u8, c: u8)
    by (bit_vector)
    ensures
        a ^ 0 == a,
        a ^ a == 0,
        a ^ b == b ^ a,
        (a ^ b) ^ c == a ^ (b ^ c),
        (a ^ b) ^ b == a,
        a <= 1 && b <= 1 ==> a ^ b <= 1,
{
}

/// The sum of two field elements is a field element.
pub proof fn lemma_add_closed(a: Seq<u8>, b: Seq<u8>, n: nat)
    requires
        is_element(a, n),
        is_element(b, n),
    ensures
        is_element(xor_bits(a, b), n),
{
    assert forall|i: int| 0 <= i < n implies #[trigger] xor_bits(a, b)[i] <= 1 by {
        lemma_xor_bit(a[i], b[i], 0);
    }
}

/// Adding the same sequence twice changes nothing.
pub proof fn lemma_add_cancels(a: Seq<u8>, b: Seq<u8>)
    requires
        a.len() <= b.len(),
    ensures
        xor_bits(xor_bits(a, b), b) == a,
{
    assert forall|i: int| 0 <= i < a.len() implies xor_bits(xor_bits(a, b), b)[i] == a[i] by {
        lemma_xor_bit(a[i], b[i], 0);
    }
    assert(xor_bits(xor_bits(a, b), b) =~= a);
}

/// Addition is associative: `(a + b) + c == a + (b + c)`.
pub proof fn lemma_add_associative(a: Seq<u8>, b: Seq<u8>, c: Seq<u8>)
    requires
        a.len() == b.len(),
        b.len() == c.len(),
    ensures
        xor_bits(xor_bits(a, b), c) == xor_bits(a, xor_bits(b, c)),
{
    assert forall|i: int| 0 <= i < a.len() implies xor_bits(xor_bits(a, b), c)[i] == xor_bits(
        a,
        xor_bits(b, c),
    )[i] by {
        lemma_xor_bit(a[i], b[i], c[i]);
    }
    assert(xor_bits(xor_bits(a, b), c) =~= xor_bits(a, xor_bits(b, c)));
}

/// Addition is commutative: `a + b == b + a`.
pub proof fn lemma_add_commutative(a: Seq<u8>, b: Seq<u8>)
    requires
        a.len() == b.len(),
    ensures
        xor_bits(a, b) == xor_bits(b, a),
{
    assert forall|i: int| 0 <= i < a.len() implies xor_bits(a, b)[i] == xor_bits(b, a)[i] by {
        lemma_xor_bit(a[i], b[i], 0);
    }
    assert(xor_bits(a, b) =~= xor_bits(b, a));
}

/// The all-zero element is neutral for addition: `a + 0 == a` and
/// `0 + a == a`.
pub proof fn lemma_add_identity(a: Seq<u8>)
    ensures
        xor_bits(a, zero_bits(a.len())) == a,
        xor_bits(zero_bits(a.len()), a) == a,
{
    assert forall|i: int| 0 <= i < a.len() implies xor_bits(a, zero_bits(a.len()))[i] == a[i]
        && xor_bits(zero_bits(a.len()), a)[i] == a[i] by {
        lemma_xor_bit(a[i], 0, 0);
        lemma_xor_bit(0, a[i], 0);
    }
    assert(xor_bits(a, zero_bits(a.len())) =~= a);
    assert(xor_bits(zero_bits(a.len()), a) =~= a);
}

/// Every element is its own additive inverse: `a + a == 0`.
pub proof fn lemma_add_self_inverse(a: Seq<u8>)
    ensures
        xor_bits(a, a) == zero_bits(a.len()),
{
    assert forall|i: int| 0 <= i < a.len() implies xor_bits(a, a)[i] == 0 by {
        lemma_xor_bit(a[i], 0, 0);
    }
    assert(xor_bits(a, a) =~= zero_bits(a.len()));
}

/// Exclusive or on an integer's lowest bit and on its remaining bits.
proof fn lemma_xor_digits(x: u128, y: u128, p: u128, q: u128)
    by (bit_vector)
    requires
        x <= 0x7fffffffffffffffffffffffffffffff,
        y <= 0x7fffffffffffffffffffffffffffffff,
        p <= 1,
        q <= 1,
    ensures
        ((2 * x + p) as u128) ^ ((2 * y + q) as u128) == 2 * (x ^ y) + (p ^ q),
        x ^ y <= 0x7fffffffffffffffffffffffffffffff,
{
}

/// The sum of two bit sequences denotes the exclusive or of the numbers that
/// they denote.
pub proof fn lemma_value_of_sum(a: Seq<u8>, b: Seq<u8>)
    requires
        is_bits(a),
        is_bits(b),
        a.len() == b.len(),
        a.len() <= 128,
    ensures
        bits_to_nat(a) <= u128::MAX,
        bits_to_nat(b) <= u128::MAX,
        bits_to_nat(xor_bits(a, b)) == (bits_to_nat(a) as u128) ^ (bits_to_nat(b) as u128),
    decreases a.len(),
{
    lemma_bits_value_bound(a);
    lemma_bits_value_bound(b);
    lemma_pow2_128();
    if a.len() < 128 {
        lemma_pow2_strictly_increases(a.len(), 128);
    }
    if a.len() == 0 {
        assert(0u128 ^ 0u128 == 0u128) by (bit_vector);
    } else {
        let (a1, b1) = (a.drop_last(), b.drop_last());
        lemma_value_of_sum(a1, b1);
        lemma_bits_value_bound(a1);
        lemma_bits_value_bound(b1);
        lemma_pow2_strictly_increases(a1.len(), 128);
        lemma_pow2_unfold(128);
        lemma_pow2_unfold(a.len());
        assert(xor_bits(a, b).drop_last() =~= xor_bits(a1, b1));
        let (x, y) = (bits_to_nat(a1) as u128, bits_to_nat(b1) as u128);
        let (p, q) = (a.last(), b.last());
        assert(p <= 1 && q <= 1);
        lemma_xor_bit(p, q, 0);
        assert((p ^ q) as u128 == (p as u128) ^ (q as u128)) by (bit_vector);
        lemma_xor_digits(x, y, p as u128, q as u128);
    }
}

/// The bits of an exclusive or are the sum of the bits.
pub proof fn lemma_bits_of_xor(x: u128, y: u128, n: u32)
    requires
        supported_width(n),
        in_field(x, n),
        in_field(y, n),
    ensures
        nat_to_bits((x ^ y) as nat, n as nat) == xor_bits(
            nat_to_bits(x as nat, n as nat),
            nat_to_bits(y as nat, n as nat),
        ),
{
    let w = n as nat;
    let (a, b) = (nat_to_bits(x as nat, w), nat_to_bits(y as nat, w));
    lemma_field_order(n);
    lemma_decimal_of_binary_small(x as nat, w);
    lemma_decimal_of_binary_small(y as nat, w);
    lemma_value_of_sum(a, b);
    lemma_add_closed(a, b, w);
    lemma_binary_of_decimal(xor_bits(a, b));
}

/// What a field element of a tabulated width denotes lies in the field.
pub proof fn lemma_element_in_field(a: Seq<u8>, n: u32)
    requires
        supported_width(n),
        is_element(a, n as nat),
    ensures
        bits_to_nat(a) <= u128::MAX,
        in_field(bits_to_nat(a) as u128, n),
{
    lemma_bits_value_bound(a);
    lemma_field_order(n);
}

/// The product is commutative: `a * b == b * a`.
pub proof fn lemma_product_commutative(a: Seq<u8>, b: Seq<u8>, n: u32)
    requires
        supported_width(n),
        is_element(a, n as nat),
        is_element(b, n as nat),
    ensures
        field_product(a, b, n) == field_product(b, a, n),
{
    lemma_element_in_field(a, n);
    lemma_element_in_field(b, n);
    lemma_mul_commutative(bits_to_nat(a) as u128, bits_to_nat(b) as u128, n);
}

/// The product is associative: `(a * b) * c == a * (b * c)`.
pub proof fn lemma_product_associative(a: Seq<u8>, b: Seq<u8>, c: Seq<u8>, n: u32)
    requires
        supported_width(n),
        is_element(a, n as nat),
        is_element(b, n as nat),
        is_element(c, n as nat),
    ensures
        field_product(field_product(a, b, n), c, n) == field_product(
            a,
            field_product(b, c, n),
            n,
        ),
{
    let (x, y, z) = (bits_to_nat(a) as u128, bits_to_nat(b) as u128, bits_to_nat(c) as u128);
    lemma_element_in_field(a, n);
    lemma_element_in_field(b, n);
    lemma_element_in_field(c, n);
    lemma_field_order(n);
    lemma_mul_closed(x, y, n);
    lemma_mul_closed(y, z, n);
    lemma_decimal_of_binary_small(gf_mul(x, y, n) as nat, n as nat);
    lemma_decimal_of_binary_small(gf_mul(y, z, n) as nat, n as nat);
    lemma_mul_associative(x, y, z, n);
}

/// The product distributes over addition: `(a + b) * c == a * c + b * c`.
pub proof fn lemma_product_distributive(a: Seq<u8>, b: Seq<u8>, c: Seq<u8>, n: u32)
    requires
        supported_width(n),
        is_element(a, n as nat),
        is_element(b, n as nat),
        is_element(c, n as nat),
    ensures
        field_product(xor_bits(a, b), c, n) == xor_bits(
            field_product(a, c, n),
            field_product(b, c, n),
        ),
{
    let (x, y, z) = (bits_to_nat(a) as u128, bits_to_nat(b) as u128, bits_to_nat(c) as u128);
    lemma_element_in_field(a, n);
    lemma_element_in_field(b, n);
    lemma_element_in_field(c, n);
    lemma_value_of_sum(a, b);
    lemma_mul_linear_left(x, y, z, n);
    lemma_mul_closed(x, z, n);
    lemma_mul_closed(y, z, n);
    lemma_bits_of_xor(gf_mul(x, z, n), gf_mul(y, z, n), n);
}

/// The element 1 is neutral for the product: `a * 1 == a`.
pub proof fn lemma_product_identity(a: Seq<u8>, n: u32)
    requires
        supported_width(n),
        is_element(a, n as nat),
    ensures
        field_product(a, one_bits(n as nat), n) == a,
{
    lemma_element_in_field(a, n);
    lemma_field_order(n);
    lemma_one_in_field(n);
    lemma_decimal_of_binary_small(1, n as nat);
    lemma_mul_one_right(bits_to_nat(a) as u128, n);
    lemma_binary_of_decimal(a);
}

/// If `e * d` is 1 modulo `2^n - 1`, raising a field element to the power `e`
/// and the result to the power `d` gives the element back.
pub proof fn lemma_power_inverse(a: Seq<u8>, e: nat, d: nat, t: nat, n: u32)
    requires
        supported_width(n),
        is_element(a, n as nat),
        e * d == 1 + t * group_order(n as nat),
    ensures
        field_power(field_power(a, e, n), d, n) == a,
{
    let x = bits_to_nat(a) as u128;
    let y = gf_pow(x, e, n);
    lemma_bits_value_bound(a);
    lemma_field_order(n);
    assert(in_field(x, n));
    lemma_pow_closed(x, e, n);
    lemma_decimal_of_binary_small(y as nat, n as nat);
    assert(t * group_order(n as nat) == t * (pow2(n as nat) - 1));
    lemma_pow_inverse(x, e, d, t, n);
    lemma_binary_of_decimal(a);
}

/// Field closure: raising an element to the power `2^n`, the number of
/// elements of the field, gives the element back.
pub proof fn lemma_power_closure(a: Seq<u8>, n: u32)
    requires
        supported_width(n),
        is_element(a, n as nat),
    ensures
        field_power(a, pow2(n as nat), n) == a,
{
    lemma_element_in_field(a, n);
    lemma_field_closure(bits_to_nat(a) as u128, n);
    lemma_binary_of_decimal(a);
}

} // verus!
