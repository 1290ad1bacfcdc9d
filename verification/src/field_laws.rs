//! Laws of the field arithmetic: the facts about exclusive or and shifting
//! that everything rests on, and from them the ring laws of the product.

use crate::field::{
    degree_mask, gf_mul, gf_pow, gf_square_iter, in_field, reduction_constant, supported_width,
    times_x,
};
use vstd::arithmetic::power2::{
    lemma2_to64, lemma_pow2_adds, lemma_pow2_strictly_increases, lemma_pow2_unfold, pow2,
};
use vstd::prelude::*;

verus! {

/// Exclusive or on integers is an abelian group operation with neutral
/// element 0 in which every element is its own inverse.
pub proof fn lemma_xor_laws(a: u128, b: u128, c: u128)
    by (bit_vector)
    ensures
        a ^ 0 == a,
        0 ^ a == a,
        a ^ a == 0,
        a ^ b == b ^ a,
        (a ^ b) ^ c == a ^ (b ^ c),
        (a ^ b) ^ b == a,
{
}

/// The lowest bit and the remaining bits of an integer, by mask and shift and
/// by arithmetic.
pub proof fn lemma_halving(b: u128)
    by (bit_vector)
    ensures
        b & 1 == b % 2,
        (b & 1 >= 1) == (b % 2 == 1),
        b >> 1 == b / 2,
{
}

/// Multiplying by `x` sends 0 to 0, respects sums and stays in the field.
pub proof fn lemma_times_x(a: u128, b: u128, n: u32)
    by (bit_vector)
    requires
        supported_width(n),
    ensures
        times_x(0, n) == 0,
        times_x(a ^ b, n) == times_x(a, n) ^ times_x(b, n),
        in_field(a, n) ==> in_field(times_x(a, n), n),
        a < degree_mask(n) ==> times_x(a, n) == a << 1,
{
}

/// Rearrangements of sums of four terms.
pub proof fn lemma_xor_four(a: u128, b: u128, c: u128, d: u128)
    by (bit_vector)
    ensures
        (a ^ b) ^ (c ^ d) == (a ^ c) ^ (b ^ d),
        (a ^ b) ^ (a ^ c) == b ^ c,
        (a ^ b) ^ (b ^ c) == a ^ c,
        b ^ (a ^ c) == a ^ (b ^ c),
{
}

/// The lowest bit and the remaining bits of a sum.
pub proof fn lemma_xor_halves(a: u128, b: u128)
    by (bit_vector)
    ensures
        ((a ^ b) % 2 == 1) == ((a % 2 == 1) != (b % 2 == 1)),
        (a ^ b) / 2 == (a / 2) ^ (b / 2),
        (a ^ b == 0) == (a == b),
{
}

/// An integer is its lowest bit plus twice its remaining bits.
pub proof fn lemma_split(a: u128)
    by (bit_vector)
    ensures
        a % 2 == 1 ==> a == 1 ^ ((a / 2) << 1),
        a % 2 != 1 ==> a == (a / 2) << 1,
{
}

/// The sum of two field elements is a field element.
pub proof fn lemma_xor_in_field(a: u128, b: u128, n: u32)
    by (bit_vector)
    requires
        supported_width(n),
        in_field(a, n),
        in_field(b, n),
    ensures
        in_field(a ^ b, n),
{
}

/// The product with 0 on the left is 0.
pub proof fn lemma_mul_zero_left(b: u128, n: u32)
    requires
        supported_width(n),
    ensures
        gf_mul(0, b, n) == 0,
    decreases b,
{
    if b != 0 {
        lemma_times_x(0, 0, n);
        lemma_mul_zero_left(b / 2, n);
        lemma_xor_laws(0, 0, 0);
    }
}

/// One step of the product, for every `b`: zero included.
pub proof fn lemma_mul_unfold(a: u128, b: u128, n: u32)
    ensures
        gf_mul(a, b, n) == if b % 2 == 1 {
            a ^ gf_mul(times_x(a, n), b / 2, n)
        } else {
            gf_mul(times_x(a, n), b / 2, n)
        },
{
}

/// The product of a field element with anything is a field element.
pub proof fn lemma_mul_closed(a: u128, b: u128, n: u32)
    requires
        supported_width(n),
        in_field(a, n),
    ensures
        in_field(gf_mul(a, b, n), n),
    decreases b,
{
    if b != 0 {
        lemma_times_x(a, 0, n);
        lemma_mul_closed(times_x(a, n), b / 2, n);
        lemma_xor_in_field(a, gf_mul(times_x(a, n), b / 2, n), n);
    }
}

/// The product distributes over a sum in its left argument.
pub proof fn lemma_mul_linear_left(a: u128, c: u128, b: u128, n: u32)
    requires
        supported_width(n),
    ensures
        gf_mul(a ^ c, b, n) == gf_mul(a, b, n) ^ gf_mul(c, b, n),
    decreases b,
{
    if b != 0 {
        let ra = gf_mul(times_x(a, n), b / 2, n);
        let rc = gf_mul(times_x(c, n), b / 2, n);
        lemma_times_x(a, c, n);
        lemma_mul_linear_left(times_x(a, n), times_x(c, n), b / 2, n);
        lemma_xor_four(a, c, ra, rc);
    } else {
        lemma_xor_laws(0, 0, 0);
    }
}

/// The product distributes over a sum in its right argument.
pub proof fn lemma_mul_linear_right(a: u128, b: u128, c: u128, n: u32)
    requires
        supported_width(n),
    ensures
        gf_mul(a, b ^ c, n) == gf_mul(a, b, n) ^ gf_mul(a, c, n),
    decreases b + c,
{
    lemma_xor_halves(b, c);
    if b == 0 && c == 0 {
        lemma_xor_laws(0, 0, 0);
    } else {
        let t = times_x(a, n);
        let rb = gf_mul(t, b / 2, n);
        let rc = gf_mul(t, c / 2, n);
        lemma_mul_unfold(a, b, n);
        lemma_mul_unfold(a, c, n);
        lemma_mul_unfold(a, b ^ c, n);
        lemma_mul_linear_right(t, b / 2, c / 2, n);
        lemma_xor_four(a, rb, a, rc);
        lemma_xor_four(rb, a, rc, 0);
        lemma_xor_laws(a, rb, rc);
    }
}

/// Multiplying by `x` commutes with the product.
pub proof fn lemma_mul_shift(a: u128, b: u128, n: u32)
    requires
        supported_width(n),
    ensures
        gf_mul(times_x(a, n), b, n) == times_x(gf_mul(a, b, n), n),
    decreases b,
{
    if b != 0 {
        let t = times_x(a, n);
        lemma_mul_shift(t, b / 2, n);
        lemma_times_x(a, gf_mul(t, b / 2, n), n);
    } else {
        lemma_times_x(0, 0, n);
    }
}

/// 1 is neutral on the right.
pub proof fn lemma_mul_one_right(a: u128, n: u32)
    ensures
        gf_mul(a, 1, n) == a,
{
    lemma_mul_unfold(a, 1, n);
    assert(gf_mul(times_x(a, n), 0, n) == 0);
    lemma_xor_laws(a, 0, 0);
}

/// The product with `x`, the element encoded by 2, is the shift.
pub proof fn lemma_mul_by_x(a: u128, n: u32)
    ensures
        gf_mul(a, 2, n) == times_x(a, n),
{
    lemma_mul_unfold(a, 2, n);
    lemma_mul_one_right(times_x(a, n), n);
}

/// 1 is neutral on the left.
pub proof fn lemma_mul_one_left(b: u128, n: u32)
    requires
        supported_width(n),
        in_field(b, n),
    ensures
        gf_mul(1, b, n) == b,
    decreases b,
{
    if b != 0 {
        lemma_mul_shift(1, b / 2, n);
        lemma_mul_one_left(b / 2, n);
        lemma_times_x(b / 2, 0, n);
        lemma_split(b);
    }
}

/// One step of the product along its left argument.
pub proof fn lemma_mul_unfold_left(a: u128, b: u128, n: u32)
    requires
        supported_width(n),
        in_field(a, n),
        in_field(b, n),
    ensures
        gf_mul(a, b, n) == if a % 2 == 1 {
            b ^ times_x(gf_mul(a / 2, b, n), n)
        } else {
            times_x(gf_mul(a / 2, b, n), n)
        },
{
    let h = a / 2;
    lemma_split(a);
    lemma_times_x(h, 0, n);
    lemma_mul_shift(h, b, n);
    if a % 2 == 1 {
        lemma_mul_linear_left(1, times_x(h, n), b, n);
        lemma_mul_one_left(b, n);
    }
}

/// The product of field elements is commutative.
pub proof fn lemma_mul_commutative(a: u128, b: u128, n: u32)
    requires
        supported_width(n),
        in_field(a, n),
        in_field(b, n),
    ensures
        gf_mul(a, b, n) == gf_mul(b, a, n),
    decreases b,
{
    if b != 0 {
        lemma_mul_shift(a, b / 2, n);
        lemma_mul_commutative(a, b / 2, n);
        lemma_mul_unfold_left(b, a, n);
    } else {
        lemma_mul_zero_left(a, n);
    }
}

/// The product of field elements is associative.
pub proof fn lemma_mul_associative(a: u128, b: u128, c: u128, n: u32)
    requires
        supported_width(n),
        in_field(a, n),
        in_field(b, n),
        in_field(c, n),
    ensures
        gf_mul(gf_mul(a, b, n), c, n) == gf_mul(a, gf_mul(b, c, n), n),
    decreases a,
{
    let bc = gf_mul(b, c, n);
    lemma_mul_closed(b, c, n);
    if a != 0 {
        let h = gf_mul(a / 2, b, n);
        lemma_mul_closed(a / 2, b, n);
        lemma_mul_unfold_left(a, b, n);
        lemma_mul_unfold_left(a, bc, n);
        lemma_mul_associative(a / 2, b, c, n);
        lemma_mul_shift(h, c, n);
        if a % 2 == 1 {
            lemma_mul_linear_left(b, times_x(h, n), c, n);
        }
    } else {
        lemma_mul_zero_left(b, n);
        lemma_mul_zero_left(c, n);
        lemma_mul_zero_left(bc, n);
    }
}

/// Products of four field elements can be regrouped crosswise.
pub proof fn lemma_mul_interchange(a: u128, b: u128, c: u128, d: u128, n: u32)
    requires
        supported_width(n),
        in_field(a, n),
        in_field(b, n),
        in_field(c, n),
        in_field(d, n),
    ensures
        gf_mul(gf_mul(a, b, n), gf_mul(c, d, n), n) == gf_mul(
            gf_mul(a, c, n),
            gf_mul(b, d, n),
            n,
        ),
{
    let cd = gf_mul(c, d, n);
    let bd = gf_mul(b, d, n);
    lemma_mul_closed(c, d, n);
    lemma_mul_closed(b, d, n);
    lemma_mul_associative(a, b, cd, n);
    lemma_mul_associative(b, c, d, n);
    lemma_mul_commutative(b, c, n);
    lemma_mul_associative(c, b, d, n);
    lemma_mul_associative(a, c, bd, n);
}

/// 1 is a field element.
pub proof fn lemma_one_in_field(n: u32)
    requires
        supported_width(n),
    ensures
        in_field(1, n),
{
}

/// A power of a field element is a field element.
pub proof fn lemma_pow_closed(a: u128, e: nat, n: u32)
    requires
        supported_width(n),
        in_field(a, n),
    ensures
        in_field(gf_pow(a, e, n), n),
    decreases e,
{
    if e != 0 {
        lemma_mul_closed(a, gf_pow(a, (e - 1) as nat, n), n);
    }
}

/// The first power of a field element is the element.
pub proof fn lemma_pow_one(a: u128, n: u32)
    ensures
        gf_pow(a, 1, n) == a,
{
    assert(gf_pow(a, 0, n) == 1);
    lemma_mul_one_right(a, n);
}

/// A power with a sum as exponent is the product of the powers.
pub proof fn lemma_pow_add(a: u128, i: nat, j: nat, n: u32)
    requires
        supported_width(n),
        in_field(a, n),
    ensures
        gf_pow(a, i + j, n) == gf_mul(gf_pow(a, i, n), gf_pow(a, j, n), n),
    decreases i,
{
    lemma_pow_closed(a, j, n);
    if i == 0 {
        lemma_mul_one_left(gf_pow(a, j, n), n);
    } else {
        let i1 = (i - 1) as nat;
        lemma_pow_add(a, i1, j, n);
        lemma_pow_closed(a, i1, n);
        lemma_mul_associative(a, gf_pow(a, i1, n), gf_pow(a, j, n), n);
        assert((i + j - 1) as nat == i1 + j);
    }
}

/// A power of a power is the power with the product of the exponents.
pub proof fn lemma_pow_mul(a: u128, i: nat, j: nat, n: u32)
    requires
        supported_width(n),
        in_field(a, n),
    ensures
        gf_pow(gf_pow(a, i, n), j, n) == gf_pow(a, i * j, n),
    decreases j,
{
    if j == 0 {
        assert(i * j == 0);
    } else {
        let j1 = (j - 1) as nat;
        lemma_pow_mul(a, i, j1, n);
        lemma_pow_add(a, i, i * j1, n);
        assert(i + i * j1 == i * j) by (nonlinear_arith)
            requires
                j1 + 1 == j,
        ;
    }
}

/// Squaring `k` times is raising to the power `2^k`.
pub proof fn lemma_square_iter_is_pow(a: u128, k: u32, n: u32)
    requires
        supported_width(n),
        in_field(a, n),
    ensures
        gf_square_iter(a, k, n) == gf_pow(a, pow2(k as nat), n),
    decreases k,
{
    lemma2_to64();
    if k == 0 {
        lemma_pow_one(a, n);
    } else {
        let k1 = (k - 1) as u32;
        lemma_square_iter_is_pow(a, k1, n);
        lemma_pow2_unfold(k as nat);
        lemma_pow_add(a, pow2(k1 as nat), pow2(k1 as nat), n);
    }
}

/// Repeated squaring stays in the field.
pub proof fn lemma_square_iter_closed(a: u128, k: u32, n: u32)
    requires
        supported_width(n),
        in_field(a, n),
    ensures
        in_field(gf_square_iter(a, k, n), n),
    decreases k,
{
    if k != 0 {
        let s = gf_square_iter(a, (k - 1) as u32, n);
        lemma_square_iter_closed(a, (k - 1) as u32, n);
        lemma_mul_closed(s, s, n);
    }
}

/// In characteristic 2 the square of a sum is the sum of the squares, and so
/// is every iterated square.
pub proof fn lemma_square_iter_additive(a: u128, b: u128, k: u32, n: u32)
    requires
        supported_width(n),
        in_field(a, n),
        in_field(b, n),
    ensures
        gf_square_iter(a ^ b, k, n) == gf_square_iter(a, k, n) ^ gf_square_iter(b, k, n),
    decreases k,
{
    if k != 0 {
        let k1 = (k - 1) as u32;
        let x = gf_square_iter(a, k1, n);
        let y = gf_square_iter(b, k1, n);
        lemma_square_iter_additive(a, b, k1, n);
        lemma_square_iter_closed(a, k1, n);
        lemma_square_iter_closed(b, k1, n);
        lemma_mul_linear_left(x, y, x ^ y, n);
        lemma_mul_linear_right(x, x, y, n);
        lemma_mul_linear_right(y, x, y, n);
        lemma_mul_commutative(x, y, n);
        lemma_xor_four(gf_mul(x, x, n), gf_mul(x, y, n), gf_mul(y, y, n), 0);
    }
}

/// The iterated square of a product is the product of the iterated squares.
pub proof fn lemma_square_iter_multiplicative(a: u128, b: u128, k: u32, n: u32)
    requires
        supported_width(n),
        in_field(a, n),
        in_field(b, n),
    ensures
        gf_square_iter(gf_mul(a, b, n), k, n) == gf_mul(
            gf_square_iter(a, k, n),
            gf_square_iter(b, k, n),
            n,
        ),
    decreases k,
{
    if k != 0 {
        let k1 = (k - 1) as u32;
        let x = gf_square_iter(a, k1, n);
        let y = gf_square_iter(b, k1, n);
        lemma_square_iter_multiplicative(a, b, k1, n);
        lemma_square_iter_closed(a, k1, n);
        lemma_square_iter_closed(b, k1, n);
        lemma_mul_interchange(x, y, x, y, n);
    }
}

/// Every iterated square of 0 is 0 and of 1 is 1.
pub proof fn lemma_square_iter_units(k: u32, n: u32)
    requires
        supported_width(n),
    ensures
        gf_square_iter(0, k, n) == 0,
        gf_square_iter(1, k, n) == 1,
    decreases k,
{
    if k != 0 {
        lemma_square_iter_units((k - 1) as u32, n);
        lemma_mul_one_right(1, n);
        lemma_mul_zero_left(0, n);
    }
}

/// In each tabulated field, squaring the element `x` as many times as the
/// field is wide gives `x` back. Checked by evaluation, width by width.
pub proof fn lemma_frobenius_fixes_x(n: u32)
    requires
        supported_width(n),
    ensures
        gf_square_iter(2, n, n) == 2,
{
    if n == 5 {
        assert(gf_square_iter(2, 5, 5) == 2) by (bit_vector);
    } else if n == 8 {
        assert(gf_square_iter(2, 8, 8) == 2) by (bit_vector);
    } else if n == 11 {
        assert(gf_square_iter(2, 11, 11) == 2) by (bit_vector);
    } else if n == 17 {
        assert(gf_square_iter(2, 17, 17) == 2) by (bit_vector);
    } else if n == 25 {
        assert(gf_square_iter(2, 25, 25) == 2) by (bit_vector);
    } else if n == 31 {
        assert(gf_square_iter(2, 31, 31) == 2) by (bit_vector);
    } else if n == 33 {
        assert(gf_square_iter(2, 33, 33) == 2) by (bit_vector);
    } else if n == 47 {
        assert(gf_square_iter(2, 47, 47) == 2) by (bit_vector);
    } else if n == 61 {
        assert(gf_square_iter(2, 61, 61) == 2) by (bit_vector);
    } else if n == 83 {
        assert(gf_square_iter(2, 83, 83) == 2) by (bit_vector);
    } else if n == 101 {
        assert(gf_square_iter(2, 101, 101) == 2) by (bit_vector);
    } else if n == 125 {
        assert(gf_square_iter(2, 125, 125) == 2) by (bit_vector);
    } else {
        assert(gf_square_iter(2, 127, 127) == 2) by (bit_vector);
    }
}

/// Squaring a field element as many times as the field is wide gives the
/// element back.
pub proof fn lemma_frobenius_identity(a: u128, n: u32)
    requires
        supported_width(n),
        in_field(a, n),
    ensures
        gf_square_iter(a, n, n) == a,
    decreases a,
{
    if a == 0 {
        lemma_square_iter_units(n, n);
    } else {
        let h = a / 2;
        let hx = gf_mul(h, 2, n);
        lemma_split(a);
        lemma_times_x(h, 0, n);
        lemma_mul_by_x(h, n);
        lemma_frobenius_identity(h, n);
        lemma_frobenius_fixes_x(n);
        lemma_square_iter_multiplicative(h, 2, n, n);
        if a % 2 == 1 {
            lemma_mul_closed(h, 2, n);
            lemma_square_iter_additive(1, hx, n, n);
            lemma_square_iter_units(n, n);
        }
    }
}

/// The field of width `n` has `2^n` elements.
pub proof fn lemma_field_order(n: u32)
    requires
        supported_width(n),
    ensures
        2 * degree_mask(n) == pow2(n as nat),
{
    lemma2_to64();
    assert(pow2(47) == 0x800000000000) by {
        lemma_pow2_adds(32, 15);
    }
    assert(pow2(61) == 0x2000000000000000) by {
        lemma_pow2_adds(32, 29);
    }
    assert(pow2(83) == 0x800000000000000000000) by {
        lemma_pow2_adds(64, 19);
    }
    assert(pow2(101) == 0x20000000000000000000000000) by {
        lemma_pow2_adds(64, 32);
        lemma_pow2_adds(96, 5);
    }
    assert(pow2(125) == 0x20000000000000000000000000000000) by {
        lemma_pow2_adds(64, 61);
    }
    assert(pow2(127) == 0x80000000000000000000000000000000) by {
        lemma_pow2_adds(125, 2);
    }
    lemma_pow2_adds(32, 1);
}

/// Shifting by one place doubles, and multiplying the degree bit by `x`
/// gives the defining polynomial without its leading term.
proof fn lemma_shift_and_reduce(a: u128, n: u32)
    by (bit_vector)
    requires
        supported_width(n),
    ensures
        a < degree_mask(n) ==> a << 1 == 2 * a,
        times_x(degree_mask(n), n) == reduction_constant(n) - 2 * degree_mask(n),
{
}

/// Below the degree of the field the powers of `x` are the monomials: `x^i`
/// is encoded by `2^i`.
pub proof fn lemma_power_of_x(i: nat, n: u32)
    requires
        supported_width(n),
        i < n,
    ensures
        gf_pow(2, i, n) == pow2(i),
    decreases i,
{
    lemma2_to64();
    if i > 0 {
        let i1 = (i - 1) as nat;
        lemma_power_of_x(i1, n);
        lemma_field_order(n);
        lemma_pow2_unfold(n as nat);
        lemma_pow2_unfold(i);
        if i < n - 1 {
            lemma_pow2_strictly_increases(i, (n - 1) as nat);
        }
        let m = pow2(i1) as u128;
        lemma_mul_commutative(2, m, n);
        lemma_mul_by_x(m, n);
        lemma_times_x(m, 0, n);
        lemma_shift_and_reduce(m, n);
    }
}

/// The defining relation of the field: `x^n` is the defining polynomial
/// without its leading term `x^n`, so that the polynomial itself is zero at
/// `x`. With the ring laws this makes the field the polynomials over GF(2)
/// modulo the defining polynomial.
pub proof fn lemma_defining_relation(n: u32)
    requires
        supported_width(n),
    ensures
        gf_pow(2, n as nat, n) == reduction_constant(n) - 2 * degree_mask(n),
{
    let h = degree_mask(n);
    lemma_field_order(n);
    lemma_pow2_unfold(n as nat);
    lemma_power_of_x((n - 1) as nat, n);
    lemma_mul_commutative(2, h, n);
    lemma_mul_by_x(h, n);
    lemma_shift_and_reduce(0, n);
}

/// Field closure: raising a field element to the power `2^n`, the number of
/// elements of the field, gives the element back.
pub proof fn lemma_field_closure(a: u128, n: u32)
    requires
        supported_width(n),
        in_field(a, n),
    ensures
        gf_pow(a, pow2(n as nat), n) == a,
{
    lemma_frobenius_identity(a, n);
    lemma_square_iter_is_pow(a, n, n);
}

/// Raising to a power that is 1 modulo `2^n - 1` is the identity.
pub proof fn lemma_pow_one_mod_order(a: u128, t: nat, n: u32)
    requires
        supported_width(n),
        in_field(a, n),
    ensures
        gf_pow(a, (1 + t * (pow2(n as nat) - 1)) as nat, n) == a,
    decreases t,
{
    let m = (pow2(n as nat) - 1) as nat;
    lemma_field_order(n);
    if t == 0 {
        assert(t * (pow2(n as nat) - 1) == 0);
        lemma_pow_one(a, n);
    } else {
        let t1 = (t - 1) as nat;
        lemma_pow_one_mod_order(a, t1, n);
        assert(1 + t * m == (1 + t1 * m) + m) by (nonlinear_arith)
            requires
                t1 + 1 == t,
        ;
        assert(t1 * m >= 0) by (nonlinear_arith);
        lemma_pow_add(a, (1 + t1 * m) as nat, m, n);
        assert(gf_pow(a, m + 1, n) == gf_mul(a, gf_pow(a, m, n), n));
        lemma_field_closure(a, n);
    }
}

/// If `e * d` is 1 modulo `2^n - 1`, raising to the power `d` undoes raising
/// to the power `e`.
pub proof fn lemma_pow_inverse(a: u128, e: nat, d: nat, t: nat, n: u32)
    requires
        supported_width(n),
        in_field(a, n),
        e * d == 1 + t * (pow2(n as nat) - 1),
    ensures
        gf_pow(gf_pow(a, e, n), d, n) == a,
{
    lemma_pow_mul(a, e, d, n);
    lemma_pow_one_mod_order(a, t, n);
}

} // verus!
