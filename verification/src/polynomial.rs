//! Polynomials over GF(2) without a bound on the degree, each encoded by the
//! natural number whose bit `i` is the coefficient of `x^i`; and the proof
//! that the product of the field is the product of polynomials, reduced by
//! the defining polynomial.

use crate::field::{degree_mask, gf_mul, in_field, reduction_constant, supported_width, times_x};
use crate::field_laws::{
    lemma_field_order, lemma_mul_closed, lemma_mul_shift, lemma_mul_unfold, lemma_xor_halves,
};
use vstd::arithmetic::power2::{lemma2_to64, lemma_pow2_unfold, pow2};
use vstd::prelude::*;

verus! {

/// The sum of two polynomials: coefficient by coefficient, modulo 2.
pub open spec fn poly_add(a: nat, b: nat) -> nat
    decreases a + b,
{
    if a == 0 && b == 0 {
        0
    } else {
        2 * poly_add(a / 2, b / 2) + if (a % 2 == 1) != (b % 2 == 1) {
            1nat
        } else {
            0nat
        }
    }
}

/// The product of two polynomials: the sum of `a * x^i` over the terms `x^i`
/// of `b`.
pub open spec fn poly_mul(a: nat, b: nat) -> nat
    decreases b,
{
    if b == 0 {
        0
    } else {
        poly_add(
            if b % 2 == 1 {
                a
            } else {
                0
            },
            2 * poly_mul(a, b / 2),
        )
    }
}

/// `r` is a remainder of `p` by `f`: its degree is below `n`, and it differs
/// from `p` by a multiple of `f`.
pub open spec fn is_remainder(p: nat, r: nat, f: nat, n: nat) -> bool {
    r < pow2(n) && exists|q: nat| p == poly_add(poly_mul(f, q), r)
}

/// The lowest coefficient and the remaining coefficients of a sum.
pub proof fn lemma_add_halves(a: nat, b: nat)
    ensures
        poly_add(a, b) / 2 == poly_add(a / 2, b / 2),
        (poly_add(a, b) % 2 == 1) == ((a % 2 == 1) != (b % 2 == 1)),
{
    if a == 0 && b == 0 {
        assert(poly_add(0, 0) == 0);
    }
}

/// Zero is neutral for the sum.
pub proof fn lemma_add_zero(a: nat)
    ensures
        poly_add(a, 0) == a,
        poly_add(0, a) == a,
    decreases a,
{
    if a != 0 {
        lemma_add_zero(a / 2);
    }
}

/// The sum is commutative.
pub proof fn lemma_poly_add_commutative(a: nat, b: nat)
    ensures
        poly_add(a, b) == poly_add(b, a),
    decreases a + b,
{
    if a != 0 || b != 0 {
        lemma_poly_add_commutative(a / 2, b / 2);
    }
}

/// The sum is associative.
pub proof fn lemma_poly_add_associative(a: nat, b: nat, c: nat)
    ensures
        poly_add(poly_add(a, b), c) == poly_add(a, poly_add(b, c)),
    decreases a + b + c,
{
    lemma_add_halves(a, b);
    lemma_add_halves(b, c);
    if a != 0 || b != 0 || c != 0 {
        lemma_poly_add_associative(a / 2, b / 2, c / 2);
        lemma_add_halves(poly_add(a, b), c);
        lemma_add_halves(a, poly_add(b, c));
    } else {
        assert(poly_add(0, 0) == 0);
    }
}

/// A polynomial is its own inverse for the sum.
pub proof fn lemma_poly_add_self(a: nat)
    ensures
        poly_add(a, a) == 0,
    decreases a,
{
    if a != 0 {
        lemma_poly_add_self(a / 2);
    }
}

/// Only equal polynomials have the sum zero.
pub proof fn lemma_poly_add_cancels(a: nat, b: nat)
    requires
        poly_add(a, b) == 0,
    ensures
        a == b,
    decreases a + b,
{
    if a != 0 || b != 0 {
        lemma_poly_add_cancels(a / 2, b / 2);
    }
}

/// Doubling, the product with `x`, distributes over the sum.
pub proof fn lemma_add_doubles(a: nat, b: nat)
    ensures
        poly_add(2 * a, 2 * b) == 2 * poly_add(a, b),
{
    if a == 0 && b == 0 {
        assert(poly_add(0, 0) == 0);
    }
}

/// The sum of two polynomials of degree below `k` has degree below `k`.
pub proof fn lemma_add_bound(a: nat, b: nat, k: nat)
    requires
        a < pow2(k),
        b < pow2(k),
    ensures
        poly_add(a, b) < pow2(k),
    decreases k,
{
    lemma2_to64();
    if k == 0 {
        assert(poly_add(0, 0) == 0);
    } else {
        lemma_pow2_unfold(k);
        lemma_add_bound(a / 2, b / 2, (k - 1) as nat);
        if a == 0 && b == 0 {
            assert(poly_add(0, 0) == 0);
        }
    }
}

/// Adding a polynomial of degree below `k` to one with no term below `x^k`
/// leaves the latter's terms as they are.
pub proof fn lemma_add_keeps_high(a: nat, b: nat, k: nat)
    requires
        b < pow2(k),
        a >= pow2(k),
    ensures
        poly_add(a, b) >= pow2(k),
    decreases k,
{
    lemma2_to64();
    if k == 0 {
        lemma_add_zero(a);
    } else {
        lemma_pow2_unfold(k);
        lemma_add_keeps_high(a / 2, b / 2, (k - 1) as nat);
    }
}

/// On integers the sum of polynomials is the exclusive or.
pub proof fn lemma_add_is_xor(x: u128, y: u128)
    ensures
        poly_add(x as nat, y as nat) == x ^ y,
    decreases x + y,
{
    lemma_xor_halves(x, y);
    if x != 0 || y != 0 {
        lemma_add_is_xor(x / 2, y / 2);
        let z = x ^ y;
        assert(z == 2 * (z / 2) + z % 2);
    }
}

/// The product with a sum is the sum of the products.
pub proof fn lemma_poly_mul_linear(a: nat, b: nat, c: nat)
    ensures
        poly_mul(a, poly_add(b, c)) == poly_add(poly_mul(a, b), poly_mul(a, c)),
    decreases b + c,
{
    if b == 0 && c == 0 {
        assert(poly_add(0, 0) == 0);
    } else {
        let s = poly_add(b, c);
        let (pb, pc) = (poly_mul(a, b / 2), poly_mul(a, c / 2));
        let (tb, tc) = (if b % 2 == 1 { a } else { 0 }, if c % 2 == 1 { a } else { 0 });
        let ts: nat = if s % 2 == 1 { a } else { 0 };
        lemma_add_halves(b, c);
        lemma_poly_mul_linear(a, b / 2, c / 2);
        lemma_add_doubles(pb, pc);
        // the terms of degree zero
        lemma_poly_add_self(a);
        lemma_add_zero(a);
        lemma_add_zero(0);
        assert(ts == poly_add(tb, tc));
        // (tb + tc) + (2pb + 2pc) == (tb + 2pb) + (tc + 2pc)
        lemma_poly_add_associative(tb, tc, poly_add(2 * pb, 2 * pc));
        lemma_poly_add_associative(tc, 2 * pb, 2 * pc);
        lemma_poly_add_commutative(tc, 2 * pb);
        lemma_poly_add_associative(2 * pb, tc, 2 * pc);
        lemma_poly_add_associative(tb, 2 * pb, poly_add(tc, 2 * pc));
        // both products unfold, also where the second factor is zero
        assert(poly_mul(a, 0) == 0);
        lemma_add_zero(0);
        assert(poly_mul(a, s) == poly_add(ts, 2 * poly_mul(a, s / 2)));
        assert(poly_mul(a, b) == poly_add(tb, 2 * pb));
        assert(poly_mul(a, c) == poly_add(tc, 2 * pc));
    }
}

/// A multiple of a polynomial of degree `n`, other than zero, has degree at
/// least `n`.
pub proof fn lemma_multiple_is_high(f: nat, q: nat, n: nat)
    requires
        pow2(n) <= f < pow2(n + 1),
        q != 0,
    ensures
        poly_mul(f, q) >= pow2(n),
    decreases q,
{
    let half = poly_mul(f, q / 2);
    lemma_pow2_unfold(n + 1);
    if q / 2 == 0 {
        assert(half == 0);
        lemma_add_zero(f);
    } else {
        lemma_multiple_is_high(f, q / 2, n);
        if q % 2 == 1 {
            // f has no term high enough to cancel one of 2 * half
            lemma_add_keeps_high(2 * half, f, n + 1);
            lemma_poly_add_commutative(f, 2 * half);
        } else {
            lemma_add_zero(2 * half);
        }
    }
}

/// The product of the field is a remainder of the product of polynomials by
/// the defining polynomial: the quotient `q` satisfies
/// `a * b == f * q + gf_mul(a, b)`.
pub proof fn lemma_product_is_remainder(a: u128, b: u128, n: u32) -> (q: nat)
    requires
        supported_width(n),
        in_field(a, n),
    ensures
        gf_mul(a, b, n) < pow2(n as nat),
        poly_mul(a as nat, b as nat) == poly_add(
            poly_mul(reduction_constant(n) as nat, q),
            gf_mul(a, b, n) as nat,
        ),
        is_remainder(
            poly_mul(a as nat, b as nat),
            gf_mul(a, b, n) as nat,
            reduction_constant(n) as nat,
            n as nat,
        ),
    decreases b,
{
    let f = reduction_constant(n) as nat;
    lemma_field_order(n);
    lemma_mul_closed(a, b, n);
    if b == 0 {
        assert(poly_mul(f, 0) == 0);
        assert(poly_add(0, 0) == 0);
        0
    } else {
        let half = b / 2;
        let q1 = lemma_product_is_remainder(a, half, n);
        let g1 = gf_mul(a, half, n);
        lemma_mul_closed(a, half, n);
        lemma_mul_shift(a, half, n);
        lemma_mul_unfold(a, b, n);
        let shifted = times_x(g1, n);
        // twice the remainder so far is its shift, plus the defining
        // polynomial if the shift had to reduce
        let top: nat = if g1 >= degree_mask(n) { 1 } else { 0 };
        let tf: nat = if top == 1 { f } else { 0 };
        lemma_double_is_shift(g1, n);
        lemma_add_is_xor(shifted, reduction_constant(n));
        lemma_add_zero(shifted as nat);
        lemma_poly_add_commutative(tf, shifted as nat);
        assert(2 * g1 == poly_add(tf, shifted as nat));
        let q = 2 * q1 + top;
        let m1 = poly_mul(f, q1);
        // f * q == tf + 2 * (f * q1)
        assert(q / 2 == q1 && (q % 2 == 1) == (top == 1));
        if q == 0 {
            assert(poly_mul(f, 0) == 0);
            assert(m1 == 0);
            assert(poly_add(0, 0) == 0);
        }
        assert(poly_mul(f, q) == poly_add(tf, 2 * m1));
        // a * b == ta + 2 * (a * half) == ta + 2 * (m1 + g1)
        let ta: nat = if b % 2 == 1 { a as nat } else { 0 };
        lemma_add_doubles(m1, g1 as nat);
        // 2 * m1 + (tf + shifted) == (tf + 2 * m1) + shifted
        lemma_poly_add_associative(2 * m1, tf, shifted as nat);
        lemma_poly_add_commutative(2 * m1, tf);
        let fq = poly_mul(f, q);
        assert(2 * poly_mul(a as nat, half as nat) == poly_add(fq, shifted as nat));
        // ta + (fq + shifted) == fq + (ta + shifted)
        lemma_poly_add_associative(ta, fq, shifted as nat);
        lemma_poly_add_commutative(ta, fq);
        lemma_poly_add_associative(fq, ta, shifted as nat);
        if b % 2 == 1 {
            lemma_add_is_xor(a, shifted);
        } else {
            lemma_add_zero(shifted as nat);
        }
        q
    }
}

/// Twice a field element is its product with `x`, plus the defining
/// polynomial if the element has the term of the highest degree.
proof fn lemma_double_is_shift(g: u128, n: u32)
    by (bit_vector)
    requires
        supported_width(n),
        in_field(g, n),
    ensures
        g < degree_mask(n) ==> 2 * g == times_x(g, n),
        g >= degree_mask(n) ==> 2 * g == times_x(g, n) ^ reduction_constant(n),
{
}

/// There is one remainder only: two polynomials of degree below `n` that
/// differ from `p` by multiples of a polynomial `f` of degree `n` are equal.
pub proof fn lemma_remainder_unique(p: nat, r1: nat, r2: nat, f: nat, n: nat)
    requires
        pow2(n) <= f < pow2(n + 1),
        is_remainder(p, r1, f, n),
        is_remainder(p, r2, f, n),
    ensures
        r1 == r2,
{
    let q1 = choose|q: nat| p == poly_add(poly_mul(f, q), r1);
    let q2 = choose|q: nat| p == poly_add(poly_mul(f, q), r2);
    let (m1, m2) = (poly_mul(f, q1), poly_mul(f, q2));
    // m1 + r1 == m2 + r2, so m1 + m2 == r1 + r2
    let d = poly_add(r1, r2);
    lemma_add_bound(r1, r2, n);
    lemma_poly_add_associative(m1, r1, r1);
    lemma_poly_add_self(r1);
    lemma_add_zero(m1);
    lemma_poly_add_associative(m2, r2, r1);
    lemma_poly_add_commutative(r2, r1);
    assert(m1 == poly_add(m2, d));
    lemma_poly_add_commutative(m2, d);
    lemma_poly_add_associative(d, m2, m2);
    lemma_poly_add_self(m2);
    lemma_add_zero(d);
    assert(poly_add(m1, m2) == d);
    // m1 + m2 is the multiple of f by q1 + q2
    lemma_poly_mul_linear(f, q1, q2);
    let q = poly_add(q1, q2);
    if q != 0 {
        lemma_multiple_is_high(f, q, n);
    } else {
        assert(poly_mul(f, 0) == 0);
        lemma_poly_add_cancels(q1, q2);
        lemma_poly_add_self(m1);
        lemma_poly_add_cancels(r1, r2);
    }
}

/// The defining polynomial of the field of width `n` has degree `n`.
pub proof fn lemma_modulus_degree(n: u32)
    requires
        supported_width(n),
    ensures
        pow2(n as nat) <= reduction_constant(n) < pow2((n + 1) as nat),
{
    lemma_field_order(n);
    lemma_pow2_unfold((n + 1) as nat);
}

/// The product of the field is the product of polynomials reduced by the
/// defining polynomial: whatever is a remainder of the product of `a` and `b`
/// as polynomials by the defining polynomial, is `gf_mul(a, b)`.
pub proof fn lemma_product_is_the_remainder(a: u128, b: u128, n: u32, r: nat)
    requires
        supported_width(n),
        in_field(a, n),
        is_remainder(
            poly_mul(a as nat, b as nat),
            r,
            reduction_constant(n) as nat,
            n as nat,
        ),
    ensures
        r == gf_mul(a, b, n),
{
    let q = lemma_product_is_remainder(a, b, n);
    lemma_modulus_degree(n);
    lemma_remainder_unique(
        poly_mul(a as nat, b as nat),
        r,
        gf_mul(a, b, n) as nat,
        reduction_constant(n) as nat,
        n as nat,
    );
}

} // verus!
