//! Integer arithmetic behind the cipher construction: greatest common
//! divisors, the test for a permutation exponent, the search for the
//! decryption exponent and the number of rounds.

use vstd::arithmetic::div_mod::{
    lemma_fundamental_div_mod, lemma_fundamental_div_mod_converse, lemma_mod_multiples_vanish,
    lemma_small_mod,
};
use vstd::arithmetic::power::{lemma_pow0, lemma_pow1, lemma_pow_adds, lemma_pow_increases, pow};
use vstd::arithmetic::power2::{
    lemma2_to64, lemma_pow2_adds, lemma_pow2_pos, lemma_pow2_strictly_increases,
    lemma_pow2_unfold, pow2,
};
use vstd::prelude::*;

verus! {

/// `d` divides `a`. Zero divides only zero.
pub open spec fn divides(d: nat, a: nat) -> bool {
    if d == 0 {
        a == 0
    } else {
        a % d == 0
    }
}

/// The greatest common divisor of `a` and `b`, by Euclid's recursion.
pub open spec fn gcd_nat(a: nat, b: nat) -> nat
    decreases b,
{
    if b == 0 {
        a
    } else {
        gcd_nat(b, a % b)
    }
}

/// The largest value of an element of the field of width `n`: `2^n - 1`,
/// which is also the order of the field's multiplicative group.
pub open spec fn group_order(n: nat) -> nat {
    (pow2(n) - 1) as nat
}

/// Raising to the power `e` permutes the field of width `n`: `e` and the
/// order `2^n - 1` of the multiplicative group have no common divisor.
pub open spec fn permutation_exponent(e: nat, n: nat) -> bool {
    gcd_nat(e, group_order(n)) == 1
}

/// `t` lies in `[1, e)` and `1 + t * (2^n - 1)` is a multiple of `e`.
pub open spec fn is_multiplier(t: nat, e: nat, n: nat) -> bool {
    1 <= t < e && (1 + t * group_order(n)) % e == 0
}

/// `t` is the smallest multiplier for `e` and `n`.
pub open spec fn is_least_multiplier(t: nat, e: nat, n: nat) -> bool {
    is_multiplier(t, e, n) && forall|s: nat| s < t ==> !is_multiplier(s, e, n)
}

/// The exponent that undoes raising to the power `e`, given the multiplier
/// `t`: `(1 + t * (2^n - 1)) / e`.
pub open spec fn decryption_exponent(t: nat, e: nat, n: nat) -> nat {
    (1 + t * group_order(n)) / e
}

/// `r` is the least number of rounds with `e^r >= 2^n`: the ratio of the width
/// to the binary logarithm of `e`, rounded up.
pub open spec fn is_round_count(r: nat, e: nat, n: nat) -> bool {
    pow(e as int, r) >= pow2(n) && (r > 0 ==> pow(e as int, (r - 1) as nat) < pow2(n))
}

/// The number of rounds derived from the exponent and the width.
pub open spec fn derived_rounds(e: nat, n: nat) -> nat {
    choose|r: nat| is_round_count(r, e, n)
}

/// A combination of multiples of `d` is a multiple of `d`.
pub proof fn lemma_mod_linear(x: int, y: int, k: int, d: int)
    requires
        d > 0,
        x % d == 0,
        y % d == 0,
    ensures
        (x + k * y) % d == 0,
{
    lemma_fundamental_div_mod(y, d);
    let c = k * (y / d);
    assert(x + k * y == d * c + x) by (nonlinear_arith)
        requires
            y == d * (y / d) + y % d,
            y % d == 0,
            c == k * (y / d),
    ;
    lemma_mod_multiples_vanish(c, x, d);
}

/// The greatest common divisor divides both numbers.
pub proof fn lemma_gcd_divides(a: nat, b: nat)
    ensures
        divides(gcd_nat(a, b), a),
        divides(gcd_nat(a, b), b),
    decreases b,
{
    let g = gcd_nat(a, b);
    if b != 0 {
        lemma_gcd_divides(b, a % b);
        lemma_fundamental_div_mod(a as int, b as int);
        let (ai, bi, q, r) = (a as int, b as int, (a / b) as int, (a % b) as int);
        assert(ai == r + q * bi) by (nonlinear_arith)
            requires
                ai == bi * q + r,
        ;
        lemma_mod_linear(r, bi, q, g as int);
    }
}

/// Every common divisor of two numbers divides their greatest common
/// divisor.
pub proof fn lemma_gcd_greatest(a: nat, b: nat, d: nat)
    requires
        divides(d, a),
        divides(d, b),
    ensures
        divides(d, gcd_nat(a, b)),
    decreases b,
{
    if b != 0 {
        lemma_fundamental_div_mod(a as int, b as int);
        let (ai, bi, q, r) = (a as int, b as int, (a / b) as int, (a % b) as int);
        assert(r == ai + (-q) * bi) by (nonlinear_arith)
            requires
                ai == bi * q + r,
        ;
        lemma_mod_linear(ai, bi, -q, d as int);
        lemma_gcd_greatest(b, a % b, d);
    }
}

/// Coefficients `(x, y)` with `x * a + y * b == gcd(a, b)`.
pub open spec fn bezout(a: nat, b: nat) -> (int, int)
    decreases b,
{
    if b == 0 {
        (1, 0)
    } else {
        let (x, y) = bezout(b, a % b);
        (y, x - y * (a / b) as int)
    }
}

/// The greatest common divisor is a combination of the two numbers.
pub proof fn lemma_bezout(a: nat, b: nat)
    ensures
        bezout(a, b).0 * a + bezout(a, b).1 * b == gcd_nat(a, b),
    decreases b,
{
    if b != 0 {
        let (x, y) = bezout(b, a % b);
        lemma_bezout(b, a % b);
        lemma_fundamental_div_mod(a as int, b as int);
        let (ai, bi, q, r) = (a as int, b as int, (a / b) as int, (a % b) as int);
        assert(y * ai + (x - y * q) * bi == x * bi + y * r) by (nonlinear_arith)
            requires
                ai == bi * q + r,
        ;
    }
}

/// For an exponent of at least 2 without a common divisor with `m`, some `t`
/// in `[1, e)` makes `1 + t * m` a multiple of `e`.
pub proof fn lemma_multiplier_exists(e: nat, m: nat) -> (t: nat)
    requires
        e >= 2,
        gcd_nat(e, m) == 1,
    ensures
        1 <= t < e,
        (1 + t * m) % e == 0,
{
    let (x, y) = bezout(e, m);
    lemma_bezout(e, m);
    let ei = e as int;
    let t = (-y) % ei;
    let k = (-y) / ei;
    lemma_fundamental_div_mod(-y, ei);
    let c = x - k * m;
    assert(1 + t * m == ei * c + 0) by (nonlinear_arith)
        requires
            x * e + y * m == 1,
            -y == ei * k + t,
            c == x - k * m,
            ei == e,
    ;
    lemma_mod_multiples_vanish(c, 0, ei);
    if t == 0 {
        lemma_small_mod(1, e);
        assert(false);
    }
    t as nat
}

/// An exponent for which some `t` makes `1 + t * m` a multiple of it has no
/// common divisor with `m`.
pub proof fn lemma_multiplier_coprime(e: nat, m: nat, t: nat)
    requires
        e >= 1,
        (1 + t * m) % e == 0,
    ensures
        gcd_nat(e, m) == 1,
{
    let g = gcd_nat(e, m);
    lemma_gcd_divides(e, m);
    let s = (1 + t * m) as int;
    lemma_fundamental_div_mod(s, e as int);
    lemma_mod_linear(0, e as int, s / (e as int), g as int);
    assert(0 + (s / (e as int)) * e == s) by (nonlinear_arith)
        requires
            s == e * (s / (e as int)) + s % (e as int),
            s % (e as int) == 0,
    ;
    lemma_mod_linear(s, m as int, -(t as int), g as int);
    assert(s + (-(t as int)) * m == 1) by (nonlinear_arith)
        requires
            s == 1 + t * m,
    ;
    if g >= 2 {
        lemma_small_mod(1, g);
    }
}

/// At most one number of rounds fits an exponent and a width.
pub proof fn lemma_round_count_unique(r1: nat, r2: nat, e: nat, n: nat)
    requires
        e >= 1,
        is_round_count(r1, e, n),
        is_round_count(r2, e, n),
    ensures
        r1 == r2,
{
    if r1 < r2 {
        lemma_pow_increases(e, r1, (r2 - 1) as nat);
    } else if r2 < r1 {
        lemma_pow_increases(e, r2, (r1 - 1) as nat);
    }
}

/// `2^128` is one more than the largest `u128`.
pub proof fn lemma_pow2_128()
    ensures
        pow2(128) == u128::MAX + 1,
{
    lemma2_to64();
    lemma_pow2_adds(64, 64);
}

/// Computes the greatest common divisor of `a` and `b` by Euclid's
/// algorithm.
pub fn gcd(a: u128, b: u128) -> (g: u128)
    ensures
        g == gcd_nat(a as nat, b as nat),
        divides(g as nat, a as nat),
        divides(g as nat, b as nat),
        forall|d: nat|
            divides(d, a as nat) && divides(d, b as nat) ==> #[trigger] divides(d, g as nat),
{
    let mut x: u128 = a;
    let mut y: u128 = b;
    while y != 0
        invariant
            gcd_nat(x as nat, y as nat) == gcd_nat(a as nat, b as nat),
        decreases y,
    {
        let r: u128 = x % y;
        x = y;
        y = r;
    }
    proof {
        lemma_gcd_divides(a as nat, b as nat);
        assert forall|d: nat| divides(d, a as nat) && divides(d, b as nat) implies #[trigger] divides(
            d,
            x as nat,
        ) by {
            lemma_gcd_greatest(a as nat, b as nat, d);
        }
    }
    x
}

/// Computes `2^block_size - 1`, the largest value of a field element.
pub fn largest_element(block_size: u32) -> (m: u128)
    requires
        block_size <= 128,
    ensures
        m == group_order(block_size as nat),
{
    let mut m: u128 = 0;
    let mut i: u32 = 0;
    proof {
        lemma2_to64();
        lemma_pow2_128();
    }
    while i < block_size
        invariant
            i <= block_size <= 128,
            m == pow2(i as nat) - 1,
            pow2(128) == u128::MAX + 1,
        decreases block_size - i,
    {
        proof {
            lemma_pow2_unfold((i + 1) as nat);
            if i + 1 < 128 {
                lemma_pow2_strictly_increases((i + 1) as nat, 128);
            }
        }
        m = 2 * m + 1;
        i += 1;
    }
    proof {
        lemma_pow2_pos(block_size as nat);
    }
    m
}

/// Two numbers that divide each other are equal.
pub proof fn lemma_divides_antisymmetric(a: nat, b: nat)
    requires
        divides(a, b),
        divides(b, a),
    ensures
        a == b,
{
    if a != 0 && b != 0 {
        if a < b {
            lemma_small_mod(a, b);
        } else if b < a {
            lemma_small_mod(b, a);
        }
    }
}

/// The greatest common divisor does not depend on the order of the two
/// numbers.
pub proof fn lemma_gcd_commutative(a: nat, b: nat)
    ensures
        gcd_nat(a, b) == gcd_nat(b, a),
{
    let (g, h) = (gcd_nat(a, b), gcd_nat(b, a));
    lemma_gcd_divides(a, b);
    lemma_gcd_divides(b, a);
    lemma_gcd_greatest(b, a, g);
    lemma_gcd_greatest(a, b, h);
    lemma_divides_antisymmetric(g, h);
}

/// The greatest common divisor of `e` and `m` is that of `e` and the
/// remainder of `m` by `e`.
pub proof fn lemma_gcd_of_remainder(e: nat, m: nat)
    requires
        e > 0,
    ensures
        gcd_nat(e, m) == gcd_nat(e, m % e),
{
    lemma_gcd_commutative(e, m);
}

/// `2^n` equals 2 only for `n == 1`.
proof fn lemma_group_order_one(n: nat)
    ensures
        (group_order(n) == 1) == (n == 1),
        n == 0 ==> group_order(n) == 0,
{
    lemma2_to64();
    if n >= 2 {
        lemma_pow2_strictly_increases(1, n);
    }
}

/// Computes the remainder of `2^block_size - 1` by `modulus`, for a width of
/// any size: the remainder is carried along from one power of 2 to the next.
pub fn group_order_modulo(block_size: u32, modulus: u128) -> (remainder: u128)
    requires
        modulus >= 1,
    ensures
        remainder == group_order(block_size as nat) % (modulus as nat),
{
    let mut r: u128 = 0;
    let mut i: u32 = 0;
    proof {
        lemma2_to64();
        lemma_small_mod(0, modulus as nat);
    }
    while i < block_size
        invariant
            modulus >= 1,
            i <= block_size,
            r < modulus,
            r == group_order(i as nat) % (modulus as nat),
        decreases block_size - i,
    {
        let ghost m = modulus as int;
        let ghost x = group_order(i as nat) as int;
        let ghost old_r = r as int;
        let doubled: u128 = if r >= modulus - r {
            r - (modulus - r)
        } else {
            r + r
        };
        let next: u128 = if doubled == modulus - 1 {
            0
        } else {
            doubled + 1
        };
        proof {
            lemma_pow2_unfold((i + 1) as nat);
            lemma_pow2_pos(i as nat);
            assert(group_order((i + 1) as nat) == 2 * x + 1);
            lemma_fundamental_div_mod(x, m);
            let q = x / m;
            let carry: int = if next == 2 * old_r + 1 {
                0
            } else {
                1
            };
            assert(2 * old_r + 1 == m * carry + next) by {
                if carry == 0 {
                    assert(m * 0 == 0);
                } else {
                    assert(m * 1 == m);
                }
            }
            let quotient = 2 * q + carry;
            assert(2 * x + 1 == quotient * m + next) by (nonlinear_arith)
                requires
                    x == m * q + old_r,
                    2 * old_r + 1 == m * carry + next,
                    quotient == 2 * q + carry,
            ;
            lemma_fundamental_div_mod_converse(2 * x + 1, m, quotient, next as int);
        }
        r = next;
        i += 1;
    }
    r
}

/// Tells whether raising to the power `exponent` permutes the field of width
/// `block_size`, whatever the width.
pub fn is_permutation_exponent(exponent: u128, block_size: u32) -> (valid: bool)
    ensures
        valid == permutation_exponent(exponent as nat, block_size as nat),
{
    proof {
        lemma_group_order_one(block_size as nat);
    }
    if exponent == 0 {
        // the greatest common divisor of 0 and 2^n - 1 is 2^n - 1
        proof {
            let m = group_order(block_size as nat);
            if m != 0 {
                assert(0nat % m == 0);
                assert(gcd_nat(m, 0) == m);
                assert(gcd_nat(0, m) == gcd_nat(m, 0nat % m));
            }
        }
        block_size == 1
    } else {
        let remainder: u128 = group_order_modulo(block_size, exponent);
        proof {
            lemma_gcd_of_remainder(exponent as nat, group_order(block_size as nat));
        }
        gcd(exponent, remainder) == 1
    }
}

/// Searches `[1, exponent)` for the smallest `t` with `1 + t * (2^n - 1)` a
/// multiple of the exponent, and returns it with the quotient, the decryption
/// exponent. Quotient and remainder are carried along from one `t` to the
/// next, so no intermediate value exceeds `2^n - 1`.
pub fn find_multiplier(exponent: u128, block_size: u32) -> (found: Option<(u128, u128)>)
    requires
        block_size <= 128,
    ensures
        match found {
            Some((t, d)) => is_least_multiplier(t as nat, exponent as nat, block_size as nat) && d
                == decryption_exponent(t as nat, exponent as nat, block_size as nat),
            None => forall|t: nat| !is_multiplier(t, exponent as nat, block_size as nat),
        },
{
    if exponent < 2 {
        return None;
    }
    let order: u128 = largest_element(block_size);
    let q: u128 = order / exponent;
    let m: u128 = order % exponent;
    let mut t: u128 = 0;
    let mut quot: u128 = 0;
    let mut rem: u128 = 1;
    let ghost e = exponent as int;
    let ghost n = block_size as nat;
    proof {
        lemma_fundamental_div_mod(order as int, e);
        assert(0 * order == 0);
        assert(0 * e == 0);
    }
    while t < exponent - 1
        invariant
            exponent >= 2,
            e == exponent,
            n == block_size,
            order == group_order(n),
            order == e * q + m,
            m < exponent,
            t <= exponent - 1,
            rem < exponent,
            1 + t * order == quot * e + rem,
            forall|s: nat| s <= t ==> !is_multiplier(s, exponent as nat, n),
        decreases exponent - t,
    {
        let ghost old_t = t as int;
        let ghost old_quot = quot as int;
        let ghost old_rem = rem as int;
        let carry: u128 = if rem >= exponent - m {
            1
        } else {
            0
        };
        proof {
            let total = 1 + (old_t + 1) * order;
            let new_quot = old_quot + q + carry;
            let new_rem = old_rem + m - carry * e;
            assert(total == new_quot * e + new_rem) by (nonlinear_arith)
                requires
                    total == 1 + (old_t + 1) * order,
                    1 + old_t * order == old_quot * e + old_rem,
                    order == e * q + m,
                    new_quot == old_quot + q + carry,
                    new_rem == old_rem + m - carry * e,
            ;
            assert(new_quot <= order) by (nonlinear_arith)
                requires
                    total == new_quot * e + new_rem,
                    total == 1 + (old_t + 1) * order,
                    old_t + 1 <= e - 1,
                    new_rem >= 0,
                    new_quot >= 0,
                    order >= 0,
                    e >= 2,
            ;
            lemma_fundamental_div_mod_converse(total, e, new_quot, new_rem);
        }
        t = t + 1;
        if carry == 1 {
            rem = rem - (exponent - m);
            quot = quot + q + 1;
        } else {
            rem = rem + m;
            quot = quot + q;
        }
        if rem == 0 {
            proof {
                assert(is_multiplier(t as nat, exponent as nat, n));
            }
            return Some((t, quot));
        }
        proof {
            assert forall|s: nat| s <= t implies !is_multiplier(s, exponent as nat, n) by {
                if s == t {
                    assert(t as nat * group_order(n) == (old_t + 1) * order);
                }
            }
        }
    }
    None
}

/// Finds the smallest `t` in `[1, exponent)` for which `1 + t * (2^n - 1)` is
/// a multiple of the exponent, if there is one.
pub fn find_t(exponent: u128, block_size: u32) -> (found: Option<u128>)
    requires
        block_size <= 128,
    ensures
        match found {
            Some(t) => is_least_multiplier(t as nat, exponent as nat, block_size as nat),
            None => forall|t: nat| !is_multiplier(t, exponent as nat, block_size as nat),
        },
{
    match find_multiplier(exponent, block_size) {
        Some((t, _)) => Some(t),
        None => None,
    }
}

/// Finds the exponent `d` that undoes raising to the power `exponent` in the
/// field of width `block_size`: `(1 + t * (2^n - 1)) / exponent` for the
/// smallest `t` in `[1, exponent)` that makes the division exact. There is none
/// if no such `t` exists.
pub fn find_decryption_exponent(exponent: u128, block_size: u32) -> (found: Option<u128>)
    requires
        block_size <= 128,
    ensures
        match found {
            Some(d) => exists|t: nat|
                is_least_multiplier(t, exponent as nat, block_size as nat) && d
                    == decryption_exponent(t, exponent as nat, block_size as nat),
            None => forall|t: nat| !is_multiplier(t, exponent as nat, block_size as nat),
        },
{
    match find_multiplier(exponent, block_size) {
        Some((t, d)) => {
            proof {
                assert(is_least_multiplier(t as nat, exponent as nat, block_size as nat) && d
                    == decryption_exponent(t as nat, exponent as nat, block_size as nat));
            }
            Some(d)
        },
        None => None,
    }
}

/// A power of a base of at least 2 is at least the same power of 2.
pub proof fn lemma_pow_at_least_pow2(e: nat, r: nat)
    requires
        e >= 2,
    ensures
        pow(e as int, r) >= pow2(r),
    decreases r,
{
    lemma2_to64();
    if r == 0 {
        lemma_pow0(e as int);
    } else {
        let r1 = (r - 1) as nat;
        lemma_pow_at_least_pow2(e, r1);
        lemma_pow2_unfold(r);
        lemma_pow_adds(e as int, 1, r1);
        lemma_pow1(e as int);
        let (p, w) = (pow(e as int, r1), pow2(r1) as int);
        assert(e * p >= 2 * w) by (nonlinear_arith)
            requires
                e >= 2,
                p >= w,
                w >= 0,
        ;
    }
}

/// Below any `r` with `e^r >= 2^n` lies the number of rounds.
proof fn lemma_round_count_below(e: nat, n: nat, r: nat)
    requires
        pow(e as int, r) >= pow2(n),
    ensures
        exists|c: nat| is_round_count(c, e, n),
    decreases r,
{
    if r == 0 || pow(e as int, (r - 1) as nat) < pow2(n) {
        assert(is_round_count(r, e, n));
    } else {
        lemma_round_count_below(e, n, (r - 1) as nat);
    }
}

/// For an exponent of at least 2 the derived number of rounds is the least
/// `r` with `e^r >= 2^n`; it is at most the width, and at least 1 unless the
/// width is 0.
pub proof fn lemma_derived_rounds(e: nat, n: nat)
    requires
        e >= 2,
    ensures
        is_round_count(derived_rounds(e, n), e, n),
        derived_rounds(e, n) <= n,
        n >= 1 ==> derived_rounds(e, n) >= 1,
{
    let r = derived_rounds(e, n);
    lemma_pow_at_least_pow2(e, n);
    lemma_round_count_below(e, n, n);
    if r > n {
        lemma_pow_increases(e, n, (r - 1) as nat);
    }
    if n >= 1 {
        lemma_pow0(e as int);
        lemma_pow2_unfold(n);
        lemma_pow2_pos((n - 1) as nat);
    }
}

/// Derives the number of rounds from the exponent and the width: the least
/// `r` with `exponent^r >= 2^block_size`, which is the width divided by the
/// binary logarithm of the exponent, rounded up.
pub fn derive_rounds(exponent: u128, block_size: u32) -> (rounds: usize)
    requires
        exponent >= 2,
        block_size <= 127,
    ensures
        is_round_count(rounds as nat, exponent as nat, block_size as nat),
        rounds == derived_rounds(exponent as nat, block_size as nat),
        rounds <= block_size,
        block_size >= 1 ==> rounds >= 1,
{
    let largest: u128 = largest_element(block_size);
    proof {
        lemma_pow2_128();
        lemma_pow2_strictly_increases(block_size as nat, 128);
        lemma_pow2_pos(block_size as nat);
    }
    let target: u128 = largest + 1;
    let mut power: u128 = 1;
    let mut rounds: usize = 0;
    let ghost e = exponent as int;
    let ghost n = block_size as nat;
    proof {
        lemma_pow0(e);
        lemma_pow2_pos(n);
    }
    while power < target
        invariant
            e == exponent,
            e >= 2,
            n == block_size,
            n <= 127,
            target == pow2(n),
            rounds <= n,
            power < target ==> power == pow(e, rounds as nat),
            power >= target ==> pow(e, rounds as nat) >= target,
            rounds > 0 ==> pow(e, (rounds - 1) as nat) < target,
        decreases n - rounds, target - power,
    {
        let bound: u128 = (target - 1) / exponent;
        proof {
            lemma_pow_at_least_pow2(exponent as nat, rounds as nat);
            if rounds >= n {
                if rounds > n {
                    lemma_pow2_strictly_increases(n, rounds as nat);
                }
                assert(false);
            }
            lemma_pow_adds(e, 1, rounds as nat);
            lemma_pow1(e);
            lemma_fundamental_div_mod(target - 1, e);
            let (p, b, c) = (power as int, bound as int, (target - 1) % e);
            if power > bound {
                assert(e * p >= target) by (nonlinear_arith)
                    requires
                        p >= b + 1,
                        target - 1 == e * b + c,
                        c < e,
                        e >= 2,
                ;
            } else {
                assert(e * p < target) by (nonlinear_arith)
                    requires
                        0 <= p <= b,
                        target - 1 == e * b + c,
                        c >= 0,
                        e >= 2,
                ;
            }
        }
        if power > bound {
            power = target;
        } else {
            power = power * exponent;
        }
        rounds = rounds + 1;
    }
    proof {
        let r = rounds as nat;
        let c = derived_rounds(exponent as nat, n);
        assert(is_round_count(r, exponent as nat, n));
        if n >= 1 {
            lemma_pow0(e);
            lemma_pow2_unfold(n);
            lemma_pow2_pos((n - 1) as nat);
        }
        lemma_round_count_unique(r, c, exponent as nat, n);
    }
    rounds
}

} // verus!
