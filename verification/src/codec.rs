//! Conversions between fixed-width, most-significant-bit-first bit sequences
//! and unsigned integers.

use vstd::arithmetic::div_mod::*;
use vstd::arithmetic::power2::*;
use vstd::prelude::*;

verus! {

/// Every entry of `s` is 0 or 1.
pub open spec fn is_bits(s: Seq<u8>) -> bool {
    forall|i: int| 0 <= i < s.len() ==> #[trigger] s[i] <= 1
}

/// `s` is an element of the field of width `n`: `n` bits, most significant first.
pub open spec fn is_element(s: Seq<u8>, n: nat) -> bool {
    s.len() == n && is_bits(s)
}

/// The all-zero sequence of `n` bits.
pub open spec fn zero_bits(n: nat) -> Seq<u8> {
    Seq::new(n, |i: int| 0u8)
}

/// The integer that `s` denotes when read most significant entry first:
/// the sum of `s[i] * 2^(len - 1 - i)`.
pub open spec fn bits_to_nat(s: Seq<u8>) -> nat
    decreases s.len(),
{
    if s.len() == 0 {
        0
    } else {
        2 * bits_to_nat(s.drop_last()) + s.last() as nat
    }
}

/// The `w` low-order bits of `v`, most significant first.
pub open spec fn nat_to_bits(v: nat, w: nat) -> Seq<u8> {
    Seq::new(w, |i: int| ((v / pow2((w - 1 - i) as nat)) % 2) as u8)
}

/// A prefix of a sequence never denotes more than the whole sequence.
pub proof fn lemma_prefix_value(s: Seq<u8>, k: int)
    requires
        0 <= k <= s.len(),
    ensures
        bits_to_nat(s.take(k)) <= bits_to_nat(s),
    decreases s.len() - k,
{
    if k < s.len() {
        lemma_prefix_value(s, k + 1);
        assert(s.take(k + 1).drop_last() =~= s.take(k));
    } else {
        assert(s.take(k) =~= s);
    }
}

/// A sequence of `n` bits denotes a number below `2^n`.
pub proof fn lemma_bits_value_bound(s: Seq<u8>)
    requires
        is_bits(s),
    ensures
        bits_to_nat(s) < pow2(s.len()),
    decreases s.len(),
{
    if s.len() == 0 {
        lemma2_to64();
    } else {
        lemma_bits_value_bound(s.drop_last());
        lemma_pow2_unfold(s.len());
    }
}

/// Removing the last bit of `nat_to_bits(v, w)` leaves the bits of `v / 2`.
pub proof fn lemma_nat_to_bits_unfold(v: nat, w: nat)
    requires
        w > 0,
    ensures
        nat_to_bits(v, w).drop_last() == nat_to_bits(v / 2, (w - 1) as nat),
        nat_to_bits(v, w).last() == (v % 2) as u8,
{
    lemma2_to64();
    assert forall|i: int| 0 <= i < w - 1 implies nat_to_bits(v, w)[i] == nat_to_bits(
        v / 2,
        (w - 1) as nat,
    )[i] by {
        let e = (w - 2 - i) as nat;
        lemma_pow2_unfold(e + 1);
        lemma_pow2_pos(e);
        lemma_div_denominator(v as int, 2, pow2(e) as int);
    }
    assert(nat_to_bits(v, w).drop_last() =~= nat_to_bits(v / 2, (w - 1) as nat));
    let last = nat_to_bits(v, w)[w - 1];
    assert(last == ((v / pow2((w - 1 - (w - 1)) as nat)) % 2) as u8);
    assert(pow2(0) == 1);
    assert(v / 1 == v);
}

/// Reading back the `w` bits written for `v` gives `v` modulo `2^w`: bits of
/// `v` above the width are discarded.
pub proof fn lemma_decimal_of_binary(v: nat, w: nat)
    ensures
        bits_to_nat(nat_to_bits(v, w)) == v % pow2(w),
    decreases w,
{
    lemma2_to64();
    if w > 0 {
        lemma_nat_to_bits_unfold(v, w);
        lemma_decimal_of_binary(v / 2, (w - 1) as nat);
        lemma_pow2_unfold(w);
        lemma_pow2_pos((w - 1) as nat);
        lemma_mod_breakdown(v as int, 2, pow2((w - 1) as nat) as int);
    }
}

/// Writing the number that a bit sequence denotes, at the sequence's own
/// length, gives the sequence back.
pub proof fn lemma_binary_of_decimal(b: Seq<u8>)
    requires
        is_bits(b),
    ensures
        nat_to_bits(bits_to_nat(b), b.len()) == b,
    decreases b.len(),
{
    if b.len() > 0 {
        let v = bits_to_nat(b);
        lemma_binary_of_decimal(b.drop_last());
        lemma_nat_to_bits_unfold(v, b.len());
        assert(b.last() <= 1);
        assert(v / 2 == bits_to_nat(b.drop_last()));
        assert(v % 2 == b.last() as nat);
        assert(nat_to_bits(v, b.len()) =~= nat_to_bits(v, b.len()).drop_last().push(
            nat_to_bits(v, b.len()).last(),
        ));
        assert(b =~= b.drop_last().push(b.last()));
    } else {
        assert(nat_to_bits(bits_to_nat(b), b.len()) =~= b);
    }
}

/// A number below `2^w` is the number that its `w` bits denote.
pub proof fn lemma_decimal_of_binary_small(v: nat, w: nat)
    requires
        v < pow2(w),
    ensures
        bits_to_nat(nat_to_bits(v, w)) == v,
{
    lemma_decimal_of_binary(v, w);
    lemma_small_mod(v, pow2(w));
}

proof fn lemma_low_bit(x: u128)
    by (bit_vector)
    ensures
        x & 1 == x % 2,
        x >> 1 == x / 2,
{
}

/// Reads a bit sequence, most significant bit first, as an unsigned integer.
/// The number has to fit the result, as it does for any sequence of at most
/// 128 bits.
pub fn to_decimal(bits: &[u8]) -> (value: u128)
    requires
        bits_to_nat(bits@) <= u128::MAX || (is_bits(bits@) && bits@.len() <= 128),
    ensures
        value == bits_to_nat(bits@),
{
    let mut result: u128 = 0;
    let mut i: usize = 0;
    proof {
        if is_bits(bits@) && bits@.len() <= 128 {
            lemma_bits_value_bound(bits@);
            lemma2_to64();
            lemma_pow2_adds(64, 64);
            if bits@.len() < 128 {
                lemma_pow2_strictly_increases(bits@.len(), 128);
            }
        }
    }
    while i < bits.len()
        invariant
            i <= bits.len(),
            result == bits_to_nat(bits@.take(i as int)),
            bits_to_nat(bits@) <= u128::MAX,
        decreases bits.len() - i,
    {
        proof {
            lemma_prefix_value(bits@, i + 1);
            assert(bits@.take(i + 1).drop_last() =~= bits@.take(i as int));
        }
        result = result * 2 + bits[i] as u128;
        i += 1;
    }
    proof {
        assert(bits@.take(i as int) =~= bits@);
    }
    result
}

/// Writes the `block_size` low-order bits of `number`, most significant bit
/// first. Bits of `number` above the width are discarded.
pub fn to_binary(number: u128, block_size: u32) -> (bits: Vec<u8>)
    ensures
        bits@ == nat_to_bits(number as nat, block_size as nat),
{
    let b: usize = block_size as usize;
    let mut result: Vec<u8> = vec![0u8; b];
    let mut state: u128 = number;
    let mut i: usize = 0;
    proof {
        lemma2_to64();
    }
    while i < b
        invariant
            i <= b,
            b == block_size,
            result@.len() == b,
            state == number as nat / pow2(i as nat),
            forall|j: int|
                0 <= j < i ==> #[trigger] result@[b - 1 - j] == ((number as nat / pow2(j as nat))
                    % 2) as u8,
        decreases b - i,
    {
        proof {
            lemma_low_bit(state);
            lemma_pow2_unfold((i + 1) as nat);
            lemma_pow2_pos(i as nat);
            lemma_div_denominator(number as int, pow2(i as nat) as int, 2);
        }
        result.set(b - i - 1, (state & 1) as u8);
        state = state >> 1;
        i += 1;
    }
    proof {
        assert forall|k: int| 0 <= k < b implies result@[k] == nat_to_bits(
            number as nat,
            block_size as nat,
        )[k] by {
            let j = b - 1 - k;
            assert(result@[b - 1 - j] == ((number as nat / pow2(j as nat)) % 2) as u8);
        }
        assert(result@ =~= nat_to_bits(number as nat, block_size as nat));
    }
    result
}

} // verus!
