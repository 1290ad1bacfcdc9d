//! Randomly drawn field elements and round constants. The randomness is
//! ordinary, not cryptographic: the ciphers built on it are for statistical
//! experiments.

use crate::codec::{is_element, zero_bits};
use rand::Rng;
use vstd::prelude::*;

verus! {

/// The bit sequences held by a vector of field elements.
pub open spec fn constants_of(v: Seq<Vec<u8>>) -> Seq<Seq<u8>> {
    Seq::new(v.len(), |i: int| v[i]@)
}

/// One bit from the generator that the `rand` crate keeps for each thread:
/// `Rng::gen_range` on the inclusive range from 0 to 1. The contract claims
/// only that the value lies in that range, as `gen_range` documents for a range
/// that is not empty; which of the two values comes is left open. It is not
/// proved.
#[verifier::external_body]
fn random_bit() -> (bit: u8)
    ensures
        bit <= 1,
{
    rand::thread_rng().gen_range(0..=1)
}

/// Draws a random field element of width `block_size`.
pub fn generate_random_bits(block_size: u32) -> (bits: Vec<u8>)
    ensures
        is_element(bits@, block_size as nat),
{
    let mut result: Vec<u8> = Vec::with_capacity(block_size as usize);
    let mut i: u32 = 0;
    while i < block_size
        invariant
            i <= block_size,
            is_element(result@, i as nat),
        decreases block_size - i,
    {
        result.push(random_bit());
        i += 1;
    }
    result
}

/// The all-zero field element of width `block_size`.
pub fn zero_element(block_size: u32) -> (bits: Vec<u8>)
    ensures
        bits@ == zero_bits(block_size as nat),
        is_element(bits@, block_size as nat),
{
    let bits: Vec<u8> = vec![0u8; block_size as usize];
    proof {
        assert(bits@ =~= zero_bits(block_size as nat));
    }
    bits
}

/// Generates round constants for a cipher of `size` rounds over the field of
/// width `block_size`: the first constant is zero, the others are random. A
/// `size` of zero still yields the zero constant.
pub fn generate_round_constants(size: usize, block_size: u32) -> (constants: Vec<Vec<u8>>)
    ensures
        size == 0 ==> constants@.len() == 1,
        size != 0 ==> constants@.len() == size,
        constants@[0]@ == zero_bits(block_size as nat),
        forall|i: int|
            0 <= i < constants@.len() ==> is_element(
                #[trigger] constants@[i]@,
                block_size as nat,
            ),
{
    let mut result: Vec<Vec<u8>> = Vec::with_capacity(size);
    result.push(zero_element(block_size));
    let mut i: usize = 1;
    while i < size
        invariant
            1 <= i,
            i <= size || i == 1,
            result@.len() == i,
            result@[0]@ == zero_bits(block_size as nat),
            forall|j: int|
                0 <= j < result@.len() ==> is_element(#[trigger] result@[j]@, block_size as nat),
        decreases size - i,
    {
        result.push(generate_random_bits(block_size));
        i += 1;
    }
    result
}

} // verus!
