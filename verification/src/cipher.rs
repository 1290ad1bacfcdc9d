//! The interface shared by every cipher, and the mathematical model of the
//! MiMC family: rounds of key addition and a power map, with the proof that
//! decryption undoes encryption.

use crate::codec::{is_element, zero_bits};
use crate::element_laws::{
    lemma_add_cancels, lemma_add_closed, lemma_add_identity, lemma_power_inverse,
};
use crate::error::CipherError;
use crate::field::{field_power, supported_width, xor_bits};
use crate::number::group_order;
use vstd::prelude::*;

verus! {

/// A block cipher on field elements of one fixed width.
pub trait Cipher {
    /// The cipher's internal invariant.
    spec fn wf(&self) -> bool;

    /// The width in bits of plaintexts, keys and ciphertexts.
    spec fn width(&self) -> nat;

    /// The arithmetic that the cipher needs exists for its width.
    spec fn supported(&self) -> bool;

    /// The ciphertext of a plaintext under a key.
    spec fn encrypted(&self, plaintext: Seq<u8>, key: Seq<u8>) -> Seq<u8>;

    /// The plaintext of a ciphertext under a key.
    spec fn decrypted(&self, ciphertext: Seq<u8>, key: Seq<u8>) -> Seq<u8>;

    /// Tells whether the arithmetic that the cipher needs exists for its
    /// width, so that it can encrypt and decrypt.
    fn is_supported(&self) -> (ok: bool)
        requires
            self.wf(),
        ensures
            ok == self.supported(),
    ;

    /// Encrypts one block. Fails with `UnsupportedWidth` if the arithmetic
    /// that the cipher needs does not exist for its width.
    fn encrypt(&self, plaintext: &Vec<u8>, key: &Vec<u8>) -> (ciphertext: Result<
        Vec<u8>,
        CipherError,
    >)
        requires
            self.wf(),
            is_element(plaintext@, self.width()),
            is_element(key@, self.width()),
        ensures
            match ciphertext {
                Ok(c) => self.supported() && c@ == self.encrypted(plaintext@, key@) && is_element(
                    c@,
                    self.width(),
                ),
                Err(e) => !self.supported() && e == CipherError::UnsupportedWidth,
            },
    ;

    /// Decrypts one block. Fails with `UnsupportedWidth` if the arithmetic
    /// that the cipher needs does not exist for its width.
    fn decrypt(&self, ciphertext: &Vec<u8>, key: &Vec<u8>) -> (plaintext: Result<
        Vec<u8>,
        CipherError,
    >)
        requires
            self.wf(),
            is_element(ciphertext@, self.width()),
            is_element(key@, self.width()),
        ensures
            match plaintext {
                Ok(p) => self.supported() && p@ == self.decrypted(ciphertext@, key@) && is_element(
                    p@,
                    self.width(),
                ),
                Err(e) => !self.supported() && e == CipherError::UnsupportedWidth,
            },
    ;
}

/// The round constants fit the field of width `n`: there is at least one, the
/// first is zero, and each is an element of the field.
pub open spec fn valid_constants(constants: Seq<Seq<u8>>, n: nat) -> bool {
    &&& constants.len() >= 1
    &&& constants[0] == zero_bits(n)
    &&& forall|i: int| 0 <= i < constants.len() ==> is_element(#[trigger] constants[i], n)
}

/// One round: the key and the round constant are added to the state, and the
/// sum is raised to the power `e`.
pub open spec fn round(state: Seq<u8>, key: Seq<u8>, constant: Seq<u8>, e: nat, n: u32) -> Seq<
    u8,
> {
    field_power(xor_bits(state, xor_bits(key, constant)), e, n)
}

/// The state after one round for each of `constants`, in order.
pub open spec fn rounds_applied(
    state: Seq<u8>,
    key: Seq<u8>,
    constants: Seq<Seq<u8>>,
    e: nat,
    n: u32,
) -> Seq<u8>
    decreases constants.len(),
{
    if constants.len() == 0 {
        state
    } else {
        round(rounds_applied(state, key, constants.drop_last(), e, n), key, constants.last(), e, n)
    }
}

/// The index of the round constant that step `step` of a decryption of
/// `rounds` rounds takes: the first constant, then the others from the last
/// down to the second.
pub open spec fn decryption_position(rounds: int, step: int) -> int {
    if step == 0 {
        0
    } else {
        rounds - step
    }
}

/// The order in which decryption takes the round constants.
pub open spec fn decryption_order(constants: Seq<Seq<u8>>) -> Seq<Seq<u8>> {
    Seq::new(
        constants.len(),
        |j: int| constants[decryption_position(constants.len() as int, j)],
    )
}

/// Tells which round constant the step `step` of a decryption of `rounds`
/// rounds takes.
pub fn decryption_index(rounds: usize, step: usize) -> (index: usize)
    requires
        step < rounds,
    ensures
        index == decryption_position(rounds as int, step as int),
        index < rounds,
{
    if step == 0 {
        0
    } else {
        rounds - step
    }
}

/// Encryption: one round per constant with the exponent `e`, then the key is
/// added once more.
pub open spec fn mimc_encrypted(
    plaintext: Seq<u8>,
    key: Seq<u8>,
    constants: Seq<Seq<u8>>,
    e: nat,
    n: u32,
) -> Seq<u8> {
    xor_bits(rounds_applied(plaintext, key, constants, e, n), key)
}

/// Decryption: one round per constant, in decryption order, with the
/// exponent `d`, then the key is added once more.
pub open spec fn mimc_decrypted(
    ciphertext: Seq<u8>,
    key: Seq<u8>,
    constants: Seq<Seq<u8>>,
    d: nat,
    n: u32,
) -> Seq<u8> {
    xor_bits(rounds_applied(ciphertext, key, decryption_order(constants), d, n), key)
}

/// The state after the first `j` of the rounds.
pub open spec fn state_after(
    plaintext: Seq<u8>,
    key: Seq<u8>,
    constants: Seq<Seq<u8>>,
    j: int,
    e: nat,
    n: u32,
) -> Seq<u8> {
    rounds_applied(plaintext, key, constants.take(j), e, n)
}

/// The state after `j` rounds comes from the state after `j - 1` rounds by
/// the round with constant `j - 1`.
pub proof fn lemma_state_step(
    state: Seq<u8>,
    key: Seq<u8>,
    constants: Seq<Seq<u8>>,
    j: int,
    e: nat,
    n: u32,
)
    requires
        1 <= j <= constants.len(),
    ensures
        state_after(state, key, constants, j, e, n) == round(
            state_after(state, key, constants, j - 1, e, n),
            key,
            constants[j - 1],
            e,
            n,
        ),
{
    assert(constants.take(j).drop_last() =~= constants.take(j - 1));
}

/// Every state of a run that starts from a field element is a field element.
pub proof fn lemma_state_element(
    state: Seq<u8>,
    key: Seq<u8>,
    constants: Seq<Seq<u8>>,
    e: nat,
    n: u32,
)
    requires
        is_element(state, n as nat),
    ensures
        is_element(rounds_applied(state, key, constants, e, n), n as nat),
{
}

/// After `j` rounds of decryption the state is the sum of the encryption
/// state `j` rounds from the end, the key and that round's constant.
proof fn lemma_unwind(
    plaintext: Seq<u8>,
    key: Seq<u8>,
    constants: Seq<Seq<u8>>,
    e: nat,
    d: nat,
    t: nat,
    n: u32,
    j: int,
)
    requires
        supported_width(n),
        valid_constants(constants, n as nat),
        is_element(plaintext, n as nat),
        is_element(key, n as nat),
        e * d == 1 + t * group_order(n as nat),
        1 <= j <= constants.len(),
    ensures
        state_after(
            mimc_encrypted(plaintext, key, constants, e, n),
            key,
            decryption_order(constants),
            j,
            d,
            n,
        ) == xor_bits(
            state_after(plaintext, key, constants, constants.len() - j, e, n),
            xor_bits(key, constants[constants.len() - j]),
        ),
    decreases j,
{
    let w = n as nat;
    let r = constants.len() as int;
    let order = decryption_order(constants);
    let c = mimc_encrypted(plaintext, key, constants, e, n);
    // the encryption state that this step arrives at, and how it was made
    let before = state_after(plaintext, key, constants, r - j, e, n);
    let after = state_after(plaintext, key, constants, r - j + 1, e, n);
    let mask = xor_bits(key, constants[r - j]);
    let fed = xor_bits(before, mask);
    lemma_state_step(plaintext, key, constants, r - j + 1, e, n);
    lemma_state_element(plaintext, key, constants.take(r - j), e, n);
    lemma_add_closed(key, constants[r - j], w);
    lemma_add_closed(before, mask, w);
    assert(after == field_power(fed, e, n));
    lemma_power_inverse(fed, e, d, t, n);
    // the decryption state before this step, and the constant it takes
    lemma_state_step(c, key, order, j, d, n);
    let prev = state_after(c, key, order, j - 1, d, n);
    if j == 1 {
        assert(order.take(0) =~= Seq::<Seq<u8>>::empty());
        assert(constants.take(r) =~= constants);
        assert(prev == c);
        lemma_add_identity(key);
        lemma_add_cancels(after, key);
    } else {
        lemma_unwind(plaintext, key, constants, e, d, t, n, j - 1);
        let mask1 = xor_bits(key, constants[r - j + 1]);
        assert(order[j - 1] == constants[r - j + 1]);
        lemma_add_closed(key, constants[r - j + 1], w);
        lemma_state_element(plaintext, key, constants.take(r - j + 1), e, n);
        lemma_add_cancels(after, mask1);
    }
}

/// Round trip: with round constants that fit the field and exponents `e` and
/// `d` whose product is 1 modulo `2^n - 1`, decrypting the ciphertext of a
/// plaintext under the same key gives the plaintext back.
pub proof fn lemma_mimc_round_trip(
    plaintext: Seq<u8>,
    key: Seq<u8>,
    constants: Seq<Seq<u8>>,
    e: nat,
    d: nat,
    t: nat,
    n: u32,
)
    requires
        supported_width(n),
        valid_constants(constants, n as nat),
        is_element(plaintext, n as nat),
        is_element(key, n as nat),
        e * d == 1 + t * group_order(n as nat),
    ensures
        mimc_decrypted(mimc_encrypted(plaintext, key, constants, e, n), key, constants, d, n)
            == plaintext,
{
    let r = constants.len() as int;
    let order = decryption_order(constants);
    lemma_unwind(plaintext, key, constants, e, d, t, n, r);
    assert(order.take(r) =~= order);
    assert(constants.take(0) =~= Seq::<Seq<u8>>::empty());
    lemma_add_identity(key);
    lemma_add_cancels(plaintext, key);
}

} // verus!
