//! MiMC proper: the member of the family with exponent 3, over a field of
//! odd width.

use crate::cipher::{mimc_decrypted, mimc_encrypted, valid_constants, Cipher};
use crate::codec::{bits_to_nat, is_element};
use crate::error::CipherError;
use crate::field::supported_width;
use crate::mimc_general::{valid_exponent, Configuration, MiMCGn};
use crate::number::{
    derived_rounds, group_order, lemma_derived_rounds, lemma_multiplier_coprime,
};
use crate::random::constants_of;
use vstd::arithmetic::power2::{
    lemma2_to64, lemma_pow2_adds, lemma_pow2_pos, lemma_pow2_unfold, pow2,
};
use vstd::prelude::*;

verus! {

/// An even power of 2 leaves the remainder 1 when divided by 3.
proof fn lemma_even_power_of_two(k: nat)
    ensures
        pow2(2 * k) % 3 == 1,
    decreases k,
{
    lemma2_to64();
    if k > 0 {
        lemma_even_power_of_two((k - 1) as nat);
        lemma_pow2_adds(2 * (k - 1) as nat, 2);
    }
}

/// Over a field of odd width, cubing permutes the field: 3 has no common
/// divisor with `2^n - 1`.
pub proof fn lemma_cubing_permutes(n: u32)
    requires
        n % 2 == 1,
    ensures
        valid_exponent(3, n),
{
    let m = group_order(n as nat);
    let k = ((n + 1) / 2) as nat;
    lemma_even_power_of_two(k);
    lemma_pow2_unfold((n + 1) as nat);
    lemma_pow2_pos(n as nat);
    assert(1 + 2 * m == pow2(2 * k) - 1);
    assert((1 + 2 * m) % 3 == 0);
    lemma_multiplier_coprime(3, m, 2);
}

/// The MiMC cipher with exponent 3.
pub struct MiMC {
    cipher: MiMCGn,
}

impl View for MiMC {
    type V = Configuration;

    closed spec fn view(&self) -> Configuration {
        self.cipher@
    }
}

impl MiMC {
    /// The fields that the configuration leaves out agree with it.
    pub closed spec fn consistent(&self) -> bool {
        self.cipher.consistent()
    }

    /// Builds a cipher with freshly drawn round constants, one for each of
    /// the rounds derived from the width. The first constant is zero. Fails
    /// with `Configuration` if the width is even. Whether a polynomial is
    /// tabulated for the width is not asked here but when the cipher is used.
    pub fn new(block_size: u32) -> (cipher: Result<MiMC, CipherError>)
        requires
            block_size <= 127,
        ensures
            match cipher {
                Ok(c) => {
                    &&& c.wf()
                    &&& c@.block_size == block_size
                    &&& block_size % 2 == 1
                    &&& c@.rounds() == derived_rounds(3, block_size as nat)
                },
                Err(e) => e == CipherError::Configuration && block_size % 2 != 1,
            },
    {
        // cubing permutes the field of width n exactly when n is odd
        if block_size % 2 != 1 {
            return Err(CipherError::Configuration);
        }
        proof {
            lemma_cubing_permutes(block_size);
            lemma_derived_rounds(3, block_size as nat);
        }
        match MiMCGn::new(3, block_size, None) {
            Ok(cipher) => Ok(MiMC { cipher }),
            Err(e) => Err(e),
        }
    }

    /// Builds a cipher with the given round constants, one round for each.
    /// Fails with `Configuration` if the width is even or the constants do
    /// not fit: none, a first one that is not zero, or one that is not an
    /// element of the field. Whether a polynomial is tabulated for the width
    /// is not asked here but when the cipher is used.
    pub fn with_round_constants(block_size: u32, round_constants: &Vec<Vec<u8>>) -> (cipher:
        Result<MiMC, CipherError>)
        requires
            block_size <= 127,
        ensures
            match cipher {
                Ok(c) => {
                    &&& c.wf()
                    &&& c@.block_size == block_size
                    &&& c@.round_constants == constants_of(round_constants@)
                    &&& block_size % 2 == 1
                    &&& valid_constants(constants_of(round_constants@), block_size as nat)
                },
                Err(e) => e == CipherError::Configuration && !(block_size % 2 == 1
                    && valid_constants(constants_of(round_constants@), block_size as nat)),
            },
    {
        // cubing permutes the field of width n exactly when n is odd
        if block_size % 2 != 1 {
            return Err(CipherError::Configuration);
        }
        proof {
            lemma_cubing_permutes(block_size);
        }
        match MiMCGn::with_round_constants(3, block_size, round_constants) {
            Ok(cipher) => Ok(MiMC { cipher }),
            Err(e) => Err(e),
        }
    }

    /// The width of the field in bits.
    pub fn block_size(&self) -> (n: u32)
        ensures
            n == self@.block_size,
    {
        self.cipher.block_size()
    }

    /// The number of elements of the field, `2^n`.
    pub fn field(&self) -> (size: u128)
        requires
            self.wf(),
        ensures
            size == pow2(self@.block_size as nat),
    {
        self.cipher.field()
    }

    /// The number of rounds.
    pub fn rounds(&self) -> (r: usize)
        requires
            self.wf(),
        ensures
            r == self@.rounds(),
    {
        self.cipher.rounds()
    }

    /// The round constants, one for each round.
    pub fn round_constants(&self) -> (constants: &Vec<Vec<u8>>)
        ensures
            constants_of(constants@) == self@.round_constants,
    {
        self.cipher.round_constants()
    }

    /// The round constants as integers.
    pub fn round_constants_decimal(&self) -> (values: Vec<u128>)
        requires
            self.wf(),
        ensures
            values@.len() == self@.rounds(),
            forall|i: int|
                0 <= i < values@.len() ==> #[trigger] values@[i] == bits_to_nat(
                    self@.round_constants[i],
                ),
    {
        self.cipher.round_constants_decimal()
    }
}

impl Cipher for MiMC {
    open spec fn wf(&self) -> bool {
        self@.valid() && self@.exponent == 3 && self.consistent()
    }

    open spec fn width(&self) -> nat {
        self@.block_size as nat
    }

    open spec fn supported(&self) -> bool {
        supported_width(self@.block_size)
    }

    open spec fn encrypted(&self, plaintext: Seq<u8>, key: Seq<u8>) -> Seq<u8> {
        mimc_encrypted(
            plaintext,
            key,
            self@.round_constants,
            3,
            self@.block_size,
        )
    }

    open spec fn decrypted(&self, ciphertext: Seq<u8>, key: Seq<u8>) -> Seq<u8> {
        mimc_decrypted(
            ciphertext,
            key,
            self@.round_constants,
            self@.decryption_exponent,
            self@.block_size,
        )
    }

    fn is_supported(&self) -> (ok: bool) {
        self.cipher.is_supported()
    }

    fn encrypt(&self, plaintext: &Vec<u8>, key: &Vec<u8>) -> (ciphertext: Result<
        Vec<u8>,
        CipherError,
    >) {
        proof {
            assert(self.cipher.wf() && self.cipher@.exponent == 3);
            assert(self.cipher.encrypted(plaintext@, key@) == self.encrypted(plaintext@, key@));
        }
        self.cipher.encrypt(plaintext, key)
    }

    fn decrypt(&self, ciphertext: &Vec<u8>, key: &Vec<u8>) -> (plaintext: Result<
        Vec<u8>,
        CipherError,
    >) {
        proof {
            assert(self.cipher.wf());
            assert(self.cipher.decrypted(ciphertext@, key@) == self.decrypted(ciphertext@, key@));
        }
        self.cipher.decrypt(ciphertext, key)
    }
}

/// Round trip: the cipher over a tabulated field decrypts what it encrypted,
/// under the same key, to the plaintext.
pub proof fn lemma_round_trip(cipher: MiMC, plaintext: Seq<u8>, key: Seq<u8>)
    requires
        cipher.wf(),
        cipher.supported(),
        is_element(plaintext, cipher.width()),
        is_element(key, cipher.width()),
    ensures
        cipher.decrypted(cipher.encrypted(plaintext, key), key) == plaintext,
{
    crate::mimc_general::lemma_round_trip(cipher.cipher, plaintext, key);
}

} // verus!
