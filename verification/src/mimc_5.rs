//! The member of the MiMC family with exponent 5.

use crate::cipher::{mimc_decrypted, mimc_encrypted, Cipher};
use crate::codec::{bits_to_nat, is_element};
use crate::error::CipherError;
use crate::field::supported_width;
use crate::mimc_general::{valid_exponent, valid_parameters, Configuration, MiMCGn};
use crate::number::{derived_rounds, gcd_nat, lemma_derived_rounds};
use crate::random::constants_of;
use vstd::arithmetic::power2::{lemma2_to64, pow2};
use vstd::prelude::*;

verus! {

/// The MiMC cipher with exponent 5.
pub struct MiMC5 {
    cipher: MiMCGn,
}

impl View for MiMC5 {
    type V = Configuration;

    closed spec fn view(&self) -> Configuration {
        self.cipher@
    }
}

impl MiMC5 {
    /// The fields that the configuration leaves out agree with it.
    pub closed spec fn consistent(&self) -> bool {
        self.cipher.consistent()
    }

    /// Builds a cipher with freshly drawn round constants, one for each of
    /// the rounds derived from the width. The first constant is zero. Fails
    /// with `Configuration` if raising to the fifth power does not permute
    /// the field. Whether a polynomial is tabulated for the width is not
    /// asked here but when the cipher is used.
    pub fn new(block_size: u32) -> (cipher: Result<MiMC5, CipherError>)
        requires
            block_size <= 127,
        ensures
            match cipher {
                Ok(c) => {
                    &&& c.wf()
                    &&& c@.block_size == block_size
                    &&& valid_exponent(5, block_size)
                    &&& c@.rounds() == derived_rounds(5, block_size as nat)
                },
                Err(e) => e == CipherError::Configuration && !valid_exponent(5, block_size),
            },
    {
        proof {
            lemma_derived_rounds(5, block_size as nat);
            if block_size == 0 {
                // 5 does not permute the field of width 0
                lemma2_to64();
                assert(gcd_nat(5, 0) == 5);
            }
        }
        match MiMCGn::new(5, block_size, None) {
            Ok(cipher) => Ok(MiMC5 { cipher }),
            Err(e) => Err(e),
        }
    }

    /// Builds a cipher with the given round constants, one round for each.
    /// Fails with `Configuration` if raising to the fifth power does not
    /// permute the field or the constants do not fit: none, a first one that
    /// is not zero, or one that is not an element of the field. Whether a
    /// polynomial is tabulated for the width is not asked here but when the
    /// cipher is used.
    pub fn with_round_constants(block_size: u32, round_constants: &Vec<Vec<u8>>) -> (cipher:
        Result<MiMC5, CipherError>)
        requires
            block_size <= 127,
        ensures
            match cipher {
                Ok(c) => {
                    &&& c.wf()
                    &&& c@.block_size == block_size
                    &&& c@.round_constants == constants_of(round_constants@)
                    &&& valid_parameters(5, block_size, constants_of(round_constants@))
                },
                Err(e) => e == CipherError::Configuration && !valid_parameters(
                    5,
                    block_size,
                    constants_of(round_constants@),
                ),
            },
    {
        match MiMCGn::with_round_constants(5, block_size, round_constants) {
            Ok(cipher) => Ok(MiMC5 { cipher }),
            Err(e) => Err(e),
        }
    }

    /// The least `t` in `[1, 5)` that makes `1 + t * (2^n - 1)` a multiple of
    /// 5.
    pub fn t(&self) -> (t: u128)
        ensures
            t == self@.multiplier,
    {
        self.cipher.t()
    }

    /// The width of the field in bits.
    pub fn block_size(&self) -> (n: u32)
        ensures
            n == self@.block_size,
    {
        self.cipher.block_size()
    }

    /// The number of elements of the field, `2^n`.
    pub fn field(&self) -> (size: u128)
        requires
            self.wf(),
        ensures
            size == pow2(self@.block_size as nat),
    {
        self.cipher.field()
    }

    /// The number of rounds.
    pub fn rounds(&self) -> (r: usize)
        requires
            self.wf(),
        ensures
            r == self@.rounds(),
    {
        self.cipher.rounds()
    }

    /// The round constants, one for each round.
    pub fn round_constants(&self) -> (constants: &Vec<Vec<u8>>)
        ensures
            constants_of(constants@) == self@.round_constants,
    {
        self.cipher.round_constants()
    }

    /// The round constants as integers.
    pub fn round_constants_decimal(&self) -> (values: Vec<u128>)
        requires
            self.wf(),
        ensures
            values@.len() == self@.rounds(),
            forall|i: int|
                0 <= i < values@.len() ==> #[trigger] values@[i] == bits_to_nat(
                    self@.round_constants[i],
                ),
    {
        self.cipher.round_constants_decimal()
    }
}

impl Cipher for MiMC5 {
    open spec fn wf(&self) -> bool {
        self@.valid() && self@.exponent == 5 && self.consistent()
    }

    open spec fn width(&self) -> nat {
        self@.block_size as nat
    }

    open spec fn supported(&self) -> bool {
        supported_width(self@.block_size)
    }

    open spec fn encrypted(&self, plaintext: Seq<u8>, key: Seq<u8>) -> Seq<u8> {
        mimc_encrypted(
            plaintext,
            key,
            self@.round_constants,
            5,
            self@.block_size,
        )
    }

    open spec fn decrypted(&self, ciphertext: Seq<u8>, key: Seq<u8>) -> Seq<u8> {
        mimc_decrypted(
            ciphertext,
            key,
            self@.round_constants,
            self@.decryption_exponent,
            self@.block_size,
        )
    }

    fn is_supported(&self) -> (ok: bool) {
        self.cipher.is_supported()
    }

    fn encrypt(&self, plaintext: &Vec<u8>, key: &Vec<u8>) -> (ciphertext: Result<
        Vec<u8>,
        CipherError,
    >) {
        proof {
            assert(self.cipher.wf() && self.cipher@.exponent == 5);
            assert(self.cipher.encrypted(plaintext@, key@) == self.encrypted(plaintext@, key@));
        }
        self.cipher.encrypt(plaintext, key)
    }

    fn decrypt(&self, ciphertext: &Vec<u8>, key: &Vec<u8>) -> (plaintext: Result<
        Vec<u8>,
        CipherError,
    >) {
        proof {
            assert(self.cipher.wf());
            assert(self.cipher.decrypted(ciphertext@, key@) == self.decrypted(ciphertext@, key@));
        }
        self.cipher.decrypt(ciphertext, key)
    }
}

/// Round trip: the cipher over a tabulated field decrypts what it encrypted,
/// under the same key, to the plaintext.
pub proof fn lemma_round_trip(cipher: MiMC5, plaintext: Seq<u8>, key: Seq<u8>)
    requires
        cipher.wf(),
        cipher.supported(),
        is_element(plaintext, cipher.width()),
        is_element(key, cipher.width()),
    ensures
        cipher.decrypted(cipher.encrypted(plaintext, key), key) == plaintext,
{
    crate::mimc_general::lemma_round_trip(cipher.cipher, plaintext, key);
}

} // verus!
