//! The general MiMC cipher: any exponent for which the power map permutes
//! the field.

use crate::cipher::{
    decryption_index, decryption_order, lemma_mimc_round_trip, lemma_state_step, mimc_decrypted,
    mimc_encrypted, round, rounds_applied, state_after, valid_constants, Cipher,
};
use crate::codec::{bits_to_nat, is_element, to_decimal, zero_bits};
use crate::element_laws::{lemma_add_closed, lemma_power_inverse};
use crate::error::CipherError;
use crate::field::{
    add_finite_field, field_power, irreducible_polynomial, power_in_field, supported_width,
    xor_bits,
};
use crate::number::{
    decryption_exponent, derive_rounds, derived_rounds, find_multiplier, group_order,
    is_least_multiplier, is_multiplier, is_permutation_exponent, largest_element,
    lemma_multiplier_coprime, lemma_multiplier_exists, lemma_pow2_128, permutation_exponent,
};
use crate::random::{constants_of, generate_round_constants};
use vstd::arithmetic::div_mod::lemma_fundamental_div_mod;
use vstd::arithmetic::power2::{lemma_pow2_pos, lemma_pow2_strictly_increases, pow2};
use vstd::prelude::*;

verus! {

/// What a cipher of the MiMC family is made of.
pub struct Configuration {
    /// The width `n` of the field, in bits.
    pub block_size: u32,
    /// The exponent `e` of the round function.
    pub exponent: nat,
    /// The least `t` in `[1, e)` with `1 + t * (2^n - 1)` a multiple of `e`.
    pub multiplier: nat,
    /// The exponent `d` of the inverse round function.
    pub decryption_exponent: nat,
    /// One constant for each round.
    pub round_constants: Seq<Seq<u8>>,
}

impl Configuration {
    /// The number of rounds.
    pub open spec fn rounds(self) -> nat {
        self.round_constants.len()
    }

    /// The configuration describes a cipher: the number `2^n` of elements of
    /// its field fits 128 bits, the round constants fit the width, and the
    /// multiplier and the decryption exponent are those of the exponent.
    /// Whether a polynomial is tabulated for the width is another matter: it
    /// is asked when the cipher is used.
    pub open spec fn valid(self) -> bool {
        &&& self.block_size <= 127
        &&& valid_constants(self.round_constants, self.block_size as nat)
        &&& is_least_multiplier(self.multiplier, self.exponent, self.block_size as nat)
        &&& self.decryption_exponent == decryption_exponent(
            self.multiplier,
            self.exponent,
            self.block_size as nat,
        )
    }
}

/// The exponent and the round constants can make a cipher over the field of
/// width `n`: raising to the exponent permutes the field and can be undone by
/// a power, and the constants fit.
pub open spec fn valid_parameters(e: nat, n: u32, constants: Seq<Seq<u8>>) -> bool {
    valid_exponent(e, n) && valid_constants(constants, n as nat)
}

/// Raising to the power `e` permutes the field of width `n`, and `e` is at
/// least 2, so that the search for the decryption exponent has a range.
pub open spec fn valid_exponent(e: nat, n: u32) -> bool {
    permutation_exponent(e, n as nat) && e >= 2
}

/// The product of the exponent and the decryption exponent of a valid
/// configuration is 1 modulo `2^n - 1`.
pub proof fn lemma_exponents_inverse(c: Configuration)
    requires
        c.valid(),
    ensures
        c.exponent * c.decryption_exponent == 1 + c.multiplier * group_order(c.block_size as nat),
        valid_exponent(c.exponent, c.block_size),
{
    let total = (1 + c.multiplier * group_order(c.block_size as nat)) as int;
    lemma_fundamental_div_mod(total, c.exponent as int);
    lemma_multiplier_coprime(c.exponent, group_order(c.block_size as nat), c.multiplier);
}

/// The decryption exponent of a valid configuration works in a tabulated
/// field: raising a field element to the exponent and the result to the decryption exponent gives
/// the element back, and so in the other order. Raising to the exponent is
/// therefore a bijection of the field.
pub proof fn lemma_decryption_exponent_works(c: Configuration, x: Seq<u8>)
    requires
        c.valid(),
        supported_width(c.block_size),
        is_element(x, c.block_size as nat),
    ensures
        field_power(field_power(x, c.exponent, c.block_size), c.decryption_exponent, c.block_size)
            == x,
        field_power(field_power(x, c.decryption_exponent, c.block_size), c.exponent, c.block_size)
            == x,
{
    lemma_exponents_inverse(c);
    lemma_power_inverse(
        x,
        c.exponent,
        c.decryption_exponent,
        c.multiplier,
        c.block_size,
    );
    assert(c.decryption_exponent * c.exponent == c.exponent * c.decryption_exponent)
        by (nonlinear_arith);
    lemma_power_inverse(
        x,
        c.decryption_exponent,
        c.exponent,
        c.multiplier,
        c.block_size,
    );
}

/// Whenever raising to an exponent of at least 2 permutes a field, the
/// smallest multiplier exists, and with it the decryption exponent.
pub proof fn lemma_valid_exponent_has_multiplier(e: nat, n: u32) -> (t: nat)
    requires
        valid_exponent(e, n),
    ensures
        is_least_multiplier(t, e, n as nat),
{
    let some = lemma_multiplier_exists(e, group_order(n as nat));
    assert(is_multiplier(some, e, n as nat));
    lemma_least_multiplier(some, e, n as nat)
}

/// Below any multiplier lies the smallest one.
proof fn lemma_least_multiplier(t: nat, e: nat, n: nat) -> (least: nat)
    requires
        is_multiplier(t, e, n),
    ensures
        is_least_multiplier(least, e, n),
    decreases t,
{
    if exists|s: nat| s < t && is_multiplier(s, e, n) {
        let s = choose|s: nat| s < t && is_multiplier(s, e, n);
        lemma_least_multiplier(s, e, n)
    } else {
        t
    }
}

/// The MiMC cipher with an exponent of the caller's choice.
pub struct MiMCGn {
    exponent: u128,
    block_size: u32,
    field: u128,
    t: u128,
    power: u128,
    rounds: usize,
    round_constants: Vec<Vec<u8>>,
}

impl View for MiMCGn {
    type V = Configuration;

    closed spec fn view(&self) -> Configuration {
        Configuration {
            block_size: self.block_size,
            exponent: self.exponent as nat,
            multiplier: self.t as nat,
            decryption_exponent: self.power as nat,
            round_constants: constants_of(self.round_constants@),
        }
    }
}

/// Tells whether the exponent is valid for the width: at least 2, and
/// raising to it permutes the field. The width may be any.
pub fn is_valid_exponent(exponent: u128, block_size: u32) -> (valid: bool)
    ensures
        valid == valid_exponent(exponent as nat, block_size),
{
    exponent >= 2 && is_permutation_exponent(exponent, block_size)
}

/// Tells whether `bits` is an element of the field of width `block_size`.
pub fn is_field_element(bits: &Vec<u8>, block_size: u32) -> (ok: bool)
    ensures
        ok == is_element(bits@, block_size as nat),
{
    if bits.len() != block_size as usize {
        return false;
    }
    let mut i: usize = 0;
    while i < bits.len()
        invariant
            i <= bits@.len(),
            forall|j: int| 0 <= j < i ==> #[trigger] bits@[j] <= 1,
        decreases bits.len() - i,
    {
        if bits[i] > 1 {
            return false;
        }
        i += 1;
    }
    true
}

/// Copies the round constants if they fit the field of width `block_size`.
fn checked_constants(round_constants: &Vec<Vec<u8>>, block_size: u32) -> (copy: Option<
    Vec<Vec<u8>>,
>)
    ensures
        copy.is_some() == valid_constants(constants_of(round_constants@), block_size as nat),
        copy.is_some() ==> constants_of(copy.unwrap()@) == constants_of(round_constants@),
{
    let ghost given = constants_of(round_constants@);
    let ghost n = block_size as nat;
    if round_constants.len() == 0 {
        return None;
    }
    let mut result: Vec<Vec<u8>> = Vec::with_capacity(round_constants.len());
    let mut i: usize = 0;
    while i < round_constants.len()
        invariant
            i <= round_constants@.len(),
            given == constants_of(round_constants@),
            n == block_size,
            result@.len() == i,
            forall|j: int| 0 <= j < i ==> #[trigger] result@[j]@ == given[j],
            forall|j: int| 0 <= j < i ==> is_element(#[trigger] given[j], n),
            i > 0 ==> given[0] == zero_bits(n),
        decreases round_constants.len() - i,
    {
        let constant = &round_constants[i];
        if !is_field_element(constant, block_size) {
            proof {
                assert(!is_element(given[i as int], n));
            }
            return None;
        }
        let mut copy: Vec<u8> = Vec::with_capacity(constant.len());
        let mut k: usize = 0;
        let mut zero: bool = true;
        while k < constant.len()
            invariant
                k <= constant@.len(),
                copy@ == constant@.take(k as int),
                zero == (forall|j: int| 0 <= j < k ==> constant@[j] == 0),
            decreases constant.len() - k,
        {
            if constant[k] != 0 {
                zero = false;
            }
            copy.push(constant[k]);
            proof {
                assert(constant@.take(k + 1) =~= constant@.take(k as int).push(constant@[k as int]));
            }
            k += 1;
        }
        proof {
            assert(constant@.take(k as int) =~= constant@);
            if zero {
                assert(constant@ =~= zero_bits(n));
            } else {
                let j = choose|j: int| 0 <= j < k && constant@[j] != 0;
                assert(zero_bits(n)[j] == 0);
            }
        }
        if i == 0 && !zero {
            return None;
        }
        result.push(copy);
        i += 1;
    }
    proof {
        assert(constants_of(result@) =~= given);
    }
    Some(result)
}

impl MiMCGn {
    /// The fields that the configuration leaves out agree with it.
    pub closed spec fn consistent(&self) -> bool {
        self.rounds == self.round_constants@.len() && self.field == pow2(self.block_size as nat)
    }

    /// Builds a cipher with freshly drawn round constants, one for each of
    /// the rounds derived from the exponent and the width, less
    /// `round_reduction`, which may not exceed them; at least one round is
    /// left. The first constant is zero. Fails with `Configuration` if
    /// raising to the exponent does not permute the field or the exponent is
    /// below 2. Whether a polynomial is tabulated for the width is not asked
    /// here but when the cipher is used.
    pub fn new(exponent: u128, block_size: u32, round_reduction: Option<usize>) -> (cipher:
        Result<MiMCGn, CipherError>)
        requires
            block_size <= 127,
            exponent >= 2 ==> round_reduction.unwrap_or(0) <= derived_rounds(
                exponent as nat,
                block_size as nat,
            ),
        ensures
            match cipher {
                Ok(c) => {
                    &&& c.wf()
                    &&& c@.exponent == exponent
                    &&& c@.block_size == block_size
                    &&& valid_exponent(exponent as nat, block_size)
                    &&& c@.rounds() == vstd::math::max(
                        1,
                        derived_rounds(exponent as nat, block_size as nat)
                            - round_reduction.unwrap_or(0),
                    )
                },
                Err(e) => e == CipherError::Configuration && !valid_exponent(
                    exponent as nat,
                    block_size,
                ),
            },
    {
        if !is_valid_exponent(exponent, block_size) {
            return Err(CipherError::Configuration);
        }
        let reduction: usize = match round_reduction {
            Some(r) => r,
            None => 0,
        };
        let rounds: usize = derive_rounds(exponent, block_size) - reduction;
        let constants = generate_round_constants(rounds, block_size);
        proof {
            let given = constants_of(constants@);
            assert(given[0] == constants@[0]@);
            assert forall|i: int| 0 <= i < given.len() implies is_element(
                #[trigger] given[i],
                block_size as nat,
            ) by {
                assert(given[i] == constants@[i]@);
            }
        }
        MiMCGn::with_round_constants(exponent, block_size, &constants)
    }

    /// Builds a cipher with the given round constants, one round for each.
    /// Fails with `Configuration` if raising to the exponent does not permute
    /// the field, if the exponent is below 2, or if the constants do not fit:
    /// none, a first one that is not zero, or one that is not an element of
    /// the field. Whether a polynomial is tabulated for the width is not
    /// asked here but when the cipher is used.
    pub fn with_round_constants(
        exponent: u128,
        block_size: u32,
        round_constants: &Vec<Vec<u8>>,
    ) -> (cipher: Result<MiMCGn, CipherError>)
        requires
            block_size <= 127,
        ensures
            match cipher {
                Ok(c) => {
                    &&& c.wf()
                    &&& c@.exponent == exponent
                    &&& c@.block_size == block_size
                    &&& c@.round_constants == constants_of(round_constants@)
                    &&& valid_parameters(
                        exponent as nat,
                        block_size,
                        constants_of(round_constants@),
                    )
                },
                Err(e) => e == CipherError::Configuration && !valid_parameters(
                    exponent as nat,
                    block_size,
                    constants_of(round_constants@),
                ),
            },
    {
        // raising to the exponent permutes the field if and only if the
        // exponent has no common divisor with 2^n - 1
        if !is_valid_exponent(exponent, block_size) {
            return Err(CipherError::Configuration);
        }
        let (t, power) = match find_multiplier(exponent, block_size) {
            Some(found) => found,
            None => {
                proof {
                    let t = lemma_multiplier_exists(
                        exponent as nat,
                        group_order(block_size as nat),
                    );
                    assert(is_multiplier(t, exponent as nat, block_size as nat));
                }
                return Err(CipherError::Configuration);
            },
        };
        let constants = match checked_constants(round_constants, block_size) {
            Some(copy) => copy,
            None => {
                return Err(CipherError::Configuration);
            },
        };
        let largest: u128 = largest_element(block_size);
        proof {
            lemma_pow2_128();
            lemma_pow2_strictly_increases(block_size as nat, 128);
            lemma_pow2_pos(block_size as nat);
        }
        Ok(
            MiMCGn {
                exponent,
                block_size,
                field: largest + 1,
                t,
                power,
                rounds: constants.len(),
                round_constants: constants,
            },
        )
    }

    /// The exponent of the round function.
    pub fn exponent(&self) -> (e: u128)
        ensures
            e == self@.exponent,
    {
        self.exponent
    }

    /// The width of the field in bits.
    pub fn block_size(&self) -> (n: u32)
        ensures
            n == self@.block_size,
    {
        self.block_size
    }

    /// The number of elements of the field, `2^n`.
    pub fn field(&self) -> (size: u128)
        requires
            self.wf(),
        ensures
            size == pow2(self@.block_size as nat),
    {
        self.field
    }

    /// The least `t` in `[1, e)` that makes `1 + t * (2^n - 1)` a multiple of
    /// the exponent `e`.
    pub fn t(&self) -> (t: u128)
        ensures
            t == self@.multiplier,
    {
        self.t
    }

    /// The exponent of the inverse round function, `(1 + t * (2^n - 1)) / e`.
    pub fn decryption_exponent(&self) -> (d: u128)
        ensures
            d == self@.decryption_exponent,
    {
        self.power
    }

    /// The number of rounds.
    pub fn rounds(&self) -> (r: usize)
        requires
            self.wf(),
        ensures
            r == self@.rounds(),
    {
        self.rounds
    }

    /// The round constants, one for each round.
    pub fn round_constants(&self) -> (constants: &Vec<Vec<u8>>)
        ensures
            constants_of(constants@) == self@.round_constants,
    {
        &self.round_constants
    }

    /// The round constants as integers.
    pub fn round_constants_decimal(&self) -> (values: Vec<u128>)
        requires
            self.wf(),
        ensures
            values@.len() == self@.rounds(),
            forall|i: int|
                0 <= i < values@.len() ==> #[trigger] values@[i] == bits_to_nat(
                    self@.round_constants[i],
                ),
    {
        let mut values: Vec<u128> = Vec::with_capacity(self.round_constants.len());
        let mut i: usize = 0;
        while i < self.round_constants.len()
            invariant
                self.wf(),
                i <= self.round_constants@.len(),
                values@.len() == i,
                forall|j: int|
                    0 <= j < i ==> #[trigger] values@[j] == bits_to_nat(self@.round_constants[j]),
            decreases self.round_constants.len() - i,
        {
            let constant = &self.round_constants[i];
            proof {
                assert(self@.round_constants[i as int] == constant@);
            }
            values.push(to_decimal(constant.as_slice()));
            i += 1;
        }
        values
    }

    /// One round on executable values.
    fn apply_round(&self, state: &Vec<u8>, key: &Vec<u8>, index: usize, power: u128) -> (next:
        Vec<u8>)
        requires
            self.wf(),
            self.supported(),
            is_element(state@, self.width()),
            is_element(key@, self.width()),
            index < self@.rounds(),
        ensures
            next@ == round(
                state@,
                key@,
                self@.round_constants[index as int],
                power as nat,
                self@.block_size,
            ),
            is_element(next@, self.width()),
    {
        let ghost n = self.block_size as nat;
        let constant = &self.round_constants[index];
        proof {
            assert(self@.round_constants[index as int] == constant@);
            lemma_add_closed(key@, constant@, n);
            lemma_add_closed(state@, xor_bits(key@, constant@), n);
        }
        let mask = add_finite_field(key, constant);
        let fed = add_finite_field(state, &mask);
        power_in_field(&fed, power, self.block_size)
    }

    /// Encrypts one block over a tabulated field.
    fn encrypt_rounds(&self, plaintext: &Vec<u8>, key: &Vec<u8>) -> (ciphertext: Vec<u8>)
        requires
            self.wf(),
            self.supported(),
            is_element(plaintext@, self.width()),
            is_element(key@, self.width()),
        ensures
            ciphertext@ == self.encrypted(plaintext@, key@),
            is_element(ciphertext@, self.width()),
    {
        let ghost constants = self@.round_constants;
        let ghost e = self@.exponent;
        let ghost n = self@.block_size;
        let mut state: Vec<u8> = plaintext.clone();
        let mut i: usize = 0;
        proof {
            assert(state@ == plaintext@);
            assert(constants.take(0) =~= Seq::<Seq<u8>>::empty());
        }
        while i < self.rounds
            invariant
                self.wf(),
                self.supported(),
                constants == self@.round_constants,
                e == self@.exponent,
                n == self@.block_size,
                i <= self.rounds,
                is_element(key@, n as nat),
                is_element(state@, n as nat),
                state@ == state_after(plaintext@, key@, constants, i as int, e, n),
            decreases self.rounds - i,
        {
            proof {
                lemma_state_step(plaintext@, key@, constants, i + 1, e, n);
            }
            state = self.apply_round(&state, key, i, self.exponent);
            i += 1;
        }
        proof {
            assert(i == constants.len());
            assert(constants.take(i as int) =~= constants);
            assert(state@ == rounds_applied(plaintext@, key@, constants, e, n));
            lemma_add_closed(state@, key@, n as nat);
        }
        let ciphertext = add_finite_field(&state, key);
        proof {
            assert(ciphertext@ == mimc_encrypted(plaintext@, key@, constants, e, n));
            assert(self.encrypted(plaintext@, key@) == mimc_encrypted(
                plaintext@,
                key@,
                self@.round_constants,
                self@.exponent,
                self@.block_size,
            ));
        }
        ciphertext
    }

    /// Decrypts one block over a tabulated field.
    fn decrypt_rounds(&self, ciphertext: &Vec<u8>, key: &Vec<u8>) -> (plaintext: Vec<u8>)
        requires
            self.wf(),
            self.supported(),
            is_element(ciphertext@, self.width()),
            is_element(key@, self.width()),
        ensures
            plaintext@ == self.decrypted(ciphertext@, key@),
            is_element(plaintext@, self.width()),
    {
        let ghost order = decryption_order(self@.round_constants);
        let ghost d = self@.decryption_exponent;
        let ghost n = self@.block_size;
        let mut state: Vec<u8> = ciphertext.clone();
        let mut j: usize = 0;
        proof {
            assert(state@ == ciphertext@);
            assert(order.take(0) =~= Seq::<Seq<u8>>::empty());
        }
        while j < self.rounds
            invariant
                self.wf(),
                self.supported(),
                order == decryption_order(self@.round_constants),
                d == self@.decryption_exponent,
                n == self@.block_size,
                j <= self.rounds,
                is_element(key@, n as nat),
                is_element(state@, n as nat),
                state@ == state_after(ciphertext@, key@, order, j as int, d, n),
            decreases self.rounds - j,
        {
            proof {
                lemma_state_step(ciphertext@, key@, order, j + 1, d, n);
            }
            state = self.apply_round(&state, key, decryption_index(self.rounds, j), self.power);
            j += 1;
        }
        proof {
            assert(j == order.len());
            assert(order.take(j as int) =~= order);
            assert(state@ == rounds_applied(ciphertext@, key@, order, d, n));
            lemma_add_closed(state@, key@, n as nat);
        }
        let plaintext = add_finite_field(&state, key);
        proof {
            assert(plaintext@ == mimc_decrypted(
                ciphertext@,
                key@,
                self@.round_constants,
                d,
                n,
            ));
            assert(self.decrypted(ciphertext@, key@) == mimc_decrypted(
                ciphertext@,
                key@,
                self@.round_constants,
                self@.decryption_exponent,
                self@.block_size,
            ));
        }
        plaintext
    }
}

impl Cipher for MiMCGn {
    open spec fn wf(&self) -> bool {
        self@.valid() && self.consistent()
    }

    open spec fn width(&self) -> nat {
        self@.block_size as nat
    }

    open spec fn supported(&self) -> bool {
        supported_width(self@.block_size)
    }

    open spec fn encrypted(&self, plaintext: Seq<u8>, key: Seq<u8>) -> Seq<u8> {
        mimc_encrypted(plaintext, key, self@.round_constants, self@.exponent, self@.block_size)
    }

    open spec fn decrypted(&self, ciphertext: Seq<u8>, key: Seq<u8>) -> Seq<u8> {
        mimc_decrypted(
            ciphertext,
            key,
            self@.round_constants,
            self@.decryption_exponent,
            self@.block_size,
        )
    }

    fn is_supported(&self) -> (ok: bool) {
        proof {
            assert(self@.block_size == self.block_size);
            assert(self.supported() == supported_width(self@.block_size));
        }
        irreducible_polynomial(self.block_size).is_some()
    }

    fn encrypt(&self, plaintext: &Vec<u8>, key: &Vec<u8>) -> (ciphertext: Result<
        Vec<u8>,
        CipherError,
    >) {
        if !self.is_supported() {
            return Err(CipherError::UnsupportedWidth);
        }
        Ok(self.encrypt_rounds(plaintext, key))
    }

    fn decrypt(&self, ciphertext: &Vec<u8>, key: &Vec<u8>) -> (plaintext: Result<
        Vec<u8>,
        CipherError,
    >) {
        if !self.is_supported() {
            return Err(CipherError::UnsupportedWidth);
        }
        Ok(self.decrypt_rounds(ciphertext, key))
    }
}

/// Round trip: a cipher over a tabulated field decrypts what it encrypted,
/// under the same key, to the plaintext.
pub proof fn lemma_round_trip(cipher: MiMCGn, plaintext: Seq<u8>, key: Seq<u8>)
    requires
        cipher.wf(),
        cipher.supported(),
        is_element(plaintext, cipher.width()),
        is_element(key, cipher.width()),
    ensures
        cipher.decrypted(cipher.encrypted(plaintext, key), key) == plaintext,
{
    let c = cipher@;
    lemma_exponents_inverse(c);
    lemma_mimc_round_trip(
        plaintext,
        key,
        c.round_constants,
        c.exponent,
        c.decryption_exponent,
        c.multiplier,
        c.block_size,
    );
}

} // verus!
