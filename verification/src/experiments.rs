//! What the statistical experiments compute: the choice of a cipher, and the
//! avalanche counts that measure diffusion and confusion.

use crate::baseline::AES;
use crate::cipher::{valid_constants, Cipher};
use crate::codec::{bits_to_nat, is_bits, is_element, nat_to_bits, to_binary};
use crate::element_laws::lemma_xor_bit;
use crate::error::CipherError;
use crate::mimc::MiMC;
use crate::mimc_general::{valid_exponent, MiMCGn};
use crate::number::derived_rounds;
use crate::random::{constants_of, generate_random_bits};
use vstd::prelude::*;

verus! {

/// Which cipher an experiment runs on.
pub enum CipherType<'a> {
    /// The AES-128 baseline.
    AES,
    /// MiMC with exponent 3 and freshly drawn round constants.
    MiMC,
    /// The general MiMC cipher: its exponent, its round constants as
    /// integers (if there are none, they are drawn), and the number of
    /// rounds to leave out when they are drawn.
    MiMCGe(u128, &'a Vec<u128>, Option<usize>),
}

/// A cipher of one of the kinds that an experiment can choose.
pub enum ChosenCipher {
    /// The AES-128 baseline.
    AES(AES),
    /// MiMC with exponent 3.
    MiMC(MiMC),
    /// The general MiMC cipher.
    MiMCGe(MiMCGn),
}

impl Cipher for ChosenCipher {
    open spec fn wf(&self) -> bool {
        match self {
            ChosenCipher::AES(c) => c.wf(),
            ChosenCipher::MiMC(c) => c.wf(),
            ChosenCipher::MiMCGe(c) => c.wf(),
        }
    }

    open spec fn width(&self) -> nat {
        match self {
            ChosenCipher::AES(c) => c.width(),
            ChosenCipher::MiMC(c) => c.width(),
            ChosenCipher::MiMCGe(c) => c.width(),
        }
    }

    open spec fn supported(&self) -> bool {
        match self {
            ChosenCipher::AES(c) => c.supported(),
            ChosenCipher::MiMC(c) => c.supported(),
            ChosenCipher::MiMCGe(c) => c.supported(),
        }
    }

    open spec fn encrypted(&self, plaintext: Seq<u8>, key: Seq<u8>) -> Seq<u8> {
        match self {
            ChosenCipher::AES(c) => c.encrypted(plaintext, key),
            ChosenCipher::MiMC(c) => c.encrypted(plaintext, key),
            ChosenCipher::MiMCGe(c) => c.encrypted(plaintext, key),
        }
    }

    open spec fn decrypted(&self, ciphertext: Seq<u8>, key: Seq<u8>) -> Seq<u8> {
        match self {
            ChosenCipher::AES(c) => c.decrypted(ciphertext, key),
            ChosenCipher::MiMC(c) => c.decrypted(ciphertext, key),
            ChosenCipher::MiMCGe(c) => c.decrypted(ciphertext, key),
        }
    }

    fn is_supported(&self) -> (ok: bool) {
        match self {
            ChosenCipher::AES(c) => c.is_supported(),
            ChosenCipher::MiMC(c) => c.is_supported(),
            ChosenCipher::MiMCGe(c) => c.is_supported(),
        }
    }

    fn encrypt(&self, plaintext: &Vec<u8>, key: &Vec<u8>) -> (ciphertext: Result<
        Vec<u8>,
        CipherError,
    >) {
        match self {
            ChosenCipher::AES(c) => c.encrypt(plaintext, key),
            ChosenCipher::MiMC(c) => c.encrypt(plaintext, key),
            ChosenCipher::MiMCGe(c) => c.encrypt(plaintext, key),
        }
    }

    fn decrypt(&self, ciphertext: &Vec<u8>, key: &Vec<u8>) -> (plaintext: Result<
        Vec<u8>,
        CipherError,
    >) {
        match self {
            ChosenCipher::AES(c) => c.decrypt(ciphertext, key),
            ChosenCipher::MiMC(c) => c.decrypt(ciphertext, key),
            ChosenCipher::MiMCGe(c) => c.decrypt(ciphertext, key),
        }
    }
}

/// The field elements of width `n` that a sequence of integers encodes.
pub open spec fn constants_from(values: Seq<u128>, n: nat) -> Seq<Seq<u8>> {
    Seq::new(values.len(), |i: int| nat_to_bits(values[i] as nat, n))
}

/// Writes each integer as a field element of width `block_size`.
pub fn constants_to_binary(values: &Vec<u128>, block_size: u32) -> (constants: Vec<Vec<u8>>)
    ensures
        constants_of(constants@) == constants_from(values@, block_size as nat),
{
    let mut result: Vec<Vec<u8>> = Vec::with_capacity(values.len());
    let mut i: usize = 0;
    while i < values.len()
        invariant
            i <= values@.len(),
            result@.len() == i,
            forall|j: int|
                0 <= j < i ==> #[trigger] result@[j]@ == nat_to_bits(
                    values@[j] as nat,
                    block_size as nat,
                ),
        decreases values.len() - i,
    {
        result.push(to_binary(values[i], block_size));
        i += 1;
    }
    proof {
        assert(constants_of(result@) =~= constants_from(values@, block_size as nat));
    }
    result
}

/// Builds the cipher that `t` asks for, over the field of width
/// `block_size`. AES ignores the width. The general MiMC cipher takes the
/// round constants given, or draws them if none are given. The MiMC ciphers
/// fail as their constructors do, and like them do not ask whether a
/// polynomial is tabulated for the width.
pub fn choose_cipher(t: &CipherType, block_size: u32) -> (cipher: Result<
    ChosenCipher,
    CipherError,
>)
    requires
        match *t {
            CipherType::AES => true,
            CipherType::MiMC => block_size <= 127,
            CipherType::MiMCGe(e, rc, rr) => block_size <= 127 && (rc@.len() == 0 && e >= 2
                ==> rr.unwrap_or(0) <= derived_rounds(e as nat, block_size as nat)),
        },
    ensures
        match *t {
            CipherType::AES => cipher matches Ok(ChosenCipher::AES(_)),
            CipherType::MiMC => match cipher {
                Ok(c) => {
                    &&& c matches ChosenCipher::MiMC(m)
                    &&& m.wf()
                    &&& m@.block_size == block_size
                    &&& block_size % 2 == 1
                    &&& m@.rounds() == derived_rounds(3, block_size as nat)
                },
                Err(e) => e == CipherError::Configuration && block_size % 2 != 1,
            },
            CipherType::MiMCGe(e, rc, rr) => {
                let constants = constants_from(rc@, block_size as nat);
                let fit = rc@.len() == 0 || valid_constants(constants, block_size as nat);
                match cipher {
                    Ok(c) => {
                        &&& c matches ChosenCipher::MiMCGe(m)
                        &&& m.wf()
                        &&& m@.block_size == block_size
                        &&& m@.exponent == e
                        &&& valid_exponent(e as nat, block_size)
                        &&& fit
                        &&& if rc@.len() == 0 {
                            m@.rounds() == vstd::math::max(
                                1,
                                derived_rounds(e as nat, block_size as nat) - rr.unwrap_or(0),
                            )
                        } else {
                            m@.round_constants == constants
                        }
                    },
                    Err(err) => err == CipherError::Configuration && !(valid_exponent(
                        e as nat,
                        block_size,
                    ) && fit),
                }
            },
        },
{
    match t {
        CipherType::AES => Ok(ChosenCipher::AES(AES {  })),
        CipherType::MiMC => match MiMC::new(block_size) {
            Ok(c) => Ok(ChosenCipher::MiMC(c)),
            Err(e) => Err(e),
        },
        CipherType::MiMCGe(e, rc, rr) => {
            let built = if rc.len() != 0 {
                MiMCGn::with_round_constants(*e, block_size, &constants_to_binary(rc, block_size))
            } else {
                MiMCGn::new(*e, block_size, *rr)
            };
            match built {
                Ok(c) => Ok(ChosenCipher::MiMCGe(c)),
                Err(e) => Err(e),
            }
        },
    }
}

/// `s` with entry `i` flipped.
pub open spec fn flipped(s: Seq<u8>, i: int) -> Seq<u8> {
    s.update(i, s[i] ^ 1)
}

/// The number of positions below `upto` at which `a` and `b` differ.
pub open spec fn differing(a: Seq<u8>, b: Seq<u8>, upto: int) -> nat
    decreases upto,
{
    if upto <= 0 {
        0
    } else {
        differing(a, b, upto - 1) + if a[upto - 1] ^ b[upto - 1] >= 1 {
            1nat
        } else {
            0nat
        }
    }
}

/// The number of ciphertext bits that change, summed over the flips of each
/// of the first `upto` bits of the plaintext (of the key, if `in_key`).
pub open spec fn avalanche<C: Cipher>(
    cipher: C,
    plaintext: Seq<u8>,
    key: Seq<u8>,
    in_key: bool,
    upto: int,
) -> nat
    decreases upto,
{
    if upto <= 0 {
        0
    } else {
        let changed = if in_key {
            cipher.encrypted(plaintext, flipped(key, upto - 1))
        } else {
            cipher.encrypted(flipped(plaintext, upto - 1), key)
        };
        avalanche(cipher, plaintext, key, in_key, upto - 1) + differing(
            changed,
            cipher.encrypted(plaintext, key),
            cipher.width() as int,
        )
    }
}

/// No more positions differ than there are.
pub proof fn lemma_differing_bound(a: Seq<u8>, b: Seq<u8>, upto: int)
    requires
        0 <= upto,
    ensures
        differing(a, b, upto) <= upto,
    decreases upto,
{
    if upto > 0 {
        lemma_differing_bound(a, b, upto - 1);
    }
}

/// Whatever the plaintext and the key, the flips of `upto` bits change at
/// most `upto` times the width of the cipher in ciphertext bits: the whole
/// avalanche sum of a cipher of width `n` is at most `n * n`.
pub proof fn lemma_avalanche_bound<C: Cipher>(
    cipher: C,
    plaintext: Seq<u8>,
    key: Seq<u8>,
    in_key: bool,
    upto: int,
)
    requires
        0 <= upto,
    ensures
        avalanche(cipher, plaintext, key, in_key, upto) <= upto * cipher.width(),
    decreases upto,
{
    let w = cipher.width() as int;
    if upto > 0 {
        lemma_avalanche_bound(cipher, plaintext, key, in_key, upto - 1);
        let changed = if in_key {
            cipher.encrypted(plaintext, flipped(key, upto - 1))
        } else {
            cipher.encrypted(flipped(plaintext, upto - 1), key)
        };
        lemma_differing_bound(changed, cipher.encrypted(plaintext, key), w);
        assert((upto - 1) * w + w == upto * w) by (nonlinear_arith);
    } else {
        assert(0 * w == 0);
    }
}

/// Counts the positions at which two sequences of the same length differ.
pub fn count_differing(a: &Vec<u8>, b: &Vec<u8>) -> (count: usize)
    requires
        a@.len() == b@.len(),
    ensures
        count == differing(a@, b@, a@.len() as int),
        count <= a@.len(),
{
    let mut count: usize = 0;
    let mut i: usize = 0;
    while i < a.len()
        invariant
            i <= a@.len(),
            a@.len() == b@.len(),
            count == differing(a@, b@, i as int),
            count <= i,
        decreases a.len() - i,
    {
        if a[i] ^ b[i] >= 1 {
            count += 1;
        }
        i += 1;
    }
    count
}

/// Copies `bits` with entry `index` flipped.
fn flip(bits: &Vec<u8>, index: usize) -> (changed: Vec<u8>)
    requires
        index < bits@.len(),
    ensures
        changed@ == flipped(bits@, index as int),
        is_bits(bits@) ==> is_bits(changed@),
{
    let mut changed: Vec<u8> = bits.clone();
    proof {
        assert(changed@ == bits@);
        lemma_xor_bit(bits@[index as int], 1, 0);
    }
    changed.set(index, bits[index] ^ 1);
    changed
}

/// Encrypts with each bit of the plaintext (of the key, if `in_key`) flipped
/// in turn, and counts over all flips the ciphertext bits that change. The
/// cipher has to be one whose width has its arithmetic.
pub fn avalanche_count<C: Cipher>(cipher: &C, plaintext: &Vec<u8>, key: &Vec<u8>, in_key: bool) -> (total: usize)
    requires
        cipher.wf(),
        cipher.supported(),
        is_element(plaintext@, cipher.width()),
        is_element(key@, cipher.width()),
        cipher.width() * cipher.width() <= usize::MAX,
    ensures
        total == avalanche(*cipher, plaintext@, key@, in_key, cipher.width() as int),
        total <= cipher.width() * cipher.width(),
{
    let ciphertext = cipher.encrypt(plaintext, key).unwrap();
    let width: usize = plaintext.len();
    let mut total: usize = 0;
    let mut i: usize = 0;
    while i < width
        invariant
            cipher.wf(),
            cipher.supported(),
            width == cipher.width(),
            is_element(plaintext@, cipher.width()),
            is_element(key@, cipher.width()),
            ciphertext@ == cipher.encrypted(plaintext@, key@),
            is_element(ciphertext@, cipher.width()),
            width * width <= usize::MAX,
            i <= width,
            total == avalanche(*cipher, plaintext@, key@, in_key, i as int),
            total <= i * width,
        decreases width - i,
    {
        let changed = if in_key {
            cipher.encrypt(plaintext, &flip(key, i)).unwrap()
        } else {
            cipher.encrypt(&flip(plaintext, i), key).unwrap()
        };
        let count: usize = count_differing(&changed, &ciphertext);
        proof {
            assert(i * width + width == (i + 1) * width) by (nonlinear_arith);
            assert((i + 1) * width <= width * width) by (nonlinear_arith)
                requires
                    i + 1 <= width,
            ;
        }
        total += count;
        i += 1;
    }
    proof {
        assert(i * width <= width * width) by (nonlinear_arith)
            requires
                i <= width,
        ;
    }
    total
}

/// Measures diffusion once: draws a key and a plaintext, flips each bit of the
/// plaintext in turn, and counts the ciphertext bits that change. The cipher
/// has to be one whose width has its arithmetic.
pub fn diffusion<C: Cipher>(cipher: &C, block_size: u32) -> (total: usize)
    requires
        cipher.wf(),
        cipher.supported(),
        block_size == cipher.width(),
        cipher.width() * cipher.width() <= usize::MAX,
    ensures
        total <= block_size * block_size,
        exists|plaintext: Seq<u8>, key: Seq<u8>|
            is_element(plaintext, cipher.width()) && is_element(key, cipher.width()) && total
                == avalanche(*cipher, plaintext, key, false, cipher.width() as int),
{
    let key = generate_random_bits(block_size);
    let plaintext = generate_random_bits(block_size);
    avalanche_count(cipher, &plaintext, &key, false)
}

/// Measures confusion once: draws a key and a plaintext, flips each bit of the
/// key in turn, and counts the ciphertext bits that change. The cipher has to
/// be one whose width has its arithmetic.
pub fn confusion<C: Cipher>(cipher: &C, block_size: u32) -> (total: usize)
    requires
        cipher.wf(),
        cipher.supported(),
        block_size == cipher.width(),
        cipher.width() * cipher.width() <= usize::MAX,
    ensures
        total <= block_size * block_size,
        exists|plaintext: Seq<u8>, key: Seq<u8>|
            is_element(plaintext, cipher.width()) && is_element(key, cipher.width()) && total
                == avalanche(*cipher, plaintext, key, true, cipher.width() as int),
{
    let key = generate_random_bits(block_size);
    let plaintext = generate_random_bits(block_size);
    avalanche_count(cipher, &plaintext, &key, true)
}

/// The byte whose bits, most significant first, are the lowest bits of the
/// first eight entries of `bits`.
pub open spec fn byte_of(bits: Seq<u8>) -> u8 {
    (bits[0] << 7) | (bits[1] << 6) | (bits[2] << 5) | (bits[3] << 4) | (bits[4] << 3) | (bits[5]
        << 2) | (bits[6] << 1) | bits[7]
}

/// Packs eight bits, most significant first, into a byte: the number that
/// they denote.
pub fn bits_to_byte(bits: &[u8]) -> (byte: u8)
    requires
        bits@.len() >= 8,
    ensures
        byte == byte_of(bits@),
        is_bits(bits@.take(8)) ==> byte == bits_to_nat(bits@.take(8)),
{
    proof {
        if is_bits(bits@.take(8)) {
            lemma_byte_of_bits(bits@.take(8));
        }
    }
    (bits[0] << 7) | (bits[1] << 6) | (bits[2] << 5) | (bits[3] << 4) | (bits[4] << 3) | (bits[5]
        << 2) | (bits[6] << 1) | bits[7]
}

/// Packs the first 32 bits of a field element into four bytes: byte `i` is
/// the number that bits `8i` to `8i + 7` denote.
pub fn to_32_bit(a: Vec<u8>) -> (bytes: [u8; 4])
    requires
        a@.len() >= 32,
    ensures
        forall|i: int| 0 <= i < 4 ==> bytes@[i] == byte_of(a@.subrange(8 * i, 8 * i + 8)),
        forall|i: int|
            0 <= i < 4 && is_bits(a@.subrange(8 * i, 8 * i + 8)) ==> bytes@[i] == bits_to_nat(
                #[trigger] a@.subrange(8 * i, 8 * i + 8),
            ),
{
    let s = a.as_slice();
    proof {
        assert forall|i: int| 0 <= i < 4 implies #[trigger] a@.subrange(8 * i, 8 * i + 8).take(8)
            == a@.subrange(8 * i, 8 * i + 8) by {
            assert(a@.subrange(8 * i, 8 * i + 8).take(8) =~= a@.subrange(8 * i, 8 * i + 8));
        }
    }
    [
        bits_to_byte(vstd::slice::slice_subrange(s, 0, 8)),
        bits_to_byte(vstd::slice::slice_subrange(s, 8, 16)),
        bits_to_byte(vstd::slice::slice_subrange(s, 16, 24)),
        bits_to_byte(vstd::slice::slice_subrange(s, 24, 32)),
    ]
}

/// For eight bits the packed byte is the number that they denote.
pub proof fn lemma_byte_of_bits(bits: Seq<u8>)
    requires
        is_element(bits, 8),
    ensures
        byte_of(bits) == bits_to_nat(bits),
{
    let b = |i: int| bits[i];
    assert(byte_of(bits) == 128 * b(0) + 64 * b(1) + 32 * b(2) + 16 * b(3) + 8 * b(4) + 4 * b(5)
        + 2 * b(6) + b(7)) by {
        lemma_packed(b(0), b(1), b(2), b(3), b(4), b(5), b(6), b(7));
    }
    let s7 = bits.drop_last();
    let s6 = s7.drop_last();
    let s5 = s6.drop_last();
    let s4 = s5.drop_last();
    let s3 = s4.drop_last();
    let s2 = s3.drop_last();
    let s1 = s2.drop_last();
    assert(bits_to_nat(s1.drop_last()) == 0);
    assert(bits_to_nat(s1) == b(0));
    assert(bits_to_nat(s2) == 2 * bits_to_nat(s1) + b(1));
    assert(bits_to_nat(s3) == 2 * bits_to_nat(s2) + b(2));
    assert(bits_to_nat(s4) == 2 * bits_to_nat(s3) + b(3));
    assert(bits_to_nat(s5) == 2 * bits_to_nat(s4) + b(4));
    assert(bits_to_nat(s6) == 2 * bits_to_nat(s5) + b(5));
    assert(bits_to_nat(s7) == 2 * bits_to_nat(s6) + b(6));
    assert(bits_to_nat(bits) == 2 * bits_to_nat(s7) + b(7));
}

proof fn lemma_packed(b0: u8, b1: u8, b2: u8, b3: u8, b4: u8, b5: u8, b6: u8, b7: u8)
    by (bit_vector)
    requires
        b0 <= 1,
        b1 <= 1,
        b2 <= 1,
        b3 <= 1,
        b4 <= 1,
        b5 <= 1,
        b6 <= 1,
        b7 <= 1,
    ensures
        (b0 << 7) | (b1 << 6) | (b2 << 5) | (b3 << 4) | (b4 << 3) | (b5 << 2) | (b6 << 1) | b7 == 128
            * b0 + 64 * b1 + 32 * b2 + 16 * b3 + 8 * b4 + 4 * b5 + 2 * b6 + b7,
{
}

/// Every entry is an element of the field of width `n`.
pub open spec fn all_elements(blocks: Seq<Vec<u8>>, n: nat) -> bool {
    forall|i: int| 0 <= i < blocks.len() ==> is_element(#[trigger] blocks[i]@, n)
}

/// Draws `count` random field elements of width `block_size`.
pub fn generate_samples(count: usize, block_size: u32) -> (samples: Vec<Vec<u8>>)
    ensures
        samples@.len() == count,
        all_elements(samples@, block_size as nat),
{
    let mut samples: Vec<Vec<u8>> = Vec::with_capacity(count);
    let mut i: usize = 0;
    while i < count
        invariant
            i <= count,
            samples@.len() == i,
            all_elements(samples@, block_size as nat),
        decreases count - i,
    {
        samples.push(generate_random_bits(block_size));
        i += 1;
    }
    samples
}

/// Encrypts each plaintext under the key, with a cipher whose width has its
/// arithmetic.
pub fn encryption<C: Cipher>(plaintexts: &Vec<Vec<u8>>, key: &Vec<u8>, cipher: &C) -> (ciphertexts:
    Vec<Vec<u8>>)
    requires
        cipher.wf(),
        cipher.supported(),
        is_element(key@, cipher.width()),
        all_elements(plaintexts@, cipher.width()),
    ensures
        ciphertexts@.len() == plaintexts@.len(),
        forall|i: int|
            0 <= i < plaintexts@.len() ==> #[trigger] ciphertexts@[i]@ == cipher.encrypted(
                plaintexts@[i]@,
                key@,
            ),
        all_elements(ciphertexts@, cipher.width()),
{
    let mut ciphertexts: Vec<Vec<u8>> = Vec::with_capacity(plaintexts.len());
    let mut i: usize = 0;
    while i < plaintexts.len()
        invariant
            cipher.wf(),
            cipher.supported(),
            is_element(key@, cipher.width()),
            all_elements(plaintexts@, cipher.width()),
            i <= plaintexts@.len(),
            ciphertexts@.len() == i,
            forall|j: int|
                0 <= j < i ==> #[trigger] ciphertexts@[j]@ == cipher.encrypted(
                    plaintexts@[j]@,
                    key@,
                ),
            all_elements(ciphertexts@, cipher.width()),
        decreases plaintexts.len() - i,
    {
        ciphertexts.push(cipher.encrypt(&plaintexts[i], key).unwrap());
        i += 1;
    }
    ciphertexts
}

/// Decrypts each ciphertext under the key, with a cipher whose width has its
/// arithmetic.
pub fn decryption<C: Cipher>(ciphertexts: &Vec<Vec<u8>>, key: &Vec<u8>, cipher: &C) -> (plaintexts:
    Vec<Vec<u8>>)
    requires
        cipher.wf(),
        cipher.supported(),
        is_element(key@, cipher.width()),
        all_elements(ciphertexts@, cipher.width()),
    ensures
        plaintexts@.len() == ciphertexts@.len(),
        forall|i: int|
            0 <= i < ciphertexts@.len() ==> #[trigger] plaintexts@[i]@ == cipher.decrypted(
                ciphertexts@[i]@,
                key@,
            ),
        all_elements(plaintexts@, cipher.width()),
{
    let mut plaintexts: Vec<Vec<u8>> = Vec::with_capacity(ciphertexts.len());
    let mut i: usize = 0;
    while i < ciphertexts.len()
        invariant
            cipher.wf(),
            cipher.supported(),
            is_element(key@, cipher.width()),
            all_elements(ciphertexts@, cipher.width()),
            i <= ciphertexts@.len(),
            plaintexts@.len() == i,
            forall|j: int|
                0 <= j < i ==> #[trigger] plaintexts@[j]@ == cipher.decrypted(
                    ciphertexts@[j]@,
                    key@,
                ),
            all_elements(plaintexts@, cipher.width()),
        decreases ciphertexts.len() - i,
    {
        plaintexts.push(cipher.decrypt(&ciphertexts[i], key).unwrap());
        i += 1;
    }
    plaintexts
}

} // verus!
