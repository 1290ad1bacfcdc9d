//! AES-128 behind the cipher interface, as a baseline to compare the MiMC
//! family with. Field elements of 128 bits are packed into 16 bytes, handed
//! to the `aes` crate, and unpacked again.

use crate::cipher::Cipher;
use crate::codec::{bits_to_nat, is_element, nat_to_bits, to_binary, to_decimal};
use crate::error::CipherError;
use aes::cipher::generic_array::GenericArray;
use aes::cipher::{BlockDecrypt, BlockEncrypt, KeyInit};
use aes::Aes128;
use vstd::arithmetic::power2::{lemma2_to64, lemma_pow2_unfold, pow2};
use vstd::prelude::*;
use vstd::slice::slice_subrange;

verus! {

/// What AES-128 makes of a 16-byte block under a 16-byte key.
pub uninterp spec fn aes128_block_encrypted(key: Seq<u8>, block: Seq<u8>) -> Seq<u8>;

/// What AES-128 decryption makes of a 16-byte block under a 16-byte key.
pub uninterp spec fn aes128_block_decrypted(key: Seq<u8>, block: Seq<u8>) -> Seq<u8>;

/// The 16 bytes that the first 128 entries of `bits` pack into: byte `i` is
/// the number that entries `8i` to `8i + 7` denote, modulo 256.
pub open spec fn packed_bytes(bits: Seq<u8>) -> Seq<u8> {
    Seq::new(16, |i: int| (bits_to_nat(bits.subrange(8 * i, 8 * i + 8)) % 256) as u8)
}

/// The 128 bits that the first 16 of `bytes` unpack into, each byte most
/// significant bit first.
pub open spec fn unpacked_bits(bytes: Seq<u8>) -> Seq<u8> {
    Seq::new(128, |j: int| nat_to_bits(bytes[j / 8] as nat, 8)[j % 8])
}

/// A sequence of bytes, read as digits to the base 2, denotes less than 255
/// times `2^len`.
proof fn lemma_digits_bound(s: Seq<u8>)
    ensures
        bits_to_nat(s) <= 255 * (pow2(s.len()) - 1),
    decreases s.len(),
{
    lemma2_to64();
    if s.len() > 0 {
        lemma_digits_bound(s.drop_last());
        lemma_pow2_unfold(s.len());
    }
}

/// AES-128 on one block, by the `aes` crate: `Aes128::new` on the key, then
/// `encrypt_block` in place on a copy of the block. The contract names the
/// result, which depends on key and block alone, and claims that it has 16
/// bytes, the size of the block type. Key and block must have 16 bytes each:
/// the conversions panic on any other length. None of this is proved.
#[verifier::external_body]
fn aes128_encrypt_block(key: &Vec<u8>, block: &Vec<u8>) -> (out: Vec<u8>)
    requires
        key@.len() == 16,
        block@.len() == 16,
    ensures
        out@ == aes128_block_encrypted(key@, block@),
        out@.len() == 16,
{
    let cipher = Aes128::new(GenericArray::from_slice(key.as_slice()));
    let mut buffer = GenericArray::clone_from_slice(block.as_slice());
    cipher.encrypt_block(&mut buffer);
    buffer.to_vec()
}

/// AES-128 decryption of one block, by the `aes` crate: `Aes128::new` on the
/// key, then `decrypt_block` in place on a copy of the block. The contract
/// names the result, which depends on key and block alone, and claims that it
/// has 16 bytes. Key and block must have 16 bytes each. None of this is
/// proved.
#[verifier::external_body]
fn aes128_decrypt_block(key: &Vec<u8>, block: &Vec<u8>) -> (out: Vec<u8>)
    requires
        key@.len() == 16,
        block@.len() == 16,
    ensures
        out@ == aes128_block_decrypted(key@, block@),
        out@.len() == 16,
{
    let cipher = Aes128::new(GenericArray::from_slice(key.as_slice()));
    let mut buffer = GenericArray::clone_from_slice(block.as_slice());
    cipher.decrypt_block(&mut buffer);
    buffer.to_vec()
}

/// Packs the first 128 entries of a bit sequence into 16 bytes.
pub fn to_u8_slices(elem: &Vec<u8>) -> (bytes: Vec<u8>)
    requires
        elem@.len() >= 128,
    ensures
        bytes@ == packed_bytes(elem@),
{
    let mut result: Vec<u8> = Vec::with_capacity(16);
    let mut i: usize = 0;
    while i < 16
        invariant
            i <= 16,
            elem@.len() >= 128,
            result@.len() == i,
            forall|k: int| 0 <= k < i ==> result@[k] == packed_bytes(elem@)[k],
        decreases 16 - i,
    {
        let group = slice_subrange(elem.as_slice(), i * 8, i * 8 + 8);
        proof {
            lemma_digits_bound(group@);
            lemma2_to64();
        }
        result.push((to_decimal(group) % 256) as u8);
        i += 1;
    }
    proof {
        assert(result@ =~= packed_bytes(elem@));
    }
    result
}

/// Unpacks the first 16 entries of a byte sequence into 128 bits.
pub fn from_u8_slices(elem: &Vec<u8>) -> (bits: Vec<u8>)
    requires
        elem@.len() >= 16,
    ensures
        bits@ == unpacked_bits(elem@),
        is_element(bits@, 128),
{
    let mut result: Vec<u8> = Vec::with_capacity(128);
    let mut i: usize = 0;
    while i < 16
        invariant
            i <= 16,
            elem@.len() >= 16,
            result@.len() == 8 * i,
            forall|j: int| 0 <= j < 8 * i ==> result@[j] == unpacked_bits(elem@)[j],
        decreases 16 - i,
    {
        let mut byte = to_binary(elem[i] as u128, 8);
        let ghost before = result@;
        result.append(&mut byte);
        proof {
            assert forall|j: int| 0 <= j < 8 * (i + 1) implies result@[j] == unpacked_bits(
                elem@,
            )[j] by {
                if j >= 8 * i {
                    assert(j / 8 == i as int);
                    assert(j % 8 == j - 8 * i);
                }
            }
        }
        i += 1;
    }
    proof {
        assert(result@ =~= unpacked_bits(elem@));
    }
    result
}

/// AES-128 as a cipher on field elements of 128 bits.
pub struct AES {}

impl Cipher for AES {
    open spec fn wf(&self) -> bool {
        true
    }

    open spec fn width(&self) -> nat {
        128
    }

    open spec fn supported(&self) -> bool {
        true
    }

    open spec fn encrypted(&self, plaintext: Seq<u8>, key: Seq<u8>) -> Seq<u8> {
        unpacked_bits(aes128_block_encrypted(packed_bytes(key), packed_bytes(plaintext)))
    }

    open spec fn decrypted(&self, ciphertext: Seq<u8>, key: Seq<u8>) -> Seq<u8> {
        unpacked_bits(aes128_block_decrypted(packed_bytes(key), packed_bytes(ciphertext)))
    }

    fn is_supported(&self) -> (ok: bool) {
        true
    }

    fn encrypt(&self, plaintext: &Vec<u8>, key: &Vec<u8>) -> (ciphertext: Result<
        Vec<u8>,
        CipherError,
    >) {
        let key_bytes = to_u8_slices(key);
        let block = to_u8_slices(plaintext);
        Ok(from_u8_slices(&aes128_encrypt_block(&key_bytes, &block)))
    }

    fn decrypt(&self, ciphertext: &Vec<u8>, key: &Vec<u8>) -> (plaintext: Result<
        Vec<u8>,
        CipherError,
    >) {
        let key_bytes = to_u8_slices(key);
        let block = to_u8_slices(ciphertext);
        Ok(from_u8_slices(&aes128_decrypt_block(&key_bytes, &block)))
    }
}

} // verus!
