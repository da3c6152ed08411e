//! The block ciphers and digests that the protocol is built on.  The AES-128
//! block function and SHA-1 come from the `aes` and `sha1` crates; Verus only
//! sees their results through the names below.

use aes::cipher::generic_array::GenericArray;
use aes::cipher::{BlockDecrypt, BlockEncrypt, KeyInit};
use aes::Aes128;
use sha1::{Digest, Sha1};
use vstd::prelude::*;

verus! {

/// AES-128 encryption of one 16-byte block under a 16-byte key.
pub uninterp spec fn aes128_encrypt_spec(key: Seq<u8>, block: Seq<u8>) -> Seq<u8>;

/// AES-128 decryption of one 16-byte block under a 16-byte key.
pub uninterp spec fn aes128_decrypt_spec(key: Seq<u8>, block: Seq<u8>) -> Seq<u8>;

/// The AES-128 encryption of a block as the 16-byte block it is.
pub open spec fn aes_block_encrypt(key: Seq<u8>, block: Seq<u8>) -> Seq<u8> {
    Seq::new(16, |i: int| aes128_encrypt_spec(key, block)[i])
}

/// The AES-128 decryption of a block as the 16-byte block it is.
pub open spec fn aes_block_decrypt(key: Seq<u8>, block: Seq<u8>) -> Seq<u8> {
    Seq::new(16, |i: int| aes128_decrypt_spec(key, block)[i])
}

/// SHA-1 digest of a byte string.
pub uninterp spec fn sha1_spec(data: Seq<u8>) -> Seq<u8>;

/// Encrypts one block with `aes::Aes128` (`KeyInit::new`, then
/// `BlockEncrypt::encrypt_block`).  Claims: the result is the AES-128
/// encryption of `block` under `key`, and decrypting it under the same key
/// gives `block` back (AES is a permutation for each key, as the crate's
/// documentation shows with its encrypt/decrypt round trip).
#[verifier::external_body]
pub(crate) fn aes128_encrypt_block(key: &[u8], block: &[u8]) -> (out: [u8; 16])
    requires
        key@.len() == 16,
        block@.len() == 16,
    ensures
        out@ == aes128_encrypt_spec(key@, block@),
        aes128_decrypt_spec(key@, out@) == block@,
{
    let cipher = Aes128::new(GenericArray::from_slice(key));
    let mut b = GenericArray::clone_from_slice(block);
    cipher.encrypt_block(&mut b);
    b.into()
}

/// Decrypts one block with `aes::Aes128` (`KeyInit::new`, then
/// `BlockDecrypt::decrypt_block`).  Claims: the result is the AES-128
/// decryption of `block` under `key`, and encrypting it under the same key
/// gives `block` back.
#[verifier::external_body]
pub(crate) fn aes128_decrypt_block(key: &[u8], block: &[u8]) -> (out: [u8; 16])
    requires
        key@.len() == 16,
        block@.len() == 16,
    ensures
        out@ == aes128_decrypt_spec(key@, block@),
        aes128_encrypt_spec(key@, out@) == block@,
{
    let cipher = Aes128::new(GenericArray::from_slice(key));
    let mut b = GenericArray::clone_from_slice(block);
    cipher.decrypt_block(&mut b);
    b.into()
}

/// Hashes `data` with `sha1::Sha1` (`Digest::digest`).  Claims: the result is
/// the SHA-1 digest of `data`.
#[verifier::external_body]
pub(crate) fn sha1_digest(data: &[u8]) -> (out: [u8; 20])
    ensures
        out@ == sha1_spec(data@),
{
    Sha1::digest(data).into()
}

} // verus!
