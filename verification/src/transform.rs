//! The raw single-block cipher transform: AES on 16-byte blocks, provided by
//! the `aes` crate and trusted at this interface. The key length (16, 24 or
//! 32 bytes) selects AES-128, AES-192 or AES-256; every variant operates on
//! 16-byte blocks.

use vstd::prelude::*;
use aes::cipher::{BlockCipherDecrypt, BlockCipherEncrypt, KeyInit};

verus! {

/// What AES-128 encryption of one 16-byte block returns: a function of the
/// key and block bytes alone.
pub uninterp spec fn aes128_enc(key: Seq<u8>, block: Seq<u8>) -> Seq<u8>;

/// What AES-128 decryption of one 16-byte block returns.
pub uninterp spec fn aes128_dec(key: Seq<u8>, block: Seq<u8>) -> Seq<u8>;

/// What AES-192 encryption of one 16-byte block returns.
pub uninterp spec fn aes192_enc(key: Seq<u8>, block: Seq<u8>) -> Seq<u8>;

/// What AES-192 decryption of one 16-byte block returns.
pub uninterp spec fn aes192_dec(key: Seq<u8>, block: Seq<u8>) -> Seq<u8>;

/// What AES-256 encryption of one 16-byte block returns.
pub uninterp spec fn aes256_enc(key: Seq<u8>, block: Seq<u8>) -> Seq<u8>;

/// What AES-256 decryption of one 16-byte block returns.
pub uninterp spec fn aes256_dec(key: Seq<u8>, block: Seq<u8>) -> Seq<u8>;

/// Single-block encryption under whichever AES variant the key length
/// selects (16 bytes unless the key says otherwise).
pub open spec fn enc_block(key: Seq<u8>, block: Seq<u8>) -> Seq<u8> {
    if key.len() == 24 {
        aes192_enc(key, block)
    } else if key.len() == 32 {
        aes256_enc(key, block)
    } else {
        aes128_enc(key, block)
    }
}

/// Single-block decryption under whichever AES variant the key length
/// selects.
pub open spec fn dec_block(key: Seq<u8>, block: Seq<u8>) -> Seq<u8> {
    if key.len() == 24 {
        aes192_dec(key, block)
    } else if key.len() == 32 {
        aes256_dec(key, block)
    } else {
        aes128_dec(key, block)
    }
}

/// Relies on `aes::Aes128` (`cipher::BlockCipherEncrypt::encrypt_block`): a
/// deterministic permutation of 16-byte blocks for a fixed 16-byte key, whose
/// inverse is AES-128 decryption under the same key.
#[verifier::external_body]
fn aes128_encrypt_block(key: &[u8], block: &[u8]) -> (r: Vec<u8>)
    requires
        key@.len() == 16,
        block@.len() == 16,
    ensures
        r@ == aes128_enc(key@, block@),
        r@.len() == 16,
        aes128_dec(key@, r@) == block@,
{
    let cipher = aes::Aes128::new_from_slice(key).expect("key is 16 bytes");
    let mut blk = aes::Block::try_from(block).expect("block is 16 bytes");
    cipher.encrypt_block(&mut blk);
    blk.as_slice().to_vec()
}

/// Relies on `aes::Aes128` (`cipher::BlockCipherDecrypt::decrypt_block`): the
/// inverse of AES-128 encryption under the same key.
#[verifier::external_body]
fn aes128_decrypt_block(key: &[u8], block: &[u8]) -> (r: Vec<u8>)
    requires
        key@.len() == 16,
        block@.len() == 16,
    ensures
        r@ == aes128_dec(key@, block@),
        r@.len() == 16,
        aes128_enc(key@, r@) == block@,
{
    let cipher = aes::Aes128::new_from_slice(key).expect("key is 16 bytes");
    let mut blk = aes::Block::try_from(block).expect("block is 16 bytes");
    cipher.decrypt_block(&mut blk);
    blk.as_slice().to_vec()
}

/// Relies on `aes::Aes192` (`cipher::BlockCipherEncrypt::encrypt_block`): a
/// deterministic permutation of 16-byte blocks for a fixed 24-byte key, whose
/// inverse is AES-192 decryption under the same key.
#[verifier::external_body]
fn aes192_encrypt_block(key: &[u8], block: &[u8]) -> (r: Vec<u8>)
    requires
        key@.len() == 24,
        block@.len() == 16,
    ensures
        r@ == aes192_enc(key@, block@),
        r@.len() == 16,
        aes192_dec(key@, r@) == block@,
{
    let cipher = aes::Aes192::new_from_slice(key).expect("key is 24 bytes");
    let mut blk = aes::Block::try_from(block).expect("block is 16 bytes");
    cipher.encrypt_block(&mut blk);
    blk.as_slice().to_vec()
}

/// Relies on `aes::Aes192` (`cipher::BlockCipherDecrypt::decrypt_block`): the
/// inverse of AES-192 encryption under the same key.
#[verifier::external_body]
fn aes192_decrypt_block(key: &[u8], block: &[u8]) -> (r: Vec<u8>)
    requires
        key@.len() == 24,
        block@.len() == 16,
    ensures
        r@ == aes192_dec(key@, block@),
        r@.len() == 16,
        aes192_enc(key@, r@) == block@,
{
    let cipher = aes::Aes192::new_from_slice(key).expect("key is 24 bytes");
    let mut blk = aes::Block::try_from(block).expect("block is 16 bytes");
    cipher.decrypt_block(&mut blk);
    blk.as_slice().to_vec()
}

/// Relies on `aes::Aes256` (`cipher::BlockCipherEncrypt::encrypt_block`): a
/// deterministic permutation of 16-byte blocks for a fixed 32-byte key, whose
/// inverse is AES-256 decryption under the same key.
#[verifier::external_body]
fn aes256_encrypt_block(key: &[u8], block: &[u8]) -> (r: Vec<u8>)
    requires
        key@.len() == 32,
        block@.len() == 16,
    ensures
        r@ == aes256_enc(key@, block@),
        r@.len() == 16,
        aes256_dec(key@, r@) == block@,
{
    let cipher = aes::Aes256::new_from_slice(key).expect("key is 32 bytes");
    let mut blk = aes::Block::try_from(block).expect("block is 16 bytes");
    cipher.encrypt_block(&mut blk);
    blk.as_slice().to_vec()
}

/// Relies on `aes::Aes256` (`cipher::BlockCipherDecrypt::decrypt_block`): the
/// inverse of AES-256 encryption under the same key.
#[verifier::external_body]
fn aes256_decrypt_block(key: &[u8], block: &[u8]) -> (r: Vec<u8>)
    requires
        key@.len() == 32,
        block@.len() == 16,
    ensures
        r@ == aes256_dec(key@, block@),
        r@.len() == 16,
        aes256_enc(key@, r@) == block@,
{
    let cipher = aes::Aes256::new_from_slice(key).expect("key is 32 bytes");
    let mut blk = aes::Block::try_from(block).expect("block is 16 bytes");
    cipher.decrypt_block(&mut blk);
    blk.as_slice().to_vec()
}

/// Encrypts one 16-byte block with the AES variant the key length selects.
pub(crate) fn aes_encrypt(key: &[u8], block: &[u8]) -> (r: Vec<u8>)
    requires
        key@.len() == 16 || key@.len() == 24 || key@.len() == 32,
        block@.len() == 16,
    ensures
        r@ == enc_block(key@, block@),
        r@.len() == 16,
        dec_block(key@, r@) == block@,
{
    if key.len() == 24 {
        aes192_encrypt_block(key, block)
    } else if key.len() == 32 {
        aes256_encrypt_block(key, block)
    } else {
        aes128_encrypt_block(key, block)
    }
}

/// Decrypts one 16-byte block with the AES variant the key length selects.
pub(crate) fn aes_decrypt(key: &[u8], block: &[u8]) -> (r: Vec<u8>)
    requires
        key@.len() == 16 || key@.len() == 24 || key@.len() == 32,
        block@.len() == 16,
    ensures
        r@ == dec_block(key@, block@),
        r@.len() == 16,
        enc_block(key@, r@) == block@,
{
    if key.len() == 24 {
        aes192_decrypt_block(key, block)
    } else if key.len() == 32 {
        aes256_decrypt_block(key, block)
    } else {
        aes128_decrypt_block(key, block)
    }
}

} // verus!
