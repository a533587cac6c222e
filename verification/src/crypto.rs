//! The platform cipher, hash and randomness primitives that the codec
//! consumes as black boxes: SHA-256, AES-256 in ECB and CBC modes (both
//! used raw, without padding — the padding rules of the file format are
//! implemented and verified in this crate), and a random byte source.
//!
//! Each digest or cipher result is a pure function of its arguments, so
//! it is given an opaque name here; the rest of the crate reasons in
//! terms of those names.

use vstd::prelude::*;

verus! {

/// The SHA-256 digest of `data`: 32 bytes, a function of `data` alone.
pub uninterp spec fn sha256_of(data: Seq<u8>) -> Seq<u8>;

/// The AES-256-ECB encryption of `data` (whole blocks, no padding)
/// under the 32-byte `key`.
pub uninterp spec fn aes_ecb_encrypt_of(key: Seq<u8>, data: Seq<u8>) -> Seq<u8>;

/// The AES-256-CBC encryption of `data` (whole blocks, no padding)
/// under the 32-byte `key` and 16-byte `iv`.
pub uninterp spec fn aes_cbc_encrypt_of(key: Seq<u8>, iv: Seq<u8>, data: Seq<u8>) -> Seq<u8>;

/// The AES-256-CBC decryption of `data` (whole blocks, no padding)
/// under the 32-byte `key` and 16-byte `iv`.
pub uninterp spec fn aes_cbc_decrypt_of(key: Seq<u8>, iv: Seq<u8>, data: Seq<u8>) -> Seq<u8>;

/// Relies on openssl::sha::sha256: the one-shot SHA-256 digest, which
/// returns exactly 32 bytes and depends on the input bytes alone.
#[verifier::external_body]
pub fn sha256(data: &[u8]) -> (r: Vec<u8>)
    ensures
        r@ == sha256_of(data@),
        r@.len() == 32,
{
    openssl::sha::sha256(data).to_vec()
}

/// Relies on openssl::symm::Crypter with Cipher::aes_256_ecb in
/// Encrypt mode and padding disabled: on whole blocks it produces a
/// ciphertext of the same length, a function of key and input alone.
/// `None` reports an error inside OpenSSL.
#[verifier::external_body]
pub fn aes256_ecb_encrypt(key: &[u8], data: &[u8]) -> (r: Option<Vec<u8>>)
    requires
        key@.len() == 32,
        data@.len() % 16 == 0,
        data@.len() < 0x4000_0000,
    ensures
        r matches Some(v) ==> v@ == aes_ecb_encrypt_of(key@, data@) && v@.len() == data@.len(),
{
    let mut c = openssl::symm::Crypter::new(
        openssl::symm::Cipher::aes_256_ecb(),
        openssl::symm::Mode::Encrypt,
        key,
        None,
    ).ok()?;
    c.pad(false);
    let mut out = vec![0u8; data.len() + 16];
    let n = c.update(data, &mut out).ok()?;
    let mut tail = vec![0u8; 16];
    let m = c.finalize(&mut tail).ok()?;
    out.truncate(n);
    out.extend_from_slice(&tail[..m]);
    Some(out)
}

/// Relies on openssl::symm::Crypter with Cipher::aes_256_cbc in
/// Encrypt mode and padding disabled: on whole blocks it produces a
/// ciphertext of the same length, a function of key, IV and input
/// alone; decrypting that ciphertext under the same key and IV gives
/// the input back (the round trip its documentation shows).
#[verifier::external_body]
pub fn aes256_cbc_encrypt(key: &[u8], iv: &[u8], data: &[u8]) -> (r: Option<Vec<u8>>)
    requires
        key@.len() == 32,
        iv@.len() == 16,
        data@.len() % 16 == 0,
        data@.len() < 0x4000_0000,
    ensures
        r matches Some(v) ==> v@ == aes_cbc_encrypt_of(key@, iv@, data@) && v@.len() == data@.len()
            && aes_cbc_decrypt_of(key@, iv@, v@) == data@,
{
    let mut c = openssl::symm::Crypter::new(
        openssl::symm::Cipher::aes_256_cbc(),
        openssl::symm::Mode::Encrypt,
        key,
        Some(iv),
    ).ok()?;
    c.pad(false);
    let mut out = vec![0u8; data.len() + 16];
    let n = c.update(data, &mut out).ok()?;
    let mut tail = vec![0u8; 16];
    let m = c.finalize(&mut tail).ok()?;
    out.truncate(n);
    out.extend_from_slice(&tail[..m]);
    Some(out)
}

/// Relies on openssl::symm::Crypter with Cipher::aes_256_cbc in
/// Decrypt mode and padding disabled: on whole blocks it produces a
/// plaintext of the same length, a function of key, IV and input alone.
#[verifier::external_body]
pub fn aes256_cbc_decrypt(key: &[u8], iv: &[u8], data: &[u8]) -> (r: Option<Vec<u8>>)
    requires
        key@.len() == 32,
        iv@.len() == 16,
        data@.len() % 16 == 0,
        data@.len() < 0x4000_0000,
    ensures
        r matches Some(v) ==> v@ == aes_cbc_decrypt_of(key@, iv@, data@)
            && v@.len() == data@.len(),
{
    let mut c = openssl::symm::Crypter::new(
        openssl::symm::Cipher::aes_256_cbc(),
        openssl::symm::Mode::Decrypt,
        key,
        Some(iv),
    ).ok()?;
    c.pad(false);
    let mut out = vec![0u8; data.len() + 16];
    let n = c.update(data, &mut out).ok()?;
    let mut tail = vec![0u8; 16];
    let m = c.finalize(&mut tail).ok()?;
    out.truncate(n);
    out.extend_from_slice(&tail[..m]);
    Some(out)
}

/// Relies on rand::random: a value drawn from the thread-local
/// generator; nothing can be promised of it.
pub assume_specification<T>[ rand::random::<T> ]() -> (r: T)
    where
        rand::distributions::Standard: rand::distributions::Distribution<T>,
;

/// Draws `n` random bytes, used for a fresh IV, seed, UUID or XOR mask.
pub fn random_bytes(n: usize) -> (r: Vec<u8>)
    ensures
        r@.len() == n,
{
    let mut v: Vec<u8> = Vec::new();
    while v.len() < n
        invariant
            v@.len() <= n,
        decreases n - v@.len(),
    {
        v.push(rand::random::<u8>());
    }
    v
}

} // verus!
