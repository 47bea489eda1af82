//! The trusted boundary to the outside cryptography and compression crates.
//!
//! Each wrapper is believed, not verified: its contract states only what the
//! called crate's own source and documentation show.  Results that would take
//! pages to state exactly (a digest, a ciphertext, a compressed image, a
//! derived key) are given names — uninterpreted functions of the arguments —
//! and the verified code reasons over those names.
use vstd::prelude::*;

use crate::errors::RepoError;

verus! {

/// The SHA-256 digest of `data`.
pub uninterp spec fn digest_of(data: Seq<u8>) -> Seq<u8>;

/// The XChaCha20-Poly1305 ciphertext (with tag) of `pt` under `key` and `nonce`.
pub uninterp spec fn seal_of(key: Seq<u8>, nonce: Seq<u8>, pt: Seq<u8>) -> Seq<u8>;

/// The deflate image of `data` at compression `level`.
pub uninterp spec fn deflate_of(data: Seq<u8>, level: u8) -> Seq<u8>;

/// The Argon2id key derived from `secret` and `salt` at the given costs.
pub uninterp spec fn kdf_of(secret: Seq<u8>, salt: Seq<u8>, m_cost: u32, t_cost: u32) -> Seq<u8>;

/// Relies on sha2::Sha256 (the Digest trait): the 32-byte digest is a
/// function of the input bytes alone.
#[verifier::external_body]
pub fn digest32(data: &[u8]) -> (r: Vec<u8>)
    ensures
        r@ == digest_of(data@),
        r@.len() == 32,
{
    <sha2::Sha256 as sha2::Digest>::digest(data).to_vec()
}

/// Relies on chacha20poly1305::XChaCha20Poly1305 (aead::Aead::encrypt): for a
/// fixed key and nonce the ciphertext is a function of the plaintext alone.
#[verifier::external_body]
pub fn aead_seal(key: &[u8], nonce: &[u8], pt: &[u8]) -> (r: Result<Vec<u8>, RepoError>)
    requires
        key@.len() == 32,
        nonce@.len() == 24,
    ensures
        r matches Ok(ct) ==> ct@ == seal_of(key@, nonce@, pt@),
{
    let cipher = <chacha20poly1305::XChaCha20Poly1305 as chacha20poly1305::KeyInit>::
        new_from_slice(key).map_err(|_| RepoError::Backend)?;
    let n = chacha20poly1305::XNonce::try_from(nonce).map_err(|_| RepoError::Backend)?;
    chacha20poly1305::aead::Aead::encrypt(&cipher, &n, pt).map_err(|_| RepoError::Backend)
}

/// What `aead_open` returns on every ciphertext that is a sealed image:
/// success, carrying exactly the plaintext that was sealed.
pub open spec fn opens_sealed_images(
    key: Seq<u8>,
    nonce: Seq<u8>,
    ct: Seq<u8>,
    r: Result<Vec<u8>, RepoError>,
) -> bool {
    forall|p: Seq<u8>| ct == seal_of(key, nonce, p) ==> (r matches Ok(v) && v@ == p)
}

/// Relies on chacha20poly1305::XChaCha20Poly1305 (aead::Aead::decrypt): the
/// stream cipher makes sealing injective for a fixed key and nonce, the tag
/// check accepts exactly the sealed images, and decryption inverts sealing —
/// so a success returns exactly the plaintext this ciphertext was sealed
/// from, and anything else fails the authentication check.
#[verifier::external_body]
pub fn aead_open(key: &[u8], nonce: &[u8], ct: &[u8]) -> (r: Result<Vec<u8>, RepoError>)
    requires
        key@.len() == 32,
        nonce@.len() == 24,
    ensures
        opens_sealed_images(key@, nonce@, ct@, r),
        r matches Ok(v) ==> ct@ == seal_of(key@, nonce@, v@),
        r matches Err(e) ==> e == RepoError::AuthenticationFailure,
{
    let cipher = <chacha20poly1305::XChaCha20Poly1305 as chacha20poly1305::KeyInit>::
        new_from_slice(key).map_err(|_| RepoError::AuthenticationFailure)?;
    let n = chacha20poly1305::XNonce::try_from(nonce)
        .map_err(|_| RepoError::AuthenticationFailure)?;
    chacha20poly1305::aead::Aead::decrypt(&cipher, &n, ct)
        .map_err(|_| RepoError::AuthenticationFailure)
}

/// Relies on miniz_oxide::deflate::compress_to_vec: the compressed image is a
/// function of the input bytes and the level alone.
#[verifier::external_body]
pub fn deflate(data: &[u8], level: u8) -> (r: Vec<u8>)
    ensures
        r@ == deflate_of(data@, level),
{
    miniz_oxide::deflate::compress_to_vec(data, level)
}

/// What `inflate` returns on every compressed image: success, carrying
/// exactly the bytes that were compressed.
pub open spec fn inflates_images(data: Seq<u8>, r: Result<Vec<u8>, RepoError>) -> bool {
    forall|p: Seq<u8>, l: u8| data == deflate_of(p, l) ==> (r matches Ok(v) && v@ == p)
}

/// Relies on miniz_oxide::inflate::decompress_to_vec: deflate compression is
/// lossless, so every compressed image decompresses back to its exact input.
#[verifier::external_body]
pub fn inflate(data: &[u8]) -> (r: Result<Vec<u8>, RepoError>)
    ensures
        inflates_images(data@, r),
        r matches Err(e) ==> e == RepoError::Corruption,
{
    miniz_oxide::inflate::decompress_to_vec(data).map_err(|_| RepoError::Corruption)
}

/// Relies on argon2::Argon2::hash_password_into (Argon2id, version 0x13, one
/// lane): the 32-byte output is a function of the password, the salt and the
/// cost parameters alone.  Under the bounds below every parameter is within
/// argon2's documented limits, so the derivation succeeds (allocation
/// failure aside, as everywhere in this crate).
#[verifier::external_body]
pub fn kdf_derive(secret: &[u8], salt: &[u8], m_cost: u32, t_cost: u32) -> (r: Result<
    Vec<u8>,
    RepoError,
>)
    requires
        8 <= m_cost,
        1 <= t_cost,
        salt@.len() == 16,
        secret@.len() <= u32::MAX,
    ensures
        r matches Ok(k) ==> k@ == kdf_of(secret@, salt@, m_cost, t_cost) && k@.len() == 32,
        r is Ok,
{
    let params = argon2::Params::new(m_cost, t_cost, 1, Some(32))
        .map_err(|_| RepoError::Backend)?;
    let a = argon2::Argon2::new(argon2::Algorithm::Argon2id, argon2::Version::V0x13, params);
    let mut out = [0u8; 32];
    a.hash_password_into(secret, salt, &mut out).map_err(|_| RepoError::Backend)?;
    Ok(out.to_vec())
}

/// Relies on getrandom::fill: on success the buffer holds `n` bytes from the
/// operating system's randomness source; nothing else is promised of them.
#[verifier::external_body]
pub fn random_bytes(n: usize) -> (r: Result<Vec<u8>, RepoError>)
    ensures
        r matches Ok(v) ==> v@.len() == n,
{
    let mut v = vec![0u8; n];
    getrandom::fill(&mut v).map_err(|_| RepoError::Backend)?;
    Ok(v)
}

} // verus!
