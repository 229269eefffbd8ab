//! Sealing and opening a message under a key and a nonce.
//!
//! The cipher is XChaCha20-Poly1305 without associated data. A sealed
//! message is the encrypted message followed by a 16-byte tag; it opens only
//! under the key and the nonce it was sealed with, and then to the message.

use vstd::prelude::*;
use chacha20poly1305::aead::Aead;
use chacha20poly1305::KeyInit;
use rand::RngCore;
use crate::error::ShadowError;
use crate::kdf::Key;

verus! {

/// Number of bytes of the authentication tag.
pub const TAG_LEN: usize = 16;

/// A nonce: 24 bytes, never used twice under one key.
pub type Nonce = [u8; 24];

#[verifier::external_type_specification]
#[verifier::external_body]
pub struct ExCipherError(chacha20poly1305::Error);

/// Whether the cipher takes a message of `len` bytes: one of fewer than
/// 2^32 - 1 whole blocks of 64 bytes.
pub open spec fn sealable(len: nat) -> bool {
    len / 64 < 0xffff_ffff
}

/// The XChaCha20-Poly1305 encryption of `plaintext` under `key` and `nonce`
/// with no associated data: the encrypted bytes, then the tag.
pub uninterp spec fn sealed(key: Seq<u8>, nonce: Seq<u8>, plaintext: Seq<u8>) -> Seq<u8>;

/// What XChaCha20-Poly1305 decryption under `key` and `nonce` with no
/// associated data makes of `ciphertext`: the plaintext, or nothing where the
/// tag does not verify.
pub uninterp spec fn opened(key: Seq<u8>, nonce: Seq<u8>, ciphertext: Seq<u8>) -> Option<Seq<u8>>;

/// Encrypts with `Aead::encrypt` of `chacha20poly1305::XChaCha20Poly1305`.
///
/// Not proved: that the call fails exactly on a message of 2^32 - 1 blocks
/// or more; that its result is the encryption named above, 16 bytes longer
/// than the message; and that decryption under the same key and nonce gives
/// the message back.
#[verifier::external_body]
fn aead_encrypt(key: &Key, nonce: &Nonce, plaintext: &[u8]) -> (r: Result<
    Vec<u8>,
    chacha20poly1305::Error,
>)
    ensures
        r is Ok <==> sealable(plaintext@.len()),
        r matches Ok(c) ==> (c@ == sealed(key@, nonce@, plaintext@)),
        r matches Ok(c) ==> (c@.len() == plaintext@.len() + TAG_LEN),
        r matches Ok(c) ==> (opened(key@, nonce@, c@) == Some(plaintext@)),
{
    let cipher = chacha20poly1305::XChaCha20Poly1305::new(key.into());
    let payload = chacha20poly1305::aead::Payload { msg: plaintext, aad: &[] };
    cipher.encrypt(chacha20poly1305::XNonce::from_slice(nonce), payload)
}

/// Decrypts with `Aead::decrypt` of `chacha20poly1305::XChaCha20Poly1305`.
///
/// Not proved: that its result is the decryption named above, and that the
/// call succeeds only on a ciphertext that is the encryption, under this key
/// and nonce, of the plaintext it returns. The second holds because the call
/// recomputes the tag over the encrypted bytes and applies the same key
/// stream that encryption applied.
#[verifier::external_body]
fn aead_decrypt(key: &Key, nonce: &Nonce, ciphertext: &[u8]) -> (r: Result<
    Vec<u8>,
    chacha20poly1305::Error,
>)
    ensures
        r is Ok <==> opened(key@, nonce@, ciphertext@) is Some,
        r matches Ok(p) ==> (opened(key@, nonce@, ciphertext@) == Some(p@)),
        r matches Ok(p) ==> (sealable(p@.len()) && ciphertext@ == sealed(key@, nonce@, p@)),
{
    let cipher = chacha20poly1305::XChaCha20Poly1305::new(key.into());
    let payload = chacha20poly1305::aead::Payload { msg: ciphertext, aad: &[] };
    cipher.decrypt(chacha20poly1305::XNonce::from_slice(nonce), payload)
}

/// Fills a nonce with `RngCore::fill_bytes` on the system's random source.
/// Nothing is said of which nonce comes out.
#[verifier::external_body]
pub(crate) fn fresh_nonce() -> (nonce: Nonce) {
    let mut nonce = [0u8; 24];
    argon2::password_hash::rand_core::OsRng.fill_bytes(&mut nonce);
    nonce
}

/// Seals `plaintext` under `key` and `nonce`.
///
/// The result is longer than the plaintext by the tag, and opens, under the
/// same key and nonce, to the plaintext. A message too long for the cipher is
/// refused.
pub fn seal(key: &Key, nonce: &Nonce, plaintext: &[u8]) -> (r: Result<Vec<u8>, ShadowError>)
    ensures
        match r {
            Ok(c) => {
                &&& sealable(plaintext@.len())
                &&& c@ == sealed(key@, nonce@, plaintext@)
                &&& c@.len() == plaintext@.len() + TAG_LEN
                &&& opened(key@, nonce@, c@) == Some(plaintext@)
            },
            Err(e) => e == ShadowError::Io && !sealable(plaintext@.len()),
        },
{
    match aead_encrypt(key, nonce, plaintext) {
        Ok(c) => Ok(c),
        Err(_) => Err(ShadowError::Io),
    }
}

/// Opens `ciphertext` under `key` and `nonce`.
///
/// Either the whole plaintext comes back or none of it: whatever stops the
/// tag from verifying, a wrong key, a wrong nonce or changed bytes, gives the
/// same error. What opens is the sealing of the plaintext it opens to.
pub fn open(key: &Key, nonce: &Nonce, ciphertext: &[u8]) -> (r: Result<Vec<u8>, ShadowError>)
    ensures
        match r {
            Ok(p) => {
                &&& opened(key@, nonce@, ciphertext@) == Some(p@)
                &&& sealable(p@.len())
                &&& ciphertext@ == sealed(key@, nonce@, p@)
            },
            Err(e) => e == ShadowError::Authentication && opened(key@, nonce@, ciphertext@)
                is None,
        },
{
    match aead_decrypt(key, nonce, ciphertext) {
        Ok(p) => Ok(p),
        Err(_) => Err(ShadowError::Authentication),
    }
}

} // verus!
