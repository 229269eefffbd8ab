//! Stretching a passphrase and a salt into a key.
//!
//! The key is the Argon2id hash, at the default cost, of the passphrase's
//! bytes under the salt's text. A salt is a short text over a small alphabet;
//! it is stored in the container as it is and handed to the hash as it is.

use vstd::prelude::*;
use vstd::string::StringSliceAdditionalSpecFns;
use crate::error::ShadowError;
use crate::text::utf8_text;
use crate::text::lemma_ascii_is_utf8;

verus! {

/// Number of bytes of a derived key.
pub const KEY_LEN: usize = 32;

/// A derived key.
pub type Key = [u8; 32];

/// Number of characters of a freshly generated salt.
pub const FRESH_SALT_LEN: usize = 22;

#[verifier::external_type_specification]
#[verifier::external_body]
pub struct ExHashError(argon2::Error);

#[verifier::external_type_specification]
#[verifier::external_body]
pub struct ExSaltError(argon2::password_hash::Error);

/// Whether `b` is a character of the salt alphabet: an ASCII letter, a
/// digit, or one of `/`, `+`, `.` and `-`.
pub open spec fn is_salt_byte(b: u8) -> bool {
    ||| 0x61 <= b <= 0x7a
    ||| 0x41 <= b <= 0x5a
    ||| 0x30 <= b <= 0x39
    ||| b == 0x2f
    ||| b == 0x2b
    ||| b == 0x2e
    ||| b == 0x2d
}

/// Whether `salt` is a salt text: 4 to 64 characters of the salt alphabet.
pub open spec fn is_salt_text(salt: Seq<u8>) -> bool {
    &&& 4 <= salt.len() <= 64
    &&& forall|i: int| 0 <= i < salt.len() ==> is_salt_byte(#[trigger] salt[i])
}

/// Whether a key can be derived under `salt`: it is a salt text of at least
/// 8 characters, the least that the hash takes.
pub open spec fn salt_accepted(salt: Seq<u8>) -> bool {
    is_salt_text(salt) && salt.len() >= 8
}

/// Whether a key can be derived from a passphrase of these bytes: the hash
/// takes at most 2^32 - 1 of them.
pub open spec fn password_accepted(password: Seq<u8>) -> bool {
    password.len() <= 0xffff_ffff
}

/// The Argon2id hash of `password` under `salt`: version 0x13, 19 MiB of
/// memory, 2 passes, 1 lane, 32 bytes of output, no secret, no associated data.
pub uninterp spec fn argon2id_key(password: Seq<u8>, salt: Seq<u8>) -> Seq<u8>;

/// The key derived from a passphrase and a salt, where there is one.
pub open spec fn derived_key(password: Seq<u8>, salt: Seq<u8>) -> Option<Seq<u8>> {
    if password_accepted(password) && salt_accepted(salt) {
        Some(argon2id_key(password, salt))
    } else {
        None
    }
}

/// Checks a salt text with `password_hash::SaltString::from_b64` and hands
/// back the bytes of the salt string it made.
///
/// Not proved: that the call accepts exactly the texts of 4 to 64 characters
/// of the salt alphabet, and that the salt string reads as the text given.
#[verifier::external_body]
fn checked_salt(text: &str) -> (r: Result<Vec<u8>, argon2::password_hash::Error>)
    ensures
        r is Ok <==> is_salt_text(text.spec_bytes()),
        r matches Ok(salt) ==> salt@ == text.spec_bytes(),
{
    let salt = argon2::password_hash::SaltString::from_b64(text)?;
    Ok(salt.as_str().as_bytes().to_vec())
}

/// Makes a salt with `password_hash::SaltString::generate` on the system's
/// random source.
///
/// Not proved: that every salt it makes has 22 characters of the salt
/// alphabet. Nothing is said of which salt comes out.
#[verifier::external_body]
fn fresh_salt() -> (salt: Vec<u8>)
    ensures
        salt@.len() == FRESH_SALT_LEN,
        is_salt_text(salt@),
{
    let salt = argon2::password_hash::SaltString::generate(
        &mut argon2::password_hash::rand_core::OsRng,
    );
    salt.as_str().as_bytes().to_vec()
}

/// Hashes with `argon2::Argon2::hash_password_into` on the default instance.
///
/// Not proved: that the call fails exactly when the password has more than
/// 2^32 - 1 bytes or the salt fewer than 8 or more than 2^32 - 1, and that
/// the 32 bytes it writes are the Argon2id hash named above.
#[verifier::external_body]
fn argon2id(password: &[u8], salt: &[u8]) -> (r: Result<Key, argon2::Error>)
    ensures
        r is Ok <==> (password@.len() <= 0xffff_ffff && 8 <= salt@.len() <= 0xffff_ffff),
        r matches Ok(key) ==> key@ == argon2id_key(password@, salt@),
{
    let mut key = [0u8; 32];
    argon2::Argon2::default().hash_password_into(password, salt, &mut key)?;
    Ok(key)
}

/// A salt text is well-formed UTF-8.
pub proof fn lemma_salt_text_is_utf8(salt: Seq<u8>)
    requires
        is_salt_text(salt),
    ensures
        vstd::utf8::valid_utf8(salt),
{
    assert forall|i: int| 0 <= i < salt.len() implies salt[i] < 128 by {
        assert(is_salt_byte(salt[i]));
    }
    lemma_ascii_is_utf8(salt);
}

/// Derives the 32-byte key for a passphrase and a salt.
///
/// The same passphrase and salt give the same key. The derivation is refused
/// when the salt is not a salt text of at least 8 characters, or when the
/// passphrase is longer than the hash takes.
pub fn derive_key(password: &str, salt: &[u8]) -> (r: Result<Key, ShadowError>)
    ensures
        match r {
            Ok(key) => derived_key(password.spec_bytes(), salt@) == Some(key@),
            Err(e) => e == ShadowError::Derivation && derived_key(password.spec_bytes(), salt@)
                is None,
        },
{
    let text = match utf8_text(salt) {
        Some(text) => text,
        None => {
            proof {
                if is_salt_text(salt@) {
                    lemma_salt_text_is_utf8(salt@);
                }
            }
            return Err(ShadowError::Derivation);
        },
    };
    let checked = match checked_salt(text) {
        Ok(checked) => checked,
        Err(_) => {
            return Err(ShadowError::Derivation);
        },
    };
    match argon2id(password.as_bytes(), checked.as_slice()) {
        Ok(key) => Ok(key),
        Err(_) => Err(ShadowError::Derivation),
    }
}

/// Makes a salt for one encryption. Every salt it makes is one under which
/// a key can be derived.
pub fn generate_salt() -> (salt: Vec<u8>)
    ensures
        salt@.len() == FRESH_SALT_LEN,
        salt_accepted(salt@),
{
    fresh_salt()
}

} // verus!
