//! Sealing data into a container and opening a container.

use vstd::prelude::*;
use vstd::string::StringSliceAdditionalSpecFns;
use crate::cipher::fresh_nonce;
use crate::cipher::open;
use crate::cipher::opened;
use crate::cipher::seal;
use crate::cipher::sealable;
use crate::cipher::sealed;
use crate::cipher::Nonce;
use crate::cipher::TAG_LEN;
use crate::container::decode_container;
use crate::container::decoded;
use crate::container::declared_salt_len;
use crate::container::encode_container;
use crate::container::encoding;
use crate::container::has_magic;
use crate::container::lemma_decode_encode;
use crate::container::lemma_encode_decode;
use crate::container::well_formed;
use crate::container::NONCE_LEN;
use crate::container::PREFIX_LEN;
use crate::error::ShadowError;
use crate::kdf::derive_key;
use crate::kdf::derived_key;
use crate::kdf::generate_salt;
use crate::kdf::password_accepted;
use crate::kdf::salt_accepted;
use crate::kdf::FRESH_SALT_LEN;

verus! {

/// The container that holds `data` sealed under the key derived from
/// `password` and `salt`, with `nonce`.
pub open spec fn sealed_container(
    data: Seq<u8>,
    password: Seq<u8>,
    salt: Seq<u8>,
    nonce: Seq<u8>,
) -> Seq<u8>
    recommends
        derived_key(password, salt) is Some,
{
    encoding(salt, nonce, sealed(derived_key(password, salt).unwrap(), nonce, data))
}

/// What opening `bytes` with `password` gives: the data, or the reason why
/// there is none. The layout is judged first, then the key is derived from
/// the salt in the container, then the ciphertext is opened.
pub open spec fn opened_container(bytes: Seq<u8>, password: Seq<u8>) -> Result<
    Seq<u8>,
    ShadowError,
> {
    if !well_formed(bytes) {
        Err(ShadowError::Format)
    } else {
        match derived_key(password, decoded(bytes).salt) {
            None => Err(ShadowError::Derivation),
            Some(key) => match opened(key, decoded(bytes).nonce, decoded(bytes).ciphertext) {
                None => Err(ShadowError::Authentication),
                Some(data) => Ok(data),
            },
        }
    }
}

/// Bytes without the marker, or whose length field declares more salt than
/// follows it, are refused for their format whatever the passphrase: neither
/// the key derivation nor the cipher has a say in it.
pub proof fn lemma_malformed_is_refused(bytes: Seq<u8>, password: Seq<u8>)
    requires
        !has_magic(bytes) || (bytes.len() >= PREFIX_LEN && declared_salt_len(bytes) > bytes.len()
            - PREFIX_LEN),
    ensures
        opened_container(bytes, password) == Err::<Seq<u8>, ShadowError>(ShadowError::Format),
{
}

/// Two containers made with different salts, or with different nonces,
/// differ, whatever they hold.
pub proof fn lemma_fresh_values_show(
    data1: Seq<u8>,
    data2: Seq<u8>,
    password: Seq<u8>,
    salt1: Seq<u8>,
    nonce1: Seq<u8>,
    salt2: Seq<u8>,
    nonce2: Seq<u8>,
)
    requires
        salt_accepted(salt1),
        salt_accepted(salt2),
        nonce1.len() == NONCE_LEN,
        nonce2.len() == NONCE_LEN,
        salt1 != salt2 || nonce1 != nonce2,
    ensures
        sealed_container(data1, password, salt1, nonce1) != sealed_container(
            data2,
            password,
            salt2,
            nonce2,
        ),
        decoded(sealed_container(data1, password, salt1, nonce1)).salt == salt1,
        decoded(sealed_container(data1, password, salt1, nonce1)).nonce == nonce1,
{
    let c1 = sealed(derived_key(password, salt1).unwrap(), nonce1, data1);
    let c2 = sealed(derived_key(password, salt2).unwrap(), nonce2, data2);
    lemma_decode_encode(salt1, nonce1, c1);
    lemma_decode_encode(salt2, nonce2, c2);
}

/// Seals `data` into a container under `password`, with the salt and the
/// nonce given.
///
/// The container opens, with the same passphrase, to `data`, and is longer
/// than `data` by the marker, the length field, the salt, the nonce and the
/// tag. The salt and the nonce must be fresh for every call: this function
/// takes them as they come and makes none itself.
pub fn seal_container(data: &[u8], password: &str, salt: &[u8], nonce: &Nonce) -> (r: Result<
    Vec<u8>,
    ShadowError,
>)
    ensures
        match r {
            Ok(bytes) => {
                &&& derived_key(password.spec_bytes(), salt@) is Some
                &&& sealable(data@.len())
                &&& bytes@ == sealed_container(data@, password.spec_bytes(), salt@, nonce@)
                &&& bytes@.len() == PREFIX_LEN + salt@.len() + NONCE_LEN + data@.len() + TAG_LEN
                &&& opened_container(bytes@, password.spec_bytes()) == Ok::<Seq<u8>, ShadowError>(
                    data@,
                )
            },
            Err(e) => if derived_key(password.spec_bytes(), salt@) is None {
                e == ShadowError::Derivation
            } else {
                e == ShadowError::Io && !sealable(data@.len())
            },
        },
{
    let key = match derive_key(password, salt) {
        Ok(key) => key,
        Err(e) => {
            return Err(e);
        },
    };
    let ciphertext = match seal(&key, nonce, data) {
        Ok(ciphertext) => ciphertext,
        Err(e) => {
            return Err(e);
        },
    };
    let bytes = encode_container(salt, nonce, ciphertext.as_slice());
    proof {
        lemma_decode_encode(salt@, nonce@, ciphertext@);
    }
    Ok(bytes)
}

/// Seals `data` into a container under `password`, with a salt and a nonce
/// made for this call.
///
/// The container opens, with the same passphrase, to `data`. It is refused
/// only where the passphrase or the data is longer than the key derivation
/// or the cipher takes.
pub fn encrypt_data(data: &[u8], password: &str) -> (r: Result<Vec<u8>, ShadowError>)
    ensures
        match r {
            Ok(bytes) => {
                &&& password_accepted(password.spec_bytes())
                &&& sealable(data@.len())
                &&& bytes@.len() == PREFIX_LEN + FRESH_SALT_LEN + NONCE_LEN + data@.len()
                    + TAG_LEN
                &&& opened_container(bytes@, password.spec_bytes()) == Ok::<Seq<u8>, ShadowError>(
                    data@,
                )
                &&& exists|salt: Seq<u8>, nonce: Seq<u8>|
                    {
                        &&& salt.len() == FRESH_SALT_LEN
                        &&& salt_accepted(salt)
                        &&& nonce.len() == NONCE_LEN
                        &&& bytes@ == #[trigger] sealed_container(
                            data@,
                            password.spec_bytes(),
                            salt,
                            nonce,
                        )
                    }
            },
            Err(e) => if !password_accepted(password.spec_bytes()) {
                e == ShadowError::Derivation
            } else {
                e == ShadowError::Io && !sealable(data@.len())
            },
        },
{
    let salt = generate_salt();
    let nonce = fresh_nonce();
    seal_container(data, password, salt.as_slice(), &nonce)
}

/// Opens the container `bytes` with `password`.
///
/// Bytes that are not laid out as a container are refused before any key is
/// derived. What comes back is the data that was sealed, whole, or an error:
/// a container is the sealing of the data it opens to, under its own salt
/// and nonce.
pub fn decrypt_data(bytes: &[u8], password: &str) -> (r: Result<Vec<u8>, ShadowError>)
    ensures
        match r {
            Ok(data) => {
                &&& opened_container(bytes@, password.spec_bytes()) == Ok::<Seq<u8>, ShadowError>(
                    data@,
                )
                &&& bytes@ == sealed_container(
                    data@,
                    password.spec_bytes(),
                    decoded(bytes@).salt,
                    decoded(bytes@).nonce,
                )
            },
            Err(e) => opened_container(bytes@, password.spec_bytes()) == Err::<
                Seq<u8>,
                ShadowError,
            >(e),
        },
{
    let container = match decode_container(bytes) {
        Ok(container) => container,
        Err(e) => {
            return Err(e);
        },
    };
    let key = match derive_key(password, container.salt.as_slice()) {
        Ok(key) => key,
        Err(e) => {
            return Err(e);
        },
    };
    match open(&key, &container.nonce, container.ciphertext.as_slice()) {
        Ok(data) => {
            proof {
                lemma_encode_decode(bytes@);
            }
            Ok(data)
        },
        Err(e) => Err(e),
    }
}

} // verus!
