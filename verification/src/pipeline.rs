//! From a tree to a container, and from a container to a tree.
//!
//! Encrypting packs the tree and seals the archive; decrypting opens the
//! container and unpacks the archive. Every step runs to its end before the
//! next begins, and the first failure ends the whole: it is handed on as it
//! is, and nothing of what was made so far is.

use vstd::prelude::*;
use vstd::string::StringSliceAdditionalSpecFns;
use crate::archive::archivable;
use crate::archive::archived;
use crate::archive::create_archive;
use crate::archive::entry_views;
use crate::archive::packed;
use crate::archive::unpack_archive;
use crate::archive::unpacked;
use crate::archive::Entry;
use crate::archive::EntryView;
use crate::cipher::sealable;
use crate::cipher::TAG_LEN;
use crate::container::NONCE_LEN;
use crate::container::PREFIX_LEN;
use crate::kdf::FRESH_SALT_LEN;
use crate::crypto::decrypt_data;
use crate::crypto::encrypt_data;
use crate::crypto::opened_container;
use crate::error::ShadowError;
use crate::kdf::password_accepted;
use crate::path::components;
use crate::path::container_suffix;
use crate::path::default_container_name;
use crate::path::excluded;
use crate::path::is_container_name;
use crate::path::is_valid_component;
use crate::path::valid_component;

verus! {

/// The place of the container of the folder at `root` when none is chosen:
/// inside the folder, under the folder's name with `.shadow` after it.
pub open spec fn default_output(root: Seq<Seq<u8>>) -> Seq<Seq<u8>>
    recommends
        root.len() >= 1,
{
    root.push(root.last() + container_suffix())
}

/// What decrypting `bytes` with `password` gives: the entries of the tree
/// that was encrypted, or the reason why there are none.
pub open spec fn restored(bytes: Seq<u8>, password: Seq<u8>) -> Result<
    Seq<EntryView>,
    ShadowError,
> {
    match opened_container(bytes, password) {
        Err(e) => Err(e),
        Ok(data) => unpacked(data),
    }
}

/// A container file at its default place never becomes part of the archive
/// of its own folder, wherever that archive is being written.
pub proof fn lemma_default_output_is_left_out(root: Seq<Seq<u8>>, ignore: Seq<Seq<u8>>)
    requires
        root.len() >= 1,
        root.last().len() >= 1,
    ensures
        excluded(default_output(root), false, ignore),
{
    let name = root.last() + container_suffix();
    assert(name.subrange(name.len() - 7, name.len() as int) =~= container_suffix());
    assert(default_output(root).last() == name);
}

/// Where the container of the folder at `root` is written: at the place
/// chosen, or, without one, at the default place inside the folder.
///
/// A root that does not end in a plain component names no folder, and is
/// refused whether a place was chosen or not.
pub fn container_path(root: &Vec<Vec<u8>>, chosen: Option<Vec<Vec<u8>>>) -> (r: Result<
    Vec<Vec<u8>>,
    ShadowError,
>)
    ensures
        match r {
            Ok(path) => {
                &&& root@.len() >= 1
                &&& valid_component(components(root@).last())
                &&& match chosen {
                    Some(place) => path == place,
                    None => components(path@) == default_output(components(root@)),
                }
            },
            Err(e) => e == ShadowError::PathSafety && !(root@.len() >= 1 && valid_component(
                components(root@).last(),
            )),
        },
{
    let n = root.len();
    if n == 0 {
        return Err(ShadowError::PathSafety);
    }
    if !is_valid_component(root[n - 1].as_slice()) {
        return Err(ShadowError::PathSafety);
    }
    match chosen {
        Some(place) => Ok(place),
        None => {
            let mut path: Vec<Vec<u8>> = Vec::new();
            let mut i: usize = 0;
            while i < n
                invariant
                    i <= n,
                    n == root.len(),
                    components(path@) == components(root@).subrange(0, i as int),
                decreases n - i,
            {
                let ghost before = components(path@);
                let part = root[i].clone();
                assert(part@ == root@[i as int]@);
                path.push(part);
                i += 1;
                assert(components(path@) =~= before.push(root@[i - 1]@));
                assert(components(path@) =~= components(root@).subrange(0, i as int));
            }
            let ghost before = components(path@);
            assert(before =~= components(root@));
            let name = default_container_name(root[n - 1].as_slice());
            path.push(name);
            assert(components(path@) =~= before.push(name@));
            Ok(path)
        },
    }
}

/// Encrypts the tree with root `root` under `passphrase`, for a container
/// that is being written to `output_path`.
///
/// The tree is packed without the entry at `output_path` and without any
/// file whose name has the extension `shadow`, and the archive is sealed
/// with a salt and a nonce made for this call. Decrypting the container with
/// the same passphrase gives back exactly the entries that were packed.
///
/// A tree that cannot be archived is refused first. Every other tree is
/// encrypted, unless the compressor gives nothing or the passphrase or the
/// archive is longer than the key derivation or the cipher takes.
pub fn encrypt_folder(
    root: &Vec<Vec<u8>>,
    entries: &Vec<Entry>,
    passphrase: &str,
    output_path: &Vec<Vec<u8>>,
) -> (r: Result<Vec<u8>, ShadowError>)
    ensures
        match r {
            Ok(bytes) => {
                &&& archivable(
                    components(root@),
                    entry_views(entries@),
                    components(output_path@),
                )
                &&& packed(components(root@), entry_views(entries@), components(output_path@))
                    is Some
                &&& password_accepted(passphrase.spec_bytes())
                &&& sealable(
                    packed(
                        components(root@),
                        entry_views(entries@),
                        components(output_path@),
                    ).unwrap().len(),
                )
                &&& bytes@.len() == PREFIX_LEN + FRESH_SALT_LEN + NONCE_LEN + packed(
                    components(root@),
                    entry_views(entries@),
                    components(output_path@),
                ).unwrap().len() + TAG_LEN
                &&& restored(bytes@, passphrase.spec_bytes()) == Ok::<Seq<EntryView>, ShadowError>(
                    archived(components(root@), entry_views(entries@), components(output_path@)),
                )
            },
            Err(e) => if !archivable(
                components(root@),
                entry_views(entries@),
                components(output_path@),
            ) {
                e == ShadowError::PathSafety
            } else if packed(
                components(root@),
                entry_views(entries@),
                components(output_path@),
            ) is None {
                e == ShadowError::Io
            } else if !password_accepted(passphrase.spec_bytes()) {
                e == ShadowError::Derivation
            } else {
                e == ShadowError::Io && !sealable(
                    packed(
                        components(root@),
                        entry_views(entries@),
                        components(output_path@),
                    ).unwrap().len(),
                )
            },
        },
{
    let archive = match create_archive(root, entries, output_path) {
        Ok(archive) => archive,
        Err(e) => {
            return Err(e);
        },
    };
    encrypt_data(archive.as_slice(), passphrase)
}

/// Decrypts the container `bytes` with `passphrase` into the entries of the
/// tree that was encrypted.
///
/// The layout is judged first, then the key is derived and the ciphertext
/// opened, then the archive is unpacked. Every entry that comes back has a
/// plain path.
pub fn decrypt_container(bytes: &[u8], passphrase: &str) -> (r: Result<Vec<Entry>, ShadowError>)
    ensures
        match r {
            Ok(entries) => restored(bytes@, passphrase.spec_bytes()) == Ok::<
                Seq<EntryView>,
                ShadowError,
            >(entry_views(entries@)),
            Err(e) => restored(bytes@, passphrase.spec_bytes()) == Err::<
                Seq<EntryView>,
                ShadowError,
            >(e),
        },
{
    let archive = match decrypt_data(bytes, passphrase) {
        Ok(archive) => archive,
        Err(e) => {
            return Err(e);
        },
    };
    unpack_archive(archive.as_slice())
}

} // verus!
