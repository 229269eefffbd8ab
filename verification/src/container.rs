//! The container layout.
//!
//! A container is, in this order: the magic marker, the length of the salt
//! as four little-endian bytes, the salt, the nonce, and the ciphertext, which
//! runs to the end. Encoding and decoding only move bytes: no randomness, no
//! key and no cipher is involved.

use vstd::prelude::*;
use vstd::slice::slice_subrange;
use vstd::arithmetic::div_mod::lemma_fundamental_div_mod_converse;
use crate::error::ShadowError;

verus! {

/// Number of bytes of the magic marker.
pub const MAGIC_LEN: usize = 6;

/// Number of bytes of the nonce.
pub const NONCE_LEN: usize = 24;

/// Number of bytes before the salt: the marker and the length field.
pub const PREFIX_LEN: usize = 10;

/// The magic marker, the ASCII letters `SHADOW`.
pub open spec fn magic() -> Seq<u8> {
    seq![0x53u8, 0x48u8, 0x41u8, 0x44u8, 0x4fu8, 0x57u8]
}

/// The four little-endian bytes of `n`.
pub open spec fn le32(n: nat) -> Seq<u8> {
    seq![
        (n % 256) as u8,
        ((n / 256) % 256) as u8,
        ((n / 65536) % 256) as u8,
        ((n / 16777216) % 256) as u8,
    ]
}

/// The number that four little-endian bytes stand for.
pub open spec fn le32_value(b: Seq<u8>) -> nat
    recommends
        b.len() == 4,
{
    (b[0] as nat) + 256 * (b[1] as nat) + 65536 * (b[2] as nat) + 16777216 * (b[3] as nat)
}

/// The fields of a container, as mathematical sequences.
pub struct ContainerView {
    pub salt: Seq<u8>,
    pub nonce: Seq<u8>,
    pub ciphertext: Seq<u8>,
}

/// The fields of a container. The marker is not kept: it is the same for all.
#[derive(Clone, Debug, PartialEq, Eq)]
pub struct Container {
    pub salt: Vec<u8>,
    pub nonce: [u8; 24],
    pub ciphertext: Vec<u8>,
}

impl View for Container {
    type V = ContainerView;

    open spec fn view(&self) -> ContainerView {
        ContainerView { salt: self.salt@, nonce: self.nonce@, ciphertext: self.ciphertext@ }
    }
}

/// The bytes of the container with the given fields.
pub open spec fn encoding(salt: Seq<u8>, nonce: Seq<u8>, ciphertext: Seq<u8>) -> Seq<u8> {
    magic() + le32(salt.len()) + salt + nonce + ciphertext
}

/// Whether `bytes` starts with the magic marker.
pub open spec fn has_magic(bytes: Seq<u8>) -> bool {
    bytes.len() >= MAGIC_LEN && bytes.subrange(0, MAGIC_LEN as int) == magic()
}

/// The salt length that `bytes` declares in its length field.
pub open spec fn declared_salt_len(bytes: Seq<u8>) -> nat
    recommends
        bytes.len() >= PREFIX_LEN,
{
    le32_value(bytes.subrange(MAGIC_LEN as int, PREFIX_LEN as int))
}

/// Whether `bytes` is laid out as a container: it starts with the marker, has
/// a whole length field, as many salt bytes as the field declares, and a whole
/// nonce after them. The ciphertext may be empty.
pub open spec fn well_formed(bytes: Seq<u8>) -> bool {
    &&& has_magic(bytes)
    &&& bytes.len() >= PREFIX_LEN
    &&& bytes.len() >= PREFIX_LEN + declared_salt_len(bytes)
    &&& bytes.len() >= PREFIX_LEN + declared_salt_len(bytes) + NONCE_LEN
}

/// The fields of a well-formed container.
pub open spec fn decoded(bytes: Seq<u8>) -> ContainerView
    recommends
        well_formed(bytes),
{
    let n = declared_salt_len(bytes) as int;
    ContainerView {
        salt: bytes.subrange(PREFIX_LEN as int, PREFIX_LEN + n),
        nonce: bytes.subrange(PREFIX_LEN + n, PREFIX_LEN + n + NONCE_LEN),
        ciphertext: bytes.subrange(PREFIX_LEN + n + NONCE_LEN, bytes.len() as int),
    }
}

/// Four little-endian bytes stand for the number they were made from.
pub proof fn lemma_le32_value(n: nat)
    requires
        n <= u32::MAX,
    ensures
        le32(n).len() == 4,
        le32_value(le32(n)) == n,
{
}

/// A number below 2^32 is the only one with its four little-endian bytes.
pub proof fn lemma_le32_of_value(b: Seq<u8>)
    requires
        b.len() == 4,
    ensures
        le32_value(b) <= u32::MAX,
        le32(le32_value(b)) == b,
{
    let v0 = le32_value(b) as int;
    let v1 = (b[1] as int) + 256 * (b[2] as int) + 65536 * (b[3] as int);
    let v2 = (b[2] as int) + 256 * (b[3] as int);
    let v3 = b[3] as int;
    lemma_fundamental_div_mod_converse(v0, 256, v1, b[0] as int);
    lemma_fundamental_div_mod_converse(v1, 256, v2, b[1] as int);
    lemma_fundamental_div_mod_converse(v2, 256, v3, b[2] as int);
    lemma_fundamental_div_mod_converse(v0, 65536, v2, (b[0] as int) + 256 * (b[1] as int));
    lemma_fundamental_div_mod_converse(
        v0,
        16777216,
        v3,
        (b[0] as int) + 256 * (b[1] as int) + 65536 * (b[2] as int),
    );
    assert(le32(le32_value(b)) =~= b);
}

/// Decoding undoes encoding: a container made from a salt, a nonce of the
/// right length and a ciphertext is well formed and has exactly these fields.
pub proof fn lemma_decode_encode(salt: Seq<u8>, nonce: Seq<u8>, ciphertext: Seq<u8>)
    requires
        salt.len() <= u32::MAX,
        nonce.len() == NONCE_LEN,
    ensures
        well_formed(encoding(salt, nonce, ciphertext)),
        decoded(encoding(salt, nonce, ciphertext)) == (ContainerView { salt, nonce, ciphertext }),
{
    let bytes = encoding(salt, nonce, ciphertext);
    lemma_le32_value(salt.len());
    assert(bytes.subrange(0, MAGIC_LEN as int) =~= magic());
    assert(bytes.subrange(MAGIC_LEN as int, PREFIX_LEN as int) =~= le32(salt.len()));
    let n = declared_salt_len(bytes) as int;
    assert(n == salt.len());
    assert(bytes.subrange(PREFIX_LEN as int, PREFIX_LEN + n) =~= salt);
    assert(bytes.subrange(PREFIX_LEN + n, PREFIX_LEN + n + NONCE_LEN) =~= nonce);
    assert(bytes.subrange(PREFIX_LEN + n + NONCE_LEN, bytes.len() as int) =~= ciphertext);
}

/// Encoding undoes decoding: a well-formed container is the encoding of its
/// own fields, so no byte of it is outside them.
pub proof fn lemma_encode_decode(bytes: Seq<u8>)
    requires
        well_formed(bytes),
    ensures
        decoded(bytes).nonce.len() == NONCE_LEN,
        decoded(bytes).salt.len() == declared_salt_len(bytes),
        encoding(decoded(bytes).salt, decoded(bytes).nonce, decoded(bytes).ciphertext) == bytes,
{
    let c = decoded(bytes);
    lemma_le32_of_value(bytes.subrange(MAGIC_LEN as int, PREFIX_LEN as int));
    assert(encoding(c.salt, c.nonce, c.ciphertext) =~= bytes);
}

/// Two containers with the same bytes have the same salt, nonce and
/// ciphertext: containers that differ in one of the three differ as bytes.
pub proof fn lemma_encoding_injective(
    salt1: Seq<u8>,
    nonce1: Seq<u8>,
    ciphertext1: Seq<u8>,
    salt2: Seq<u8>,
    nonce2: Seq<u8>,
    ciphertext2: Seq<u8>,
)
    requires
        salt1.len() <= u32::MAX,
        salt2.len() <= u32::MAX,
        nonce1.len() == NONCE_LEN,
        nonce2.len() == NONCE_LEN,
        encoding(salt1, nonce1, ciphertext1) == encoding(salt2, nonce2, ciphertext2),
    ensures
        salt1 == salt2,
        nonce1 == nonce2,
        ciphertext1 == ciphertext2,
{
    lemma_decode_encode(salt1, nonce1, ciphertext1);
    lemma_decode_encode(salt2, nonce2, ciphertext2);
}

/// Bytes without the marker, or whose length field declares more salt than
/// the bytes that follow it, are not a container.
pub proof fn lemma_malformed(bytes: Seq<u8>)
    requires
        !has_magic(bytes) || (bytes.len() >= PREFIX_LEN && declared_salt_len(bytes) > bytes.len()
            - PREFIX_LEN),
    ensures
        !well_formed(bytes),
{
}

/// Appends `src` to `out`.
fn append_bytes(out: &mut Vec<u8>, src: &[u8])
    ensures
        final(out)@ == old(out)@ + src@,
{
    let mut i: usize = 0;
    while i < src.len()
        invariant
            i <= src@.len(),
            out@ == old(out)@ + src@.subrange(0, i as int),
        decreases src@.len() - i,
    {
        out.push(src[i]);
        i += 1;
        assert(out@ =~= old(out)@ + src@.subrange(0, i as int));
    }
    assert(src@.subrange(0, i as int) =~= src@);
}

/// Lays out a container from its fields.
///
/// The salt must be short enough for its length to fit the four-byte field.
pub fn encode_container(salt: &[u8], nonce: &[u8; 24], ciphertext: &[u8]) -> (bytes: Vec<u8>)
    requires
        salt@.len() <= u32::MAX,
    ensures
        bytes@ == encoding(salt@, nonce@, ciphertext@),
{
    let n: u32 = salt.len() as u32;
    let mut out: Vec<u8> = Vec::new();
    out.push(0x53u8);
    out.push(0x48u8);
    out.push(0x41u8);
    out.push(0x44u8);
    out.push(0x4fu8);
    out.push(0x57u8);
    assert(out@ =~= magic());
    out.push((n % 256) as u8);
    out.push(((n / 256) % 256) as u8);
    out.push(((n / 65536) % 256) as u8);
    out.push(((n / 16777216) % 256) as u8);
    assert(out@ =~= magic() + le32(salt@.len()));
    append_bytes(&mut out, salt);
    append_bytes(&mut out, nonce.as_slice());
    append_bytes(&mut out, ciphertext);
    out
}

/// Whether `bytes` starts with the magic marker.
fn starts_with_magic(bytes: &[u8]) -> (r: bool)
    ensures
        r == has_magic(bytes@),
{
    if bytes.len() < MAGIC_LEN {
        return false;
    }
    let r = bytes[0] == 0x53u8 && bytes[1] == 0x48u8 && bytes[2] == 0x41u8 && bytes[3] == 0x44u8
        && bytes[4] == 0x4fu8 && bytes[5] == 0x57u8;
    proof {
        let head = bytes@.subrange(0, MAGIC_LEN as int);
        if r {
            assert(head =~= magic());
        } else {
            assert(head[0] == bytes@[0] && head[1] == bytes@[1] && head[2] == bytes@[2]
                && head[3] == bytes@[3] && head[4] == bytes@[4] && head[5] == bytes@[5]);
        }
    }
    r
}

/// Takes a container apart.
///
/// The checks run in this order: the marker, the length field, the salt, the
/// nonce. Bytes that fail one of them are refused as a whole; no field of
/// them is handed out.
pub fn decode_container(bytes: &[u8]) -> (r: Result<Container, ShadowError>)
    ensures
        match r {
            Ok(c) => well_formed(bytes@) && c@ == decoded(bytes@),
            Err(e) => !well_formed(bytes@) && e == ShadowError::Format,
        },
{
    if !starts_with_magic(bytes) {
        return Err(ShadowError::Format);
    }
    let len = bytes.len();
    if len < PREFIX_LEN {
        return Err(ShadowError::Format);
    }
    let declared: u32 = (bytes[6] as u32) + 256 * (bytes[7] as u32) + 65536 * (bytes[8] as u32)
        + 16777216 * (bytes[9] as u32);
    assert(declared == declared_salt_len(bytes@));
    let rest = len - PREFIX_LEN;
    if rest < declared as usize {
        return Err(ShadowError::Format);
    }
    let salt_len = declared as usize;
    if rest - salt_len < NONCE_LEN {
        return Err(ShadowError::Format);
    }
    let salt_end = PREFIX_LEN + salt_len;
    let nonce_end = salt_end + NONCE_LEN;
    let mut salt: Vec<u8> = Vec::new();
    append_bytes(&mut salt, slice_subrange(bytes, PREFIX_LEN, salt_end));
    let mut nonce: [u8; 24] = [0u8; 24];
    let mut i: usize = 0;
    while i < NONCE_LEN
        invariant
            i <= NONCE_LEN,
            salt_end + NONCE_LEN <= bytes.len(),
            forall|j: int| 0 <= j < i ==> nonce@[j] == bytes@[salt_end + j],
        decreases NONCE_LEN - i,
    {
        nonce[i] = bytes[salt_end + i];
        i += 1;
    }
    let mut ciphertext: Vec<u8> = Vec::new();
    append_bytes(&mut ciphertext, slice_subrange(bytes, nonce_end, len));
    assert(nonce@ =~= decoded(bytes@).nonce);
    Ok(Container { salt, nonce, ciphertext })
}

} // verus!
