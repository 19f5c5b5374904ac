//! The keyed hashes that key derivation is built on.

use hkdf::Hkdf;
use hmac::{Hmac, Mac};
use sha2::{Sha256, Sha384};
use vstd::prelude::*;

verus! {

/// The hash function of a cipher suite.
#[derive(Clone, Copy, Debug, PartialEq, Eq, Structural)]
pub enum HashAlgorithm {
    Sha256,
    Sha384,
}

impl HashAlgorithm {
    /// The length of the hash in bytes.
    pub open spec fn spec_len(self) -> nat {
        match self {
            HashAlgorithm::Sha256 => 32,
            HashAlgorithm::Sha384 => 48,
        }
    }
}

/// HKDF-Expand with SHA-256.
pub uninterp spec fn hkdf_sha256(prk: Seq<u8>, info: Seq<u8>, length: nat) -> Seq<u8>;

/// HKDF-Expand with SHA-384.
pub uninterp spec fn hkdf_sha384(prk: Seq<u8>, info: Seq<u8>, length: nat) -> Seq<u8>;

/// HMAC with SHA-256.
pub uninterp spec fn hmac_sha256(key: Seq<u8>, data: Seq<u8>) -> Seq<u8>;

/// HMAC with SHA-384.
pub uninterp spec fn hmac_sha384(key: Seq<u8>, data: Seq<u8>) -> Seq<u8>;

/// Calls `hkdf::Hkdf::<Sha256>::from_prk` and `expand`. The key is refused exactly when it is
/// shorter than the hash; otherwise the output has the length asked for and depends on the
/// arguments alone.
#[verifier::external_body]
fn hkdf_expand_sha256(prk: &[u8], info: &[u8], length: usize) -> (okm: Option<Vec<u8>>)
    requires
        length <= 255 * 32,
    ensures
        match okm {
            Some(okm) => {
                &&& prk@.len() >= 32
                &&& okm@ == hkdf_sha256(prk@, info@, length as nat)
                &&& okm@.len() == length
            },
            None => prk@.len() < 32,
        },
{
    let hkdf = Hkdf::<Sha256>::from_prk(prk).ok()?;
    let mut okm = vec![0u8; length];
    hkdf.expand(info, &mut okm).unwrap();
    Some(okm)
}

/// Calls `hkdf::Hkdf::<Sha384>::from_prk` and `expand`. The key is refused exactly when it is
/// shorter than the hash; otherwise the output has the length asked for and depends on the
/// arguments alone.
#[verifier::external_body]
fn hkdf_expand_sha384(prk: &[u8], info: &[u8], length: usize) -> (okm: Option<Vec<u8>>)
    requires
        length <= 255 * 48,
    ensures
        match okm {
            Some(okm) => {
                &&& prk@.len() >= 48
                &&& okm@ == hkdf_sha384(prk@, info@, length as nat)
                &&& okm@.len() == length
            },
            None => prk@.len() < 48,
        },
{
    let hkdf = Hkdf::<Sha384>::from_prk(prk).ok()?;
    let mut okm = vec![0u8; length];
    hkdf.expand(info, &mut okm).unwrap();
    Some(okm)
}

/// Calls `hmac::Hmac::<Sha256>` (`new_from_slice`, which takes a key of any length, `update` and
/// `finalize`). The code is 32 bytes long and depends on the arguments alone.
#[verifier::external_body]
fn hmac_with_sha256(key: &[u8], data: &[u8]) -> (code: Vec<u8>)
    ensures
        code@ == hmac_sha256(key@, data@),
        code@.len() == 32,
{
    let mut mac = Hmac::<Sha256>::new_from_slice(key).unwrap();
    mac.update(data);
    mac.finalize().into_bytes().to_vec()
}

/// Calls `hmac::Hmac::<Sha384>` (`new_from_slice`, which takes a key of any length, `update` and
/// `finalize`). The code is 48 bytes long and depends on the arguments alone.
#[verifier::external_body]
fn hmac_with_sha384(key: &[u8], data: &[u8]) -> (code: Vec<u8>)
    ensures
        code@ == hmac_sha384(key@, data@),
        code@.len() == 48,
{
    let mut mac = Hmac::<Sha384>::new_from_slice(key).unwrap();
    mac.update(data);
    mac.finalize().into_bytes().to_vec()
}

/// HKDF-Expand; `None` where `prk` is too short to be a key for `hash`.
pub open spec fn expanded(
    hash: HashAlgorithm,
    prk: Seq<u8>,
    info: Seq<u8>,
    length: nat,
) -> Option<Seq<u8>> {
    if prk.len() < hash.spec_len() {
        None
    } else {
        match hash {
            HashAlgorithm::Sha256 => Some(hkdf_sha256(prk, info, length)),
            HashAlgorithm::Sha384 => Some(hkdf_sha384(prk, info, length)),
        }
    }
}

pub open spec fn hmac_of(hash: HashAlgorithm, key: Seq<u8>, data: Seq<u8>) -> Seq<u8> {
    match hash {
        HashAlgorithm::Sha256 => hmac_sha256(key, data),
        HashAlgorithm::Sha384 => hmac_sha384(key, data),
    }
}

/// HKDF-Expand to `length` bytes.
pub fn hkdf_expand(hash: HashAlgorithm, prk: &[u8], info: &[u8], length: usize) -> (okm: Option<
    Vec<u8>,
>)
    requires
        length <= 255 * hash.spec_len(),
    ensures
        match okm {
            Some(okm) => {
                &&& expanded(hash, prk@, info@, length as nat) == Some(okm@)
                &&& okm@.len() == length
            },
            None => expanded(hash, prk@, info@, length as nat) is None,
        },
{
    match hash {
        HashAlgorithm::Sha256 => hkdf_expand_sha256(prk, info, length),
        HashAlgorithm::Sha384 => hkdf_expand_sha384(prk, info, length),
    }
}

/// The HMAC of `data` under `key`.
pub fn hmac_once(hash: HashAlgorithm, key: &[u8], data: &[u8]) -> (code: Vec<u8>)
    ensures
        code@ == hmac_of(hash, key@, data@),
        code@.len() == hash.spec_len(),
{
    match hash {
        HashAlgorithm::Sha256 => hmac_with_sha256(key, data),
        HashAlgorithm::Sha384 => hmac_with_sha384(key, data),
    }
}

} // verus!
