//! The AEAD ciphers of the record layer.

use aes_gcm::aead::{Aead, KeyInit, Payload};
use aes_gcm::{Aes128Gcm, Aes256Gcm};
use chacha20poly1305::ChaCha20Poly1305;
use vstd::prelude::*;
use crate::tls13::AeadAlgorithm;

verus! {

/// The number of bytes by which a sealed message is longer than its plaintext.
pub const TAG_LEN: usize = 16;

/// The longest plaintext that every cipher takes.
pub const MAX_PLAINTEXT_LEN: u64 = 0x10_0000_0000;

/// The longest sealed message that every cipher takes.
pub const MAX_SEALED_LEN: u64 = 0x10_0000_0010;

/// What AES-128-GCM decrypts `sealed` to; `None` if it does not authenticate.
pub uninterp spec fn aes128gcm_open(
    key: Seq<u8>,
    nonce: Seq<u8>,
    aad: Seq<u8>,
    sealed: Seq<u8>,
) -> Option<Seq<u8>>;

/// What AES-128-GCM encrypts `message` to, tag included.
pub uninterp spec fn aes128gcm_seal(
    key: Seq<u8>,
    nonce: Seq<u8>,
    aad: Seq<u8>,
    message: Seq<u8>,
) -> Seq<u8>;

/// What AES-256-GCM decrypts `sealed` to; `None` if it does not authenticate.
pub uninterp spec fn aes256gcm_open(
    key: Seq<u8>,
    nonce: Seq<u8>,
    aad: Seq<u8>,
    sealed: Seq<u8>,
) -> Option<Seq<u8>>;

/// What AES-256-GCM encrypts `message` to, tag included.
pub uninterp spec fn aes256gcm_seal(
    key: Seq<u8>,
    nonce: Seq<u8>,
    aad: Seq<u8>,
    message: Seq<u8>,
) -> Seq<u8>;

/// What ChaCha20-Poly1305 decrypts `sealed` to; `None` if it does not authenticate.
pub uninterp spec fn chacha20poly1305_open(
    key: Seq<u8>,
    nonce: Seq<u8>,
    aad: Seq<u8>,
    sealed: Seq<u8>,
) -> Option<Seq<u8>>;

/// What ChaCha20-Poly1305 encrypts `message` to, tag included.
pub uninterp spec fn chacha20poly1305_seal(
    key: Seq<u8>,
    nonce: Seq<u8>,
    aad: Seq<u8>,
    message: Seq<u8>,
) -> Seq<u8>;

/// Calls `Aead::decrypt` of `aes_gcm::Aes128Gcm`. The result depends on the four arguments alone.
/// A message without room for the tag never opens; one that opens loses exactly the tag. That a
/// message sealed under another key, nonce or associated data is refused rests on the strength of
/// the cipher, and is not claimed.
#[verifier::external_body]
fn aes128gcm_decrypt(key: &[u8], nonce: &[u8; 12], aad: &[u8], sealed: &[u8]) -> (opened: Option<
    Vec<u8>,
>)
    requires
        key@.len() == 16,
        sealed@.len() <= MAX_SEALED_LEN,
        aad@.len() <= MAX_PLAINTEXT_LEN,
    ensures
        match opened {
            Some(message) => {
                &&& aes128gcm_open(key@, nonce@, aad@, sealed@) == Some(message@)
                &&& message@.len() + TAG_LEN == sealed@.len()
            },
            None => aes128gcm_open(key@, nonce@, aad@, sealed@) is None,
        },
        sealed@.len() < TAG_LEN ==> opened is None,
{
    Aes128Gcm::new(key.into()).decrypt(nonce.into(), Payload { msg: sealed, aad }).ok()
}

/// Calls `Aead::encrypt` of `aes_gcm::Aes128Gcm`. The result depends on the four arguments alone,
/// is longer than the message by the tag, and decrypts to the message under the same key, nonce
/// and associated data.
#[verifier::external_body]
fn aes128gcm_encrypt(key: &[u8], nonce: &[u8; 12], aad: &[u8], message: &[u8]) -> (sealed: Vec<u8>)
    requires
        key@.len() == 16,
        message@.len() <= MAX_PLAINTEXT_LEN,
        aad@.len() <= MAX_PLAINTEXT_LEN,
    ensures
        sealed@ == aes128gcm_seal(key@, nonce@, aad@, message@),
        sealed@.len() == message@.len() + TAG_LEN,
        aes128gcm_open(key@, nonce@, aad@, sealed@) == Some(message@),
{
    Aes128Gcm::new(key.into()).encrypt(nonce.into(), Payload { msg: message, aad }).unwrap()
}

/// Calls `Aead::decrypt` of `aes_gcm::Aes256Gcm`. The result depends on the four arguments alone.
/// A message without room for the tag never opens; one that opens loses exactly the tag. That a
/// message sealed under another key, nonce or associated data is refused rests on the strength of
/// the cipher, and is not claimed.
#[verifier::external_body]
fn aes256gcm_decrypt(key: &[u8], nonce: &[u8; 12], aad: &[u8], sealed: &[u8]) -> (opened: Option<
    Vec<u8>,
>)
    requires
        key@.len() == 32,
        sealed@.len() <= MAX_SEALED_LEN,
        aad@.len() <= MAX_PLAINTEXT_LEN,
    ensures
        match opened {
            Some(message) => {
                &&& aes256gcm_open(key@, nonce@, aad@, sealed@) == Some(message@)
                &&& message@.len() + TAG_LEN == sealed@.len()
            },
            None => aes256gcm_open(key@, nonce@, aad@, sealed@) is None,
        },
        sealed@.len() < TAG_LEN ==> opened is None,
{
    Aes256Gcm::new(key.into()).decrypt(nonce.into(), Payload { msg: sealed, aad }).ok()
}

/// Calls `Aead::encrypt` of `aes_gcm::Aes256Gcm`. The result depends on the four arguments alone,
/// is longer than the message by the tag, and decrypts to the message under the same key, nonce
/// and associated data.
#[verifier::external_body]
fn aes256gcm_encrypt(key: &[u8], nonce: &[u8; 12], aad: &[u8], message: &[u8]) -> (sealed: Vec<u8>)
    requires
        key@.len() == 32,
        message@.len() <= MAX_PLAINTEXT_LEN,
        aad@.len() <= MAX_PLAINTEXT_LEN,
    ensures
        sealed@ == aes256gcm_seal(key@, nonce@, aad@, message@),
        sealed@.len() == message@.len() + TAG_LEN,
        aes256gcm_open(key@, nonce@, aad@, sealed@) == Some(message@),
{
    Aes256Gcm::new(key.into()).encrypt(nonce.into(), Payload { msg: message, aad }).unwrap()
}

/// Calls `Aead::decrypt` of `chacha20poly1305::ChaCha20Poly1305`. The result depends on the four
/// arguments alone. A message without room for the tag never opens; one that opens loses exactly
/// the tag. That a message sealed under another key, nonce or associated data is refused rests on
/// the strength of the cipher, and is not claimed.
#[verifier::external_body]
fn chacha20poly1305_decrypt(key: &[u8], nonce: &[u8; 12], aad: &[u8], sealed: &[u8]) -> (opened:
    Option<Vec<u8>>)
    requires
        key@.len() == 32,
        sealed@.len() <= MAX_SEALED_LEN,
        aad@.len() <= MAX_PLAINTEXT_LEN,
    ensures
        match opened {
            Some(message) => {
                &&& chacha20poly1305_open(key@, nonce@, aad@, sealed@) == Some(message@)
                &&& message@.len() + TAG_LEN == sealed@.len()
            },
            None => chacha20poly1305_open(key@, nonce@, aad@, sealed@) is None,
        },
        sealed@.len() < TAG_LEN ==> opened is None,
{
    ChaCha20Poly1305::new(key.into()).decrypt(nonce.into(), Payload { msg: sealed, aad }).ok()
}

/// Calls `Aead::encrypt` of `chacha20poly1305::ChaCha20Poly1305`. The result depends on the four
/// arguments alone, is longer than the message by the tag, and decrypts to the message under the
/// same key, nonce and associated data.
#[verifier::external_body]
fn chacha20poly1305_encrypt(key: &[u8], nonce: &[u8; 12], aad: &[u8], message: &[u8]) -> (sealed:
    Vec<u8>)
    requires
        key@.len() == 32,
        message@.len() <= MAX_PLAINTEXT_LEN,
        aad@.len() <= MAX_PLAINTEXT_LEN,
    ensures
        sealed@ == chacha20poly1305_seal(key@, nonce@, aad@, message@),
        sealed@.len() == message@.len() + TAG_LEN,
        chacha20poly1305_open(key@, nonce@, aad@, sealed@) == Some(message@),
{
    ChaCha20Poly1305::new(key.into()).encrypt(nonce.into(), Payload { msg: message, aad }).unwrap()
}

/// What `algorithm` decrypts `sealed` to; `None` if it does not authenticate.
pub open spec fn opened(
    algorithm: AeadAlgorithm,
    key: Seq<u8>,
    nonce: Seq<u8>,
    aad: Seq<u8>,
    sealed: Seq<u8>,
) -> Option<Seq<u8>> {
    match algorithm {
        AeadAlgorithm::Aes128Gcm => aes128gcm_open(key, nonce, aad, sealed),
        AeadAlgorithm::Aes256Gcm => aes256gcm_open(key, nonce, aad, sealed),
        AeadAlgorithm::ChaCha20Poly1305 => chacha20poly1305_open(key, nonce, aad, sealed),
    }
}

/// What `algorithm` encrypts `message` to, tag included.
pub open spec fn sealed(
    algorithm: AeadAlgorithm,
    key: Seq<u8>,
    nonce: Seq<u8>,
    aad: Seq<u8>,
    message: Seq<u8>,
) -> Seq<u8> {
    match algorithm {
        AeadAlgorithm::Aes128Gcm => aes128gcm_seal(key, nonce, aad, message),
        AeadAlgorithm::Aes256Gcm => aes256gcm_seal(key, nonce, aad, message),
        AeadAlgorithm::ChaCha20Poly1305 => chacha20poly1305_seal(key, nonce, aad, message),
    }
}

/// Decrypts and authenticates `sealed`.
pub fn open(
    algorithm: AeadAlgorithm,
    key: &[u8],
    nonce: &[u8; 12],
    aad: &[u8],
    sealed: &[u8],
) -> (message: Option<Vec<u8>>)
    requires
        key@.len() == algorithm.spec_key_len(),
        sealed@.len() <= MAX_SEALED_LEN,
        aad@.len() <= MAX_PLAINTEXT_LEN,
    ensures
        match message {
            Some(message) => {
                &&& opened(algorithm, key@, nonce@, aad@, sealed@) == Some(message@)
                &&& message@.len() + TAG_LEN == sealed@.len()
            },
            None => opened(algorithm, key@, nonce@, aad@, sealed@) is None,
        },
        sealed@.len() < TAG_LEN ==> message is None,
{
    match algorithm {
        AeadAlgorithm::Aes128Gcm => aes128gcm_decrypt(key, nonce, aad, sealed),
        AeadAlgorithm::Aes256Gcm => aes256gcm_decrypt(key, nonce, aad, sealed),
        AeadAlgorithm::ChaCha20Poly1305 => chacha20poly1305_decrypt(key, nonce, aad, sealed),
    }
}

/// Encrypts `message` and appends its tag.
pub fn seal(
    algorithm: AeadAlgorithm,
    key: &[u8],
    nonce: &[u8; 12],
    aad: &[u8],
    message: &[u8],
) -> (out: Vec<u8>)
    requires
        key@.len() == algorithm.spec_key_len(),
        message@.len() <= MAX_PLAINTEXT_LEN,
        aad@.len() <= MAX_PLAINTEXT_LEN,
    ensures
        out@ == sealed(algorithm, key@, nonce@, aad@, message@),
        out@.len() == message@.len() + TAG_LEN,
        opened(algorithm, key@, nonce@, aad@, out@) == Some(message@),
{
    match algorithm {
        AeadAlgorithm::Aes128Gcm => aes128gcm_encrypt(key, nonce, aad, message),
        AeadAlgorithm::Aes256Gcm => aes256gcm_encrypt(key, nonce, aad, message),
        AeadAlgorithm::ChaCha20Poly1305 => chacha20poly1305_encrypt(key, nonce, aad, message),
    }
}

} // verus!
