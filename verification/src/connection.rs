//! Per-connection, per-direction record decryption, for TLS 1.3 and for the AES-GCM suites of
//! TLS 1.2.
//!
//! The negotiated cipher suite is not read off the ServerHello. Each candidate algorithm is tried
//! in turn instead: one that is wrong fails to authenticate.

use vstd::prelude::*;
use vstd::slice::slice_subrange;
use crate::aead::{MAX_SEALED_LEN, TAG_LEN};
use crate::bytes::copy_array_32;
use crate::keylog::{last_secret, Keylog, SecretEntry, SecretLabel};
use crate::tls12;
use crate::tls12::hello_random;
use crate::tls13;
use crate::tls13::{record_aad, spec_record_aad, AeadAlgorithm, Tls13Error};

verus! {

/// Which of a TLS 1.3 connection's traffic secrets protects a record.
#[derive(Clone, Copy, Debug, PartialEq, Eq, Structural)]
pub enum Generation {
    Handshake,
    Application,
}

/// Which TLS version protected a record.
#[derive(Clone, Copy, Debug, PartialEq, Eq)]
pub enum RecordVersion {
    Tls13 { generation: Generation },
    Tls12 { explicit_nonce: [u8; 8] },
}

/// What a `RecordVersion` holds.
pub enum VersionModel {
    Tls13 { generation: Generation },
    Tls12 { explicit_nonce: Seq<u8> },
}

impl View for RecordVersion {
    type V = VersionModel;

    open spec fn view(&self) -> VersionModel {
        match *self {
            RecordVersion::Tls13 { generation } => VersionModel::Tls13 { generation },
            RecordVersion::Tls12 { explicit_nonce } => VersionModel::Tls12 {
                explicit_nonce: explicit_nonce@,
            },
        }
    }
}

/// Why a record gave no plaintext.
#[derive(Clone, Copy, Debug, PartialEq, Eq, Structural)]
pub enum ProcessError {
    /// A secret that the record may be protected with is not in the keylog yet. A later record may
    /// fare better, once the keylog has caught up.
    NoKey,
    /// Keys were available, and every combination of algorithm and generation failed to
    /// authenticate: a rotated secret that is not logged, or corrupt data.
    AuthFailed,
}

/// A record's plaintext, and how it was protected.
pub struct DecryptedRecord {
    pub plaintext: Vec<u8>,
    pub content_type: u8,
    pub algorithm: AeadAlgorithm,
    pub version: RecordVersion,
}

/// What a `DecryptedRecord` holds.
pub struct RecordModel {
    pub plaintext: Seq<u8>,
    pub content_type: u8,
    pub algorithm: AeadAlgorithm,
    pub version: VersionModel,
}

impl View for DecryptedRecord {
    type V = RecordModel;

    open spec fn view(&self) -> RecordModel {
        RecordModel {
            plaintext: self.plaintext@,
            content_type: self.content_type,
            algorithm: self.algorithm,
            version: self.version@,
        }
    }
}

/// The candidates for TLS 1.3, in the order in which they are tried.
pub open spec fn candidate(i: int) -> AeadAlgorithm {
    if i == 0 {
        AeadAlgorithm::Aes128Gcm
    } else if i == 1 {
        AeadAlgorithm::Aes256Gcm
    } else {
        AeadAlgorithm::ChaCha20Poly1305
    }
}

fn candidate_at(i: usize) -> (algorithm: AeadAlgorithm)
    ensures
        algorithm == candidate(i as int),
{
    if i == 0 {
        AeadAlgorithm::Aes128Gcm
    } else if i == 1 {
        AeadAlgorithm::Aes256Gcm
    } else {
        AeadAlgorithm::ChaCha20Poly1305
    }
}

/// The keys derived so far under one TLS 1.3 secret, by algorithm.
struct KeyCache {
    aes128: Option<tls13::RecordKeys>,
    aes256: Option<tls13::RecordKeys>,
    chacha: Option<tls13::RecordKeys>,
}

/// What a cache of TLS 1.3 keys holds.
pub struct CacheModel {
    pub aes128: Option<tls13::KeyModel>,
    pub aes256: Option<tls13::KeyModel>,
    pub chacha: Option<tls13::KeyModel>,
}

impl CacheModel {
    pub open spec fn empty() -> CacheModel {
        CacheModel { aes128: None, aes256: None, chacha: None }
    }

    pub open spec fn get(self, algorithm: AeadAlgorithm) -> Option<tls13::KeyModel> {
        match algorithm {
            AeadAlgorithm::Aes128Gcm => self.aes128,
            AeadAlgorithm::Aes256Gcm => self.aes256,
            AeadAlgorithm::ChaCha20Poly1305 => self.chacha,
        }
    }

    pub open spec fn put(self, algorithm: AeadAlgorithm, keys: tls13::KeyModel) -> CacheModel {
        match algorithm {
            AeadAlgorithm::Aes128Gcm => CacheModel { aes128: Some(keys), ..self },
            AeadAlgorithm::Aes256Gcm => CacheModel { aes256: Some(keys), ..self },
            AeadAlgorithm::ChaCha20Poly1305 => CacheModel { chacha: Some(keys), ..self },
        }
    }
}

spec fn keys_view(keys: Option<tls13::RecordKeys>) -> Option<tls13::KeyModel> {
    match keys {
        Some(keys) => Some(keys@),
        None => None,
    }
}

impl View for KeyCache {
    type V = CacheModel;

    closed spec fn view(&self) -> CacheModel {
        CacheModel {
            aes128: keys_view(self.aes128),
            aes256: keys_view(self.aes256),
            chacha: keys_view(self.chacha),
        }
    }
}

impl KeyCache {
    fn new() -> (cache: KeyCache)
        ensures
            cache@ == CacheModel::empty(),
    {
        KeyCache { aes128: None, aes256: None, chacha: None }
    }

    fn get(&self, algorithm: AeadAlgorithm) -> (keys: Option<&tls13::RecordKeys>)
        ensures
            match keys {
                Some(keys) => self@.get(algorithm) == Some(keys@),
                None => self@.get(algorithm) is None,
            },
    {
        match algorithm {
            AeadAlgorithm::Aes128Gcm => self.aes128.as_ref(),
            AeadAlgorithm::Aes256Gcm => self.aes256.as_ref(),
            AeadAlgorithm::ChaCha20Poly1305 => self.chacha.as_ref(),
        }
    }

    fn put(&mut self, algorithm: AeadAlgorithm, keys: tls13::RecordKeys)
        ensures
            final(self)@ == old(self)@.put(algorithm, keys@),
    {
        match algorithm {
            AeadAlgorithm::Aes128Gcm => {
                self.aes128 = Some(keys);
            },
            AeadAlgorithm::Aes256Gcm => {
                self.aes256 = Some(keys);
            },
            AeadAlgorithm::ChaCha20Poly1305 => {
                self.chacha = Some(keys);
            },
        }
    }
}

/// One direction of a TLS 1.3 connection.
struct DirectionState {
    seq_handshake: u64,
    seq_application: u64,
    keys_handshake: KeyCache,
    keys_application: KeyCache,
}

/// The state of one direction of a TLS 1.3 connection: for each generation, the sequence number of
/// its next record and the keys derived so far.
pub struct DirectionModel {
    pub seq_handshake: u64,
    pub seq_application: u64,
    pub keys_handshake: CacheModel,
    pub keys_application: CacheModel,
}

impl View for DirectionState {
    type V = DirectionModel;

    closed spec fn view(&self) -> DirectionModel {
        DirectionModel {
            seq_handshake: self.seq_handshake,
            seq_application: self.seq_application,
            keys_handshake: self.keys_handshake@,
            keys_application: self.keys_application@,
        }
    }
}

/// What trying one generation's keys on a record came to.
pub enum Trial {
    /// This content and type, under this algorithm.
    Opened(Seq<u8>, u8, AeadAlgorithm),
    /// The record cannot hold a tag.
    TooShort,
    /// There were keys, and none opened the record.
    Refused,
    /// There was no key to try.
    NoKey,
}

impl DirectionModel {
    pub open spec fn fresh() -> DirectionModel {
        DirectionModel {
            seq_handshake: 0,
            seq_application: 0,
            keys_handshake: CacheModel::empty(),
            keys_application: CacheModel::empty(),
        }
    }

    pub open spec fn seq(self, g: Generation) -> u64 {
        match g {
            Generation::Handshake => self.seq_handshake,
            Generation::Application => self.seq_application,
        }
    }

    pub open spec fn cache(self, g: Generation) -> CacheModel {
        match g {
            Generation::Handshake => self.keys_handshake,
            Generation::Application => self.keys_application,
        }
    }

    /// The keys of a generation for an algorithm: those derived before, else those that the secret
    /// gives. Without a secret there are none.
    pub open spec fn keys(
        self,
        g: Generation,
        secret: Option<Seq<u8>>,
        algorithm: AeadAlgorithm,
    ) -> Option<tls13::KeyModel> {
        match secret {
            None => None,
            Some(secret) => match self.cache(g).get(algorithm) {
                Some(keys) => Some(keys),
                None => tls13::KeyModel::derived(secret, algorithm),
            },
        }
    }

    pub open spec fn remember(
        self,
        g: Generation,
        algorithm: AeadAlgorithm,
        keys: tls13::KeyModel,
    ) -> DirectionModel {
        match g {
            Generation::Handshake => DirectionModel {
                keys_handshake: self.keys_handshake.put(algorithm, keys),
                ..self
            },
            Generation::Application => DirectionModel {
                keys_application: self.keys_application.put(algorithm, keys),
                ..self
            },
        }
    }

    /// The generation's next record has the next sequence number.
    pub open spec fn advance(self, g: Generation) -> DirectionModel {
        match g {
            Generation::Handshake => DirectionModel {
                seq_handshake: (self.seq_handshake + 1) as u64,
                ..self
            },
            Generation::Application => DirectionModel {
                seq_application: (self.seq_application + 1) as u64,
                ..self
            },
        }
    }

    /// Tries the candidates from `i` on; `tried` says whether an earlier one had keys.
    pub open spec fn try_from(
        self,
        g: Generation,
        secret: Option<Seq<u8>>,
        body: Seq<u8>,
        i: int,
        tried: bool,
    ) -> (DirectionModel, Trial)
        decreases 3 - i,
    {
        if i >= 3 {
            (
                self,
                if tried {
                    Trial::Refused
                } else {
                    Trial::NoKey
                },
            )
        } else {
            let algorithm = candidate(i);
            match self.keys(g, secret, algorithm) {
                None => self.try_from(g, secret, body, i + 1, tried),
                Some(keys) => {
                    let cached = self.remember(g, algorithm, keys);
                    match keys.decrypted(self.seq(g), spec_record_aad(body.len() as usize), body) {
                        Ok((content, content_type)) => (
                            cached.advance(g),
                            Trial::Opened(content, content_type, algorithm),
                        ),
                        Err(Tls13Error::RecordTooShort) => (cached, Trial::TooShort),
                        Err(_) => cached.try_from(g, secret, body, i + 1, true),
                    }
                },
            }
        }
    }

    /// Tries the handshake secret, then the application secret.
    pub open spec fn decrypt(
        self,
        handshake: Option<Seq<u8>>,
        application: Option<Seq<u8>>,
        body: Seq<u8>,
    ) -> (DirectionModel, Result<RecordModel, ProcessError>) {
        let (first, a) = self.try_from(Generation::Handshake, handshake, body, 0, false);
        match a {
            Trial::Opened(plaintext, content_type, algorithm) => (
                first,
                Ok(
                    RecordModel {
                        plaintext,
                        content_type,
                        algorithm,
                        version: VersionModel::Tls13 { generation: Generation::Handshake },
                    },
                ),
            ),
            Trial::TooShort => (first, Err(ProcessError::AuthFailed)),
            _ => {
                let (second, b) = first.try_from(
                    Generation::Application,
                    application,
                    body,
                    0,
                    false,
                );
                match b {
                    Trial::Opened(plaintext, content_type, algorithm) => (
                        second,
                        Ok(
                            RecordModel {
                                plaintext,
                                content_type,
                                algorithm,
                                version: VersionModel::Tls13 {
                                    generation: Generation::Application,
                                },
                            },
                        ),
                    ),
                    Trial::TooShort => (second, Err(ProcessError::AuthFailed)),
                    _ => (
                        second,
                        Err(
                            if a is Refused && b is Refused {
                                ProcessError::AuthFailed
                            } else {
                                ProcessError::NoKey
                            },
                        ),
                    ),
                }
            },
        }
    }
}

/// What `DirectionState::try_generation` found.
enum Attempt {
    Opened(Vec<u8>, u8, AeadAlgorithm),
    TooShort,
    Refused,
    NoKey,
}

impl View for Attempt {
    type V = Trial;

    closed spec fn view(&self) -> Trial {
        match *self {
            Attempt::Opened(content, content_type, algorithm) => Trial::Opened(
                content@,
                content_type,
                algorithm,
            ),
            Attempt::TooShort => Trial::TooShort,
            Attempt::Refused => Trial::Refused,
            Attempt::NoKey => Trial::NoKey,
        }
    }
}

/// The bytes of a secret, if there is one.
pub open spec fn secret_view(secret: Option<&[u8]>) -> Option<Seq<u8>> {
    match secret {
        Some(secret) => Some(secret@),
        None => None,
    }
}

impl DirectionState {
    fn new() -> (state: DirectionState)
        ensures
            state@ == DirectionModel::fresh(),
    {
        DirectionState {
            seq_handshake: 0,
            seq_application: 0,
            keys_handshake: KeyCache::new(),
            keys_application: KeyCache::new(),
        }
    }

    fn cache_of(&self, g: Generation) -> (cache: &KeyCache)
        ensures
            cache@ == self@.cache(g),
    {
        match g {
            Generation::Handshake => &self.keys_handshake,
            Generation::Application => &self.keys_application,
        }
    }

    /// Makes sure the keys of a generation for an algorithm are cached. Returns whether there are
    /// any.
    fn keys_for(&mut self, g: Generation, secret: Option<&[u8]>, algorithm: AeadAlgorithm) -> (
        available: bool)
        ensures
            available == (old(self)@.keys(g, secret_view(secret), algorithm) is Some),
            match old(self)@.keys(g, secret_view(secret), algorithm) {
                Some(keys) => {
                    &&& final(self)@ == old(self)@.remember(g, algorithm, keys)
                    &&& final(self)@.cache(g).get(algorithm) == Some(keys)
                },
                None => final(self)@ == old(self)@,
            },
    {
        match secret {
            None => false,
            Some(secret) => {
                if self.cache_of(g).get(algorithm).is_some() {
                    return true;
                }
                match tls13::RecordKeys::derive(secret, algorithm) {
                    None => false,
                    Some(keys) => {
                        match g {
                            Generation::Handshake => {
                                self.keys_handshake.put(algorithm, keys);
                            },
                            Generation::Application => {
                                self.keys_application.put(algorithm, keys);
                            },
                        }
                        true
                    },
                }
            },
        }
    }

    fn current_seq(&self, g: Generation) -> (seq: u64)
        ensures
            seq == self@.seq(g),
    {
        match g {
            Generation::Handshake => self.seq_handshake,
            Generation::Application => self.seq_application,
        }
    }

    fn next_seq(&mut self, g: Generation)
        requires
            old(self)@.seq(g) < u64::MAX,
        ensures
            final(self)@ == old(self)@.advance(g),
    {
        match g {
            Generation::Handshake => {
                self.seq_handshake = self.seq_handshake + 1;
            },
            Generation::Application => {
                self.seq_application = self.seq_application + 1;
            },
        }
    }

    fn try_generation(&mut self, g: Generation, secret: Option<&[u8]>, body: &[u8]) -> (attempt:
        Attempt)
        requires
            old(self)@.seq(g) < u64::MAX,
            body@.len() <= MAX_SEALED_LEN,
        ensures
            (final(self)@, attempt@) == old(self)@.try_from(
                g,
                secret_view(secret),
                body@,
                0,
                false,
            ),
            attempt matches Attempt::Opened(content, _, _) ==> content@.len() + 1 + TAG_LEN
                <= body@.len(),
    {
        let aad = record_aad(body.len());
        let seq: u64 = self.current_seq(g);
        let mut tried = false;
        let mut i: usize = 0;
        while i < 3
            invariant
                i <= 3,
                aad@ == spec_record_aad(body@.len() as usize),
                body@.len() <= MAX_SEALED_LEN,
                seq == self@.seq(g),
                seq < u64::MAX,
                self@.try_from(g, secret_view(secret), body@, i as int, tried) == old(
                    self,
                )@.try_from(g, secret_view(secret), body@, 0, false),
            decreases 3 - i,
        {
            let algorithm = candidate_at(i);
            let ghost before = self@;
            if self.keys_for(g, secret, algorithm) {
                tried = true;
                if let Some(keys) = self.cache_of(g).get(algorithm) {
                    match keys.decrypt_record(seq, &aad, body) {
                        Ok((content, content_type)) => {
                            self.next_seq(g);
                            return Attempt::Opened(content, content_type, algorithm);
                        },
                        Err(Tls13Error::RecordTooShort) => {
                            return Attempt::TooShort;
                        },
                        Err(_) => {},
                    }
                }
            }
            i += 1;
        }
        if tried {
            Attempt::Refused
        } else {
            Attempt::NoKey
        }
    }

    fn decrypt(
        &mut self,
        handshake: Option<&[u8]>,
        application: Option<&[u8]>,
        body: &[u8],
    ) -> (result: Result<DecryptedRecord, ProcessError>)
        requires
            old(self)@.seq_handshake < u64::MAX,
            old(self)@.seq_application < u64::MAX,
            body@.len() <= MAX_SEALED_LEN,
        ensures
            (final(self)@, result_view(result)) == old(self)@.decrypt(
                secret_view(handshake),
                secret_view(application),
                body@,
            ),
            result matches Ok(record) ==> length_fits(record@, body@.len()),
    {
        proof {
            lemma_try_keeps_other_seq(
                self@,
                Generation::Handshake,
                secret_view(handshake),
                body@,
                0,
                false,
            );
        }
        let first = self.try_generation(Generation::Handshake, handshake, body);
        let refused = match first {
            Attempt::Opened(plaintext, content_type, algorithm) => {
                return Ok(
                    DecryptedRecord {
                        plaintext,
                        content_type,
                        algorithm,
                        version: RecordVersion::Tls13 { generation: Generation::Handshake },
                    },
                );
            },
            Attempt::TooShort => {
                return Err(ProcessError::AuthFailed);
            },
            Attempt::Refused => true,
            Attempt::NoKey => false,
        };
        match self.try_generation(Generation::Application, application, body) {
            Attempt::Opened(plaintext, content_type, algorithm) => Ok(
                DecryptedRecord {
                    plaintext,
                    content_type,
                    algorithm,
                    version: RecordVersion::Tls13 { generation: Generation::Application },
                },
            ),
            Attempt::TooShort => Err(ProcessError::AuthFailed),
            Attempt::Refused => Err(
                if refused {
                    ProcessError::AuthFailed
                } else {
                    ProcessError::NoKey
                },
            ),
            Attempt::NoKey => Err(ProcessError::NoKey),
        }
    }
}

/// How the length of a record's plaintext and that of its body go together: under TLS 1.2 the body
/// also holds the explicit nonce and the tag, under TLS 1.3 the content type, the padding and the
/// tag.
pub open spec fn length_fits(record: RecordModel, body_len: nat) -> bool {
    match record.version {
        VersionModel::Tls12 { .. } => record.plaintext.len() + 8 + TAG_LEN == body_len,
        VersionModel::Tls13 { .. } => record.plaintext.len() + 1 + TAG_LEN <= body_len,
    }
}

/// The value of a decryption's result.
pub open spec fn result_view(result: Result<DecryptedRecord, ProcessError>) -> Result<
    RecordModel,
    ProcessError,
> {
    match result {
        Ok(record) => Ok(record@),
        Err(e) => Err(e),
    }
}

/// Trying one generation leaves the other's sequence number and keys alone, and moves its own
/// number on by one exactly when the record opens.
proof fn lemma_try_keeps_other_seq(
    d: DirectionModel,
    g: Generation,
    secret: Option<Seq<u8>>,
    body: Seq<u8>,
    i: int,
    tried: bool,
)
    ensures
        ({
            let (after, trial) = d.try_from(g, secret, body, i, tried);
            match g {
                Generation::Handshake => after.seq_application == d.seq_application
                    && after.keys_application == d.keys_application,
                Generation::Application => after.seq_handshake == d.seq_handshake
                    && after.keys_handshake == d.keys_handshake,
            }
        }),
        ({
            let (after, trial) = d.try_from(g, secret, body, i, tried);
            after.seq(g) == if trial is Opened {
                (d.seq(g) + 1) as u64
            } else {
                d.seq(g)
            }
        }),
    decreases 3 - i,
{
    if i < 3 {
        let algorithm = candidate(i);
        match d.keys(g, secret, algorithm) {
            None => lemma_try_keeps_other_seq(d, g, secret, body, i + 1, tried),
            Some(keys) => {
                let cached = d.remember(g, algorithm, keys);
                lemma_try_keeps_other_seq(cached, g, secret, body, i + 1, true);
            },
        }
    }
}

/// One direction of a TLS 1.2 connection: one secret, so one sequence number.
struct Tls12DirectionState {
    seq: u64,
    aes128: Option<tls12::RecordKeys>,
    aes256: Option<tls12::RecordKeys>,
}

/// The state of one direction of a TLS 1.2 connection: the sequence number of its next record and
/// the keys derived so far.
pub struct Tls12DirectionModel {
    pub seq: u64,
    pub aes128: Option<tls12::KeyModel>,
    pub aes256: Option<tls12::KeyModel>,
}

spec fn keys12_view(keys: Option<tls12::RecordKeys>) -> Option<tls12::KeyModel> {
    match keys {
        Some(keys) => Some(keys@),
        None => None,
    }
}

impl View for Tls12DirectionState {
    type V = Tls12DirectionModel;

    closed spec fn view(&self) -> Tls12DirectionModel {
        Tls12DirectionModel {
            seq: self.seq,
            aes128: keys12_view(self.aes128),
            aes256: keys12_view(self.aes256),
        }
    }
}

/// What the key block of one direction is derived from.
pub struct Tls12Secrets {
    pub master_secret: Seq<u8>,
    pub client_random: Seq<u8>,
    pub server_random: Seq<u8>,
    pub is_client: bool,
}

impl Tls12DirectionModel {
    pub open spec fn fresh() -> Tls12DirectionModel {
        Tls12DirectionModel { seq: 0, aes128: None, aes256: None }
    }

    /// The keys for AES-128-GCM: those derived before, else those that the secrets give.
    pub open spec fn keys_aes128(self, s: Tls12Secrets) -> tls12::KeyModel {
        match self.aes128 {
            Some(keys) => keys,
            None => tls12::KeyModel::derived(
                s.master_secret,
                s.client_random,
                s.server_random,
                AeadAlgorithm::Aes128Gcm,
                s.is_client,
            ),
        }
    }

    /// The keys for AES-256-GCM: those derived before, else those that the secrets give.
    pub open spec fn keys_aes256(self, s: Tls12Secrets) -> tls12::KeyModel {
        match self.aes256 {
            Some(keys) => keys,
            None => tls12::KeyModel::derived(
                s.master_secret,
                s.client_random,
                s.server_random,
                AeadAlgorithm::Aes256Gcm,
                s.is_client,
            ),
        }
    }

    /// Tries AES-128-GCM, then AES-256-GCM. The first eight bytes of the body are the explicit
    /// nonce; what cannot hold it and a tag is no record.
    pub open spec fn decrypt(self, s: Tls12Secrets, content_type: u8, body: Seq<u8>) -> (
        Tls12DirectionModel,
        Result<RecordModel, ProcessError>,
    ) {
        if body.len() < 24 {
            (self, Err(ProcessError::AuthFailed))
        } else {
            let nonce = body.take(8);
            let ciphertext = body.skip(8);
            let first = Tls12DirectionModel { aes128: Some(self.keys_aes128(s)), ..self };
            match self.keys_aes128(s).decrypted(self.seq, content_type, nonce, ciphertext) {
                Some(plaintext) => (
                    Tls12DirectionModel { seq: (self.seq + 1) as u64, ..first },
                    Ok(
                        RecordModel {
                            plaintext,
                            content_type,
                            algorithm: AeadAlgorithm::Aes128Gcm,
                            version: VersionModel::Tls12 { explicit_nonce: nonce },
                        },
                    ),
                ),
                None => {
                    let second = Tls12DirectionModel {
                        aes256: Some(self.keys_aes256(s)),
                        ..first
                    };
                    match self.keys_aes256(s).decrypted(self.seq, content_type, nonce, ciphertext) {
                        Some(plaintext) => (
                            Tls12DirectionModel { seq: (self.seq + 1) as u64, ..second },
                            Ok(
                                RecordModel {
                                    plaintext,
                                    content_type,
                                    algorithm: AeadAlgorithm::Aes256Gcm,
                                    version: VersionModel::Tls12 { explicit_nonce: nonce },
                                },
                            ),
                        ),
                        None => (second, Err(ProcessError::AuthFailed)),
                    }
                },
            }
        }
    }
}

impl Tls12DirectionState {
    fn new() -> (state: Tls12DirectionState)
        ensures
            state@ == Tls12DirectionModel::fresh(),
    {
        Tls12DirectionState { seq: 0, aes128: None, aes256: None }
    }

    /// Tries the keys of one algorithm, deriving them first where that has not been done.
    fn try_keys(
        cached: Option<tls12::RecordKeys>,
        master_secret: &[u8],
        client_random: &[u8; 32],
        server_random: &[u8; 32],
        algorithm: AeadAlgorithm,
        is_client: bool,
        seq: u64,
        content_type: u8,
        explicit_nonce: &[u8; 8],
        ciphertext: &[u8],
    ) -> (tried: (tls12::RecordKeys, Option<Vec<u8>>))
        requires
            ciphertext@.len() <= MAX_SEALED_LEN,
        ensures
            tried.0@ == match cached {
                Some(keys) => keys@,
                None => tls12::KeyModel::derived(
                    master_secret@,
                    client_random@,
                    server_random@,
                    algorithm,
                    is_client,
                ),
            },
            match tried.1 {
                Some(plaintext) => {
                    &&& tried.0@.decrypted(seq, content_type, explicit_nonce@, ciphertext@) == Some(
                        plaintext@,
                    )
                    &&& plaintext@.len() + TAG_LEN == ciphertext@.len()
                },
                None => tried.0@.decrypted(seq, content_type, explicit_nonce@, ciphertext@) is None,
            },
    {
        let keys = match cached {
            Some(keys) => keys,
            None => tls12::RecordKeys::derive(
                master_secret,
                client_random,
                server_random,
                algorithm,
                is_client,
            ),
        };
        let opened = match keys.decrypt_record(seq, content_type, explicit_nonce, ciphertext) {
            Ok(plaintext) => Some(plaintext),
            Err(_) => None,
        };
        (keys, opened)
    }

    fn decrypt(
        &mut self,
        master_secret: &[u8],
        client_random: &[u8; 32],
        server_random: &[u8; 32],
        is_client: bool,
        content_type: u8,
        body: &[u8],
    ) -> (result: Result<DecryptedRecord, ProcessError>)
        requires
            old(self)@.seq < u64::MAX,
            body@.len() <= MAX_SEALED_LEN,
        ensures
            (final(self)@, result_view(result)) == old(self)@.decrypt(
                Tls12Secrets {
                    master_secret: master_secret@,
                    client_random: client_random@,
                    server_random: server_random@,
                    is_client,
                },
                content_type,
                body@,
            ),
            result matches Ok(record) ==> length_fits(record@, body@.len()),
    {
        if body.len() < 8 + 16 {
            return Err(ProcessError::AuthFailed);
        }
        let explicit_nonce = [
            body[0],
            body[1],
            body[2],
            body[3],
            body[4],
            body[5],
            body[6],
            body[7],
        ];
        let ciphertext = slice_subrange(body, 8, body.len());
        proof {
            assert(explicit_nonce@ =~= body@.take(8));
            assert(ciphertext@ =~= body@.skip(8));
        }
        let seq: u64 = self.seq;
        let (keys, opened) = Tls12DirectionState::try_keys(
            self.aes128.take(),
            master_secret,
            client_random,
            server_random,
            AeadAlgorithm::Aes128Gcm,
            is_client,
            seq,
            content_type,
            &explicit_nonce,
            ciphertext,
        );
        self.aes128 = Some(keys);
        if let Some(plaintext) = opened {
            self.seq = seq + 1;
            return Ok(
                DecryptedRecord {
                    plaintext,
                    content_type,
                    algorithm: AeadAlgorithm::Aes128Gcm,
                    version: RecordVersion::Tls12 { explicit_nonce },
                },
            );
        }
        let (keys, opened) = Tls12DirectionState::try_keys(
            self.aes256.take(),
            master_secret,
            client_random,
            server_random,
            AeadAlgorithm::Aes256Gcm,
            is_client,
            seq,
            content_type,
            &explicit_nonce,
            ciphertext,
        );
        self.aes256 = Some(keys);
        if let Some(plaintext) = opened {
            self.seq = seq + 1;
            return Ok(
                DecryptedRecord {
                    plaintext,
                    content_type,
                    algorithm: AeadAlgorithm::Aes256Gcm,
                    version: RecordVersion::Tls12 { explicit_nonce },
                },
            );
        }
        Err(ProcessError::AuthFailed)
    }
}

/// The record-layer state of one connection, in both directions. A connection is either TLS 1.3 or
/// TLS 1.2; which one shows in what decrypts.
pub struct ConnectionState {
    client_random: Vec<u8>,
    server_random: Option<[u8; 32]>,
    client_to_server: DirectionState,
    server_to_client: DirectionState,
    tls12_client_to_server: Tls12DirectionState,
    tls12_server_to_client: Tls12DirectionState,
}

/// What a `ConnectionState` holds.
pub struct ConnectionStateModel {
    pub client_random: Seq<u8>,
    pub server_random: Option<Seq<u8>>,
    pub client_to_server: DirectionModel,
    pub server_to_client: DirectionModel,
    pub tls12_client_to_server: Tls12DirectionModel,
    pub tls12_server_to_client: Tls12DirectionModel,
}

impl View for ConnectionState {
    type V = ConnectionStateModel;

    closed spec fn view(&self) -> ConnectionStateModel {
        ConnectionStateModel {
            client_random: self.client_random@,
            server_random: match self.server_random {
                Some(random) => Some(random@),
                None => None,
            },
            client_to_server: self.client_to_server@,
            server_to_client: self.server_to_client@,
            tls12_client_to_server: self.tls12_client_to_server@,
            tls12_server_to_client: self.tls12_server_to_client@,
        }
    }
}

impl ConnectionStateModel {
    /// A connection of which only the ClientHello has been seen.
    pub open spec fn fresh(client_random: Seq<u8>) -> ConnectionStateModel {
        ConnectionStateModel {
            client_random,
            server_random: None,
            client_to_server: DirectionModel::fresh(),
            server_to_client: DirectionModel::fresh(),
            tls12_client_to_server: Tls12DirectionModel::fresh(),
            tls12_server_to_client: Tls12DirectionModel::fresh(),
        }
    }

    /// No sequence number is above `n`.
    pub open spec fn seqs_within(self, n: int) -> bool {
        &&& self.client_to_server.seq_handshake <= n
        &&& self.client_to_server.seq_application <= n
        &&& self.server_to_client.seq_handshake <= n
        &&& self.server_to_client.seq_application <= n
        &&& self.tls12_client_to_server.seq <= n
        &&& self.tls12_server_to_client.seq <= n
    }

    /// The sum of all sequence numbers.
    pub open spec fn seq_sum(self) -> int {
        self.client_to_server.seq_handshake + self.client_to_server.seq_application
            + self.server_to_client.seq_handshake + self.server_to_client.seq_application
            + self.tls12_client_to_server.seq + self.tls12_server_to_client.seq
    }

    /// Learns the server's random, unless one is known.
    pub open spec fn with_server_random(self, random: Seq<u8>) -> ConnectionStateModel {
        match self.server_random {
            Some(_) => self,
            None => ConnectionStateModel { server_random: Some(random), ..self },
        }
    }

    /// Tries TLS 1.3.
    pub open spec fn decrypt_tls13(self, keylog: Seq<SecretEntry>, c2s: bool, body: Seq<u8>) -> (
        ConnectionStateModel,
        Result<RecordModel, ProcessError>,
    ) {
        if c2s {
            let (after, result) = self.client_to_server.decrypt(
                last_secret(keylog, self.client_random, SecretLabel::ClientHandshakeTrafficSecret),
                last_secret(keylog, self.client_random, SecretLabel::ClientTrafficSecret0),
                body,
            );
            (ConnectionStateModel { client_to_server: after, ..self }, result)
        } else {
            let (after, result) = self.server_to_client.decrypt(
                last_secret(keylog, self.client_random, SecretLabel::ServerHandshakeTrafficSecret),
                last_secret(keylog, self.client_random, SecretLabel::ServerTrafficSecret0),
                body,
            );
            (ConnectionStateModel { server_to_client: after, ..self }, result)
        }
    }

    /// Tries TLS 1.2, which takes the master secret and both randoms.
    pub open spec fn decrypt_tls12(
        self,
        keylog: Seq<SecretEntry>,
        c2s: bool,
        content_type: u8,
        body: Seq<u8>,
    ) -> (ConnectionStateModel, Result<RecordModel, ProcessError>) {
        match (
            self.server_random,
            last_secret(keylog, self.client_random, SecretLabel::ClientRandom),
        ) {
            (Some(server_random), Some(master_secret)) if self.client_random.len() == 32 => {
                let secrets = Tls12Secrets {
                    master_secret,
                    client_random: self.client_random,
                    server_random,
                    is_client: c2s,
                };
                if c2s {
                    let (after, result) = self.tls12_client_to_server.decrypt(
                        secrets,
                        content_type,
                        body,
                    );
                    (ConnectionStateModel { tls12_client_to_server: after, ..self }, result)
                } else {
                    let (after, result) = self.tls12_server_to_client.decrypt(
                        secrets,
                        content_type,
                        body,
                    );
                    (ConnectionStateModel { tls12_server_to_client: after, ..self }, result)
                }
            },
            _ => (self, Err(ProcessError::NoKey)),
        }
    }

    /// Tries TLS 1.3, then TLS 1.2.
    #[verifier::opaque]
    pub open spec fn decrypt(
        self,
        keylog: Seq<SecretEntry>,
        c2s: bool,
        outer_content_type: u8,
        body: Seq<u8>,
    ) -> (ConnectionStateModel, Result<RecordModel, ProcessError>) {
        let (first, a) = self.decrypt_tls13(keylog, c2s, body);
        match a {
            Ok(record) => (first, Ok(record)),
            Err(e) => {
                let (second, b) = first.decrypt_tls12(keylog, c2s, outer_content_type, body);
                match b {
                    Ok(record) => (second, Ok(record)),
                    Err(f) => (
                        second,
                        Err(
                            if e == ProcessError::AuthFailed || f == ProcessError::AuthFailed {
                                ProcessError::AuthFailed
                            } else {
                                ProcessError::NoKey
                            },
                        ),
                    ),
                }
            },
        }
    }
}

impl ConnectionState {
    pub fn new(client_random: Vec<u8>) -> (state: ConnectionState)
        ensures
            state@ == ConnectionStateModel::fresh(client_random@),
    {
        ConnectionState {
            client_random,
            server_random: None,
            client_to_server: DirectionState::new(),
            server_to_client: DirectionState::new(),
            tls12_client_to_server: Tls12DirectionState::new(),
            tls12_server_to_client: Tls12DirectionState::new(),
        }
    }

    pub fn client_random(&self) -> (random: &[u8])
        ensures
            random@ == self@.client_random,
    {
        self.client_random.as_slice()
    }

    /// Learns the ServerHello's random, which TLS 1.2 keys are derived from. The first one stays;
    /// returns whether this was it.
    pub fn set_server_random(&mut self, server_random: [u8; 32]) -> (was_unset: bool)
        ensures
            was_unset == (old(self)@.server_random is None),
            final(self)@ == old(self)@.with_server_random(server_random@),
    {
        if self.server_random.is_none() {
            self.server_random = Some(server_random);
            true
        } else {
            false
        }
    }

    /// Attempts to decrypt the body of one record: every TLS 1.3 generation and algorithm, the
    /// handshake's first, then TLS 1.2. On success the sequence number of what opened it moves on.
    ///
    /// Every encrypted record of a connection has to be handed in. TLS 1.2 counts all records of a
    /// direction together, so one left out would put all later ones out of step.
    pub fn decrypt(
        &mut self,
        keylog: &Keylog,
        is_client_to_server: bool,
        outer_content_type: u8,
        encrypted_body: &[u8],
    ) -> (result: Result<DecryptedRecord, ProcessError>)
        requires
            old(self)@.seqs_within(u64::MAX - 1),
            encrypted_body@.len() <= MAX_SEALED_LEN,
        ensures
            (final(self)@, result_view(result)) == old(self)@.decrypt(
                keylog@,
                is_client_to_server,
                outer_content_type,
                encrypted_body@,
            ),
            result matches Ok(record) ==> length_fits(record@, encrypted_body@.len()),
    {
        proof {
            reveal(ConnectionStateModel::decrypt);
        }
        match self.decrypt_tls13(keylog, is_client_to_server, encrypted_body) {
            Ok(record) => Ok(record),
            Err(e) => {
                match self.decrypt_tls12(
                    keylog,
                    is_client_to_server,
                    outer_content_type,
                    encrypted_body,
                ) {
                    Ok(record) => Ok(record),
                    Err(f) => Err(
                        if e == ProcessError::AuthFailed || f == ProcessError::AuthFailed {
                            ProcessError::AuthFailed
                        } else {
                            ProcessError::NoKey
                        },
                    ),
                }
            },
        }
    }

    fn decrypt_tls13(&mut self, keylog: &Keylog, is_client_to_server: bool, body: &[u8]) -> (result:
        Result<DecryptedRecord, ProcessError>)
        requires
            old(self)@.seqs_within(u64::MAX - 1),
            body@.len() <= MAX_SEALED_LEN,
        ensures
            (final(self)@, result_view(result)) == old(self)@.decrypt_tls13(
                keylog@,
                is_client_to_server,
                body@,
            ),
            result matches Ok(record) ==> length_fits(record@, body@.len()),
    {
        let random = self.client_random.as_slice();
        if is_client_to_server {
            let handshake = keylog.secret_for(random, SecretLabel::ClientHandshakeTrafficSecret);
            let application = keylog.secret_for(random, SecretLabel::ClientTrafficSecret0);
            self.client_to_server.decrypt(handshake, application, body)
        } else {
            let handshake = keylog.secret_for(random, SecretLabel::ServerHandshakeTrafficSecret);
            let application = keylog.secret_for(random, SecretLabel::ServerTrafficSecret0);
            self.server_to_client.decrypt(handshake, application, body)
        }
    }

    fn decrypt_tls12(
        &mut self,
        keylog: &Keylog,
        is_client_to_server: bool,
        content_type: u8,
        body: &[u8],
    ) -> (result: Result<DecryptedRecord, ProcessError>)
        requires
            old(self)@.tls12_client_to_server.seq < u64::MAX,
            old(self)@.tls12_server_to_client.seq < u64::MAX,
            body@.len() <= MAX_SEALED_LEN,
        ensures
            (final(self)@, result_view(result)) == old(self)@.decrypt_tls12(
                keylog@,
                is_client_to_server,
                content_type,
                body@,
            ),
            result matches Ok(record) ==> length_fits(record@, body@.len()),
    {
        let server_random = match self.server_random {
            Some(random) => random,
            None => {
                return Err(ProcessError::NoKey);
            },
        };
        if self.client_random.len() != 32 {
            return Err(ProcessError::NoKey);
        }
        let client_random = copy_array_32(self.client_random.as_slice(), 0);
        assert(client_random@ =~= self.client_random@);
        let master_secret = match keylog.secret_for(
            self.client_random.as_slice(),
            SecretLabel::ClientRandom,
        ) {
            Some(secret) => secret,
            None => {
                return Err(ProcessError::NoKey);
            },
        };
        if is_client_to_server {
            self.tls12_client_to_server.decrypt(
                master_secret,
                &client_random,
                &server_random,
                true,
                content_type,
                body,
            )
        } else {
            self.tls12_server_to_client.decrypt(
                master_secret,
                &client_random,
                &server_random,
                false,
                content_type,
                body,
            )
        }
    }
}

/// A record that opens moves exactly one sequence number on by one, that of its own direction,
/// version and generation; one that does not open moves none.
pub proof fn law_one_counter_moves(
    state: ConnectionStateModel,
    keylog: Seq<SecretEntry>,
    c2s: bool,
    outer_content_type: u8,
    body: Seq<u8>,
)
    requires
        state.seqs_within(u64::MAX - 1),
    ensures
        ({
            let (after, result) = state.decrypt(keylog, c2s, outer_content_type, body);
            let moved = |opened: bool, version: bool, direction: bool, before: u64, now: u64|
                now == before + if opened && version && direction {
                    1int
                } else {
                    0int
                };
            let ok = result is Ok;
            let version = result->Ok_0.version;
            let handshake = version == (VersionModel::Tls13 { generation: Generation::Handshake });
            let application = version == (VersionModel::Tls13 {
                generation: Generation::Application,
            });
            let tls12 = version is Tls12;
            &&& moved(
                ok,
                handshake,
                c2s,
                state.client_to_server.seq_handshake,
                after.client_to_server.seq_handshake,
            )
            &&& moved(
                ok,
                application,
                c2s,
                state.client_to_server.seq_application,
                after.client_to_server.seq_application,
            )
            &&& moved(
                ok,
                tls12,
                c2s,
                state.tls12_client_to_server.seq,
                after.tls12_client_to_server.seq,
            )
            &&& moved(
                ok,
                handshake,
                !c2s,
                state.server_to_client.seq_handshake,
                after.server_to_client.seq_handshake,
            )
            &&& moved(
                ok,
                application,
                !c2s,
                state.server_to_client.seq_application,
                after.server_to_client.seq_application,
            )
            &&& moved(
                ok,
                tls12,
                !c2s,
                state.tls12_server_to_client.seq,
                after.tls12_server_to_client.seq,
            )
        }),
        ({
            let (after, result) = state.decrypt(keylog, c2s, outer_content_type, body);
            after.seq_sum() == state.seq_sum() + if result is Ok {
                1int
            } else {
                0int
            }
        }),
        ({
            let (after, result) = state.decrypt(keylog, c2s, outer_content_type, body);
            &&& after.client_random == state.client_random
            &&& after.server_random == state.server_random
        }),
{
    reveal(ConnectionStateModel::decrypt);
    let d = if c2s { state.client_to_server } else { state.server_to_client };
    let (handshake, application) = if c2s {
        (
            last_secret(keylog, state.client_random, SecretLabel::ClientHandshakeTrafficSecret),
            last_secret(keylog, state.client_random, SecretLabel::ClientTrafficSecret0),
        )
    } else {
        (
            last_secret(keylog, state.client_random, SecretLabel::ServerHandshakeTrafficSecret),
            last_secret(keylog, state.client_random, SecretLabel::ServerTrafficSecret0),
        )
    };
    lemma_try_keeps_other_seq(d, Generation::Handshake, handshake, body, 0, false);
    let first = d.try_from(Generation::Handshake, handshake, body, 0, false).0;
    lemma_try_keeps_other_seq(first, Generation::Application, application, body, 0, false);
}

/// The candidates before `upto` have no keys, or keys that do not open the record.
pub open spec fn none_before(
    d: DirectionModel,
    g: Generation,
    secret: Option<Seq<u8>>,
    body: Seq<u8>,
    upto: int,
) -> bool {
    forall|j: int|
        0 <= j < upto ==> match d.keys(g, secret, #[trigger] candidate(j)) {
            None => true,
            Some(keys) => keys.decrypted(d.seq(g), spec_record_aad(body.len() as usize), body) is Err,
        }
}

/// The first candidate that opens a record gives its plaintext, whatever other keys were tried
/// before.
pub proof fn law_first_opening_candidate_wins(
    d: DirectionModel,
    g: Generation,
    secret: Option<Seq<u8>>,
    body: Seq<u8>,
    i: int,
    content: Seq<u8>,
    content_type: u8,
)
    requires
        0 <= i < 3,
        body.len() >= 16,
        none_before(d, g, secret, body, i),
        d.keys(g, secret, candidate(i)) matches Some(keys) && keys.decrypted(
            d.seq(g),
            spec_record_aad(body.len() as usize),
            body,
        ) == Ok::<(Seq<u8>, u8), Tls13Error>((content, content_type)),
    ensures
        d.try_from(g, secret, body, 0, false).1 == Trial::Opened(
            content,
            content_type,
            candidate(i),
        ),
{
    lemma_opens_from(d, g, secret, body, i, 0, false, content, content_type);
}

proof fn lemma_opens_from(
    d: DirectionModel,
    g: Generation,
    secret: Option<Seq<u8>>,
    body: Seq<u8>,
    i: int,
    from: int,
    tried: bool,
    content: Seq<u8>,
    content_type: u8,
)
    requires
        0 <= from <= i < 3,
        body.len() >= 16,
        forall|j: int|
            from <= j < i ==> match d.keys(g, secret, #[trigger] candidate(j)) {
                None => true,
                Some(keys) => keys.decrypted(
                    d.seq(g),
                    spec_record_aad(body.len() as usize),
                    body,
                ) is Err,
            },
        d.keys(g, secret, candidate(i)) matches Some(keys) && keys.decrypted(
            d.seq(g),
            spec_record_aad(body.len() as usize),
            body,
        ) == Ok::<(Seq<u8>, u8), Tls13Error>((content, content_type)),
    ensures
        d.try_from(g, secret, body, from, tried).1 == Trial::Opened(
            content,
            content_type,
            candidate(i),
        ),
    decreases i - from,
{
    if from < i {
        match d.keys(g, secret, candidate(from)) {
            None => lemma_opens_from(
                d,
                g,
                secret,
                body,
                i,
                from + 1,
                tried,
                content,
                content_type,
            ),
            Some(keys) => {
                let cached = d.remember(g, candidate(from), keys);
                assert forall|j: int| from + 1 <= j <= i implies cached.keys(
                    g,
                    secret,
                    #[trigger] candidate(j),
                ) == d.keys(g, secret, candidate(j)) by {}
                lemma_opens_from(
                    cached,
                    g,
                    secret,
                    body,
                    i,
                    from + 1,
                    true,
                    content,
                    content_type,
                );
            },
        }
    }
}

/// A record protected under the logged application secret comes out decrypted: if it opens under
/// the keys that the secret gives for one of the candidates at the direction's current sequence
/// number, and under none that is tried before, the connection returns its content.
pub proof fn law_logged_secret_opens_record(
    state: ConnectionStateModel,
    keylog: Seq<SecretEntry>,
    c2s: bool,
    outer_content_type: u8,
    body: Seq<u8>,
    i: int,
    content: Seq<u8>,
    content_type: u8,
)
    requires
        0 <= i < 3,
        body.len() >= 16,
        ({
            let d = if c2s { state.client_to_server } else { state.server_to_client };
            let handshake = last_secret(keylog, state.client_random, handshake_label(c2s));
            let application = last_secret(keylog, state.client_random, application_label(c2s));
            &&& none_before(d, Generation::Handshake, handshake, body, 3)
            &&& none_before(d, Generation::Application, application, body, i)
            &&& d.keys(Generation::Application, application, candidate(i)) matches Some(keys)
                && keys.decrypted(
                d.seq_application,
                spec_record_aad(body.len() as usize),
                body,
            ) == Ok::<(Seq<u8>, u8), Tls13Error>((content, content_type))
        }),
    ensures
        state.decrypt(keylog, c2s, outer_content_type, body).1 == Ok::<RecordModel, ProcessError>(
            RecordModel {
                plaintext: content,
                content_type,
                algorithm: candidate(i),
                version: VersionModel::Tls13 { generation: Generation::Application },
            },
        ),
{
    reveal(ConnectionStateModel::decrypt);
    let d = if c2s { state.client_to_server } else { state.server_to_client };
    let handshake = last_secret(keylog, state.client_random, handshake_label(c2s));
    let application = last_secret(keylog, state.client_random, application_label(c2s));
    lemma_nothing_opens(d, Generation::Handshake, handshake, body, 0, false);
    let first = d.try_from(Generation::Handshake, handshake, body, 0, false).0;
    lemma_try_keeps_other_seq(d, Generation::Handshake, handshake, body, 0, false);
    assert forall|j: int| 0 <= j < 3 implies first.keys(
        Generation::Application,
        application,
        #[trigger] candidate(j),
    ) == d.keys(Generation::Application, application, candidate(j)) by {}
    assert(none_before(first, Generation::Application, application, body, i)) by {
        assert forall|j: int| 0 <= j < i implies match first.keys(
            Generation::Application,
            application,
            #[trigger] candidate(j),
        ) {
            None => true,
            Some(keys) => keys.decrypted(
                first.seq_application,
                spec_record_aad(body.len() as usize),
                body,
            ) is Err,
        } by {
            assert(d.keys(Generation::Application, application, candidate(j)) == first.keys(
                Generation::Application,
                application,
                candidate(j),
            ));
        }
    }
    law_first_opening_candidate_wins(
        first,
        Generation::Application,
        application,
        body,
        i,
        content,
        content_type,
    );
}

/// A record of a TLS 1.2 connection protected under the logged master secret comes out decrypted:
/// if one of the two AES-GCM keys that the master secret and both randoms give opens it at the
/// direction's current sequence number, the connection returns its content.
pub proof fn law_logged_master_secret_opens_record(
    state: ConnectionStateModel,
    keylog: Seq<SecretEntry>,
    c2s: bool,
    outer_content_type: u8,
    body: Seq<u8>,
    content: Seq<u8>,
)
    requires
        body.len() >= 24,
        state.client_random.len() == 32,
        state.server_random is Some,
        last_secret(keylog, state.client_random, SecretLabel::ClientRandom) is Some,
        last_secret(keylog, state.client_random, handshake_label(c2s)) is None,
        last_secret(keylog, state.client_random, application_label(c2s)) is None,
        ({
            let d = if c2s { state.tls12_client_to_server } else { state.tls12_server_to_client };
            let secrets = Tls12Secrets {
                master_secret: last_secret(
                    keylog,
                    state.client_random,
                    SecretLabel::ClientRandom,
                )->0,
                client_random: state.client_random,
                server_random: state.server_random->0,
                is_client: c2s,
            };
            let opens = |keys: tls12::KeyModel| keys.decrypted(
                d.seq,
                outer_content_type,
                body.take(8),
                body.skip(8),
            );
            ||| opens(d.keys_aes128(secrets)) == Some(content)
            ||| opens(d.keys_aes128(secrets)) is None && opens(d.keys_aes256(secrets)) == Some(
                content,
            )
        }),
    ensures
        state.decrypt(keylog, c2s, outer_content_type, body).1 matches Ok(record)
            && record.plaintext == content && record.content_type == outer_content_type
            && record.version == (VersionModel::Tls12 { explicit_nonce: body.take(8) }),
{
    reveal(ConnectionStateModel::decrypt);
    let d = if c2s { state.client_to_server } else { state.server_to_client };
    reveal_with_fuel(DirectionModel::try_from, 4);
    assert(d.try_from(Generation::Handshake, None, body, 0, false) == (d, Trial::NoKey));
    assert(d.try_from(Generation::Application, None, body, 0, false) == (d, Trial::NoKey));
}

/// The label of a direction's handshake secret.
pub open spec fn handshake_label(c2s: bool) -> SecretLabel {
    if c2s {
        SecretLabel::ClientHandshakeTrafficSecret
    } else {
        SecretLabel::ServerHandshakeTrafficSecret
    }
}

/// The label of a direction's application secret.
pub open spec fn application_label(c2s: bool) -> SecretLabel {
    if c2s {
        SecretLabel::ClientTrafficSecret0
    } else {
        SecretLabel::ServerTrafficSecret0
    }
}

proof fn lemma_nothing_opens(
    d: DirectionModel,
    g: Generation,
    secret: Option<Seq<u8>>,
    body: Seq<u8>,
    from: int,
    tried: bool,
)
    requires
        0 <= from <= 3,
        body.len() >= 16,
        forall|j: int|
            from <= j < 3 ==> match d.keys(g, secret, #[trigger] candidate(j)) {
                None => true,
                Some(keys) => keys.decrypted(
                    d.seq(g),
                    spec_record_aad(body.len() as usize),
                    body,
                ) is Err,
            },
    ensures
        d.try_from(g, secret, body, from, tried).1 is Refused || d.try_from(
            g,
            secret,
            body,
            from,
            tried,
        ).1 is NoKey,
    decreases 3 - from,
{
    if from < 3 {
        match d.keys(g, secret, candidate(from)) {
            None => lemma_nothing_opens(d, g, secret, body, from + 1, tried),
            Some(keys) => {
                let cached = d.remember(g, candidate(from), keys);
                assert forall|j: int| from + 1 <= j < 3 implies cached.keys(
                    g,
                    secret,
                    #[trigger] candidate(j),
                ) == d.keys(g, secret, candidate(j)) by {}
                lemma_nothing_opens(cached, g, secret, body, from + 1, true);
            },
        }
    }
}

/// Without a secret for the direction and without a usable master secret there is no key: the
/// record is to be tried again later, not given up.
pub proof fn law_no_secret_means_no_key(
    state: ConnectionStateModel,
    keylog: Seq<SecretEntry>,
    c2s: bool,
    outer_content_type: u8,
    body: Seq<u8>,
)
    requires
        last_secret(keylog, state.client_random, handshake_label(c2s)) is None,
        last_secret(keylog, state.client_random, application_label(c2s)) is None,
        last_secret(keylog, state.client_random, SecretLabel::ClientRandom) is None
            || state.server_random is None,
    ensures
        state.decrypt(keylog, c2s, outer_content_type, body) == (
            state,
            Err::<RecordModel, ProcessError>(ProcessError::NoKey),
        ),
{
    reveal(ConnectionStateModel::decrypt);
    let d = if c2s { state.client_to_server } else { state.server_to_client };
    reveal_with_fuel(DirectionModel::try_from, 4);
    assert(d.try_from(Generation::Handshake, None, body, 0, false) == (d, Trial::NoKey));
    assert(d.try_from(Generation::Application, None, body, 0, false) == (d, Trial::NoKey));
}

/// Both directions use the same keys of a generation, whichever of them are derived already.
pub open spec fn same_keys(
    d: DirectionModel,
    e: DirectionModel,
    g: Generation,
    secret: Option<Seq<u8>>,
) -> bool {
    forall|algorithm: AeadAlgorithm| #[trigger]
        d.keys(g, secret, algorithm) == e.keys(g, secret, algorithm)
}

/// What TLS 1.2 keys of a direction are derived from, once all of it is known.
pub open spec fn tls12_secrets(
    state: ConnectionStateModel,
    keylog: Seq<SecretEntry>,
    c2s: bool,
) -> Option<Tls12Secrets> {
    match (
        state.server_random,
        last_secret(keylog, state.client_random, SecretLabel::ClientRandom),
    ) {
        (Some(server_random), Some(master_secret)) if state.client_random.len() == 32 => Some(
            Tls12Secrets {
                master_secret,
                client_random: state.client_random,
                server_random,
                is_client: c2s,
            },
        ),
        _ => None,
    }
}

/// Both directions use the same TLS 1.2 keys, whichever of them are derived already.
pub open spec fn same_tls12_keys(
    d: Tls12DirectionModel,
    e: Tls12DirectionModel,
    secrets: Option<Tls12Secrets>,
) -> bool {
    secrets matches Some(s) ==> d.keys_aes128(s) == e.keys_aes128(s) && d.keys_aes256(s)
        == e.keys_aes256(s)
}

impl ConnectionStateModel {
    pub open spec fn direction(self, c2s: bool) -> DirectionModel {
        if c2s {
            self.client_to_server
        } else {
            self.server_to_client
        }
    }

    pub open spec fn tls12_direction(self, c2s: bool) -> Tls12DirectionModel {
        if c2s {
            self.tls12_client_to_server
        } else {
            self.tls12_server_to_client
        }
    }

    /// In one direction both states are at the same sequence numbers and use the same keys.
    pub open spec fn level_in(
        self,
        other: ConnectionStateModel,
        keylog: Seq<SecretEntry>,
        c2s: bool,
    ) -> bool {
        let d = self.direction(c2s);
        let e = other.direction(c2s);
        let handshake = last_secret(keylog, self.client_random, handshake_label(c2s));
        let application = last_secret(keylog, self.client_random, application_label(c2s));
        &&& d.seq_handshake == e.seq_handshake
        &&& d.seq_application == e.seq_application
        &&& same_keys(d, e, Generation::Handshake, handshake)
        &&& same_keys(d, e, Generation::Application, application)
        &&& self.tls12_direction(c2s).seq == other.tls12_direction(c2s).seq
        &&& same_tls12_keys(
            self.tls12_direction(c2s),
            other.tls12_direction(c2s),
            tls12_secrets(self, keylog, c2s),
        )
    }

    /// Both states know the same randoms, and in both directions are at the same sequence numbers
    /// and use the same keys. Which of the keys they have derived already may differ.
    pub open spec fn level_with(
        self,
        other: ConnectionStateModel,
        keylog: Seq<SecretEntry>,
    ) -> bool {
        &&& self.client_random == other.client_random
        &&& self.server_random == other.server_random
        &&& self.level_in(other, keylog, true)
        &&& self.level_in(other, keylog, false)
    }
}

/// Trying a generation on a record changes no key that it uses.
proof fn lemma_try_keeps_keys(
    d: DirectionModel,
    g: Generation,
    secret: Option<Seq<u8>>,
    body: Seq<u8>,
    i: int,
    tried: bool,
)
    ensures
        same_keys(d.try_from(g, secret, body, i, tried).0, d, g, secret),
    decreases 3 - i,
{
    if i < 3 {
        let algorithm = candidate(i);
        match d.keys(g, secret, algorithm) {
            None => lemma_try_keeps_keys(d, g, secret, body, i + 1, tried),
            Some(keys) => {
                let cached = d.remember(g, algorithm, keys);
                assert(same_keys(cached, d, g, secret)) by {
                    assert forall|other: AeadAlgorithm| #[trigger]
                        cached.keys(g, secret, other) == d.keys(g, secret, other) by {}
                }
                lemma_try_keeps_keys(cached, g, secret, body, i + 1, true);
                assert forall|other: AeadAlgorithm| #[trigger]
                    cached.advance(g).keys(g, secret, other) == cached.keys(g, secret, other) by {}
            },
        }
    }
}

proof fn lemma_try_alike(
    d: DirectionModel,
    e: DirectionModel,
    g: Generation,
    secret: Option<Seq<u8>>,
    body: Seq<u8>,
    i: int,
    tried: bool,
)
    requires
        same_keys(d, e, g, secret),
        d.seq(g) == e.seq(g),
    ensures
        d.try_from(g, secret, body, i, tried).1 == e.try_from(g, secret, body, i, tried).1,
    decreases 3 - i,
{
    if i < 3 {
        let algorithm = candidate(i);
        assert(d.keys(g, secret, algorithm) == e.keys(g, secret, algorithm));
        match d.keys(g, secret, algorithm) {
            None => lemma_try_alike(d, e, g, secret, body, i + 1, tried),
            Some(keys) => {
                let d2 = d.remember(g, algorithm, keys);
                let e2 = e.remember(g, algorithm, keys);
                assert forall|other: AeadAlgorithm| #[trigger]
                    d2.keys(g, secret, other) == e2.keys(g, secret, other) by {
                    assert(d.keys(g, secret, other) == e.keys(g, secret, other));
                }
                lemma_try_alike(d2, e2, g, secret, body, i + 1, true);
            },
        }
    }
}

/// A record changes no key that its direction uses.
proof fn lemma_direction_keeps_keys(
    d: DirectionModel,
    handshake: Option<Seq<u8>>,
    application: Option<Seq<u8>>,
    body: Seq<u8>,
)
    ensures
        same_keys(
            d.decrypt(handshake, application, body).0,
            d,
            Generation::Handshake,
            handshake,
        ),
        same_keys(
            d.decrypt(handshake, application, body).0,
            d,
            Generation::Application,
            application,
        ),
{
    let h = Generation::Handshake;
    let a = Generation::Application;
    lemma_try_keeps_keys(d, h, handshake, body, 0, false);
    lemma_try_keeps_other_seq(d, h, handshake, body, 0, false);
    let d1 = d.try_from(h, handshake, body, 0, false).0;
    assert forall|other: AeadAlgorithm| #[trigger]
        d1.keys(a, application, other) == d.keys(a, application, other) by {}
    lemma_try_keeps_keys(d1, a, application, body, 0, false);
    lemma_try_keeps_other_seq(d1, a, application, body, 0, false);
    let d2 = d1.try_from(a, application, body, 0, false).0;
    assert forall|other: AeadAlgorithm| #[trigger]
        d2.keys(h, handshake, other) == d1.keys(h, handshake, other) by {}
}

proof fn lemma_direction_alike(
    d: DirectionModel,
    e: DirectionModel,
    handshake: Option<Seq<u8>>,
    application: Option<Seq<u8>>,
    body: Seq<u8>,
)
    requires
        same_keys(d, e, Generation::Handshake, handshake),
        same_keys(d, e, Generation::Application, application),
        d.seq_handshake == e.seq_handshake,
        d.seq_application == e.seq_application,
    ensures
        ({
            let (d2, r) = d.decrypt(handshake, application, body);
            let (e2, s) = e.decrypt(handshake, application, body);
            &&& r == s
            &&& d2.seq_handshake == e2.seq_handshake
            &&& d2.seq_application == e2.seq_application
        }),
{
    let h = Generation::Handshake;
    let a = Generation::Application;
    lemma_try_alike(d, e, h, handshake, body, 0, false);
    lemma_try_keeps_other_seq(d, h, handshake, body, 0, false);
    lemma_try_keeps_other_seq(e, h, handshake, body, 0, false);
    let d1 = d.try_from(h, handshake, body, 0, false).0;
    let e1 = e.try_from(h, handshake, body, 0, false).0;
    assert forall|other: AeadAlgorithm| #[trigger]
        d1.keys(a, application, other) == e1.keys(a, application, other) by {
        assert(d.keys(a, application, other) == e.keys(a, application, other));
    }
    lemma_try_alike(d1, e1, a, application, body, 0, false);
    lemma_try_keeps_other_seq(d1, a, application, body, 0, false);
    lemma_try_keeps_other_seq(e1, a, application, body, 0, false);
}

/// A record changes no key that the connection uses under the same keylog: what it leaves in the
/// caches is what would be derived again.
proof fn lemma_decrypt_keeps_keys(
    state: ConnectionStateModel,
    keylog: Seq<SecretEntry>,
    c2s: bool,
    outer_content_type: u8,
    body: Seq<u8>,
    way: bool,
)
    ensures
        ({
            let after = state.decrypt(keylog, c2s, outer_content_type, body).0;
            let handshake = last_secret(keylog, state.client_random, handshake_label(way));
            let application = last_secret(keylog, state.client_random, application_label(way));
            &&& same_keys(after.direction(way), state.direction(way), Generation::Handshake, handshake)
            &&& same_keys(
                after.direction(way),
                state.direction(way),
                Generation::Application,
                application,
            )
            &&& same_tls12_keys(
                after.tls12_direction(way),
                state.tls12_direction(way),
                tls12_secrets(state, keylog, way),
            )
        }),
{
    reveal(ConnectionStateModel::decrypt);
    lemma_direction_keeps_keys(
        state.direction(c2s),
        last_secret(keylog, state.client_random, handshake_label(c2s)),
        last_secret(keylog, state.client_random, application_label(c2s)),
        body,
    );
}

/// Under one keylog, states that know the same randoms, are at the same sequence numbers and use
/// the same keys answer alike and stay so, whichever keys they have derived already.
pub proof fn law_level_states_answer_alike(
    state: ConnectionStateModel,
    other: ConnectionStateModel,
    keylog: Seq<SecretEntry>,
    c2s: bool,
    outer_content_type: u8,
    body: Seq<u8>,
)
    requires
        state.level_with(other, keylog),
    ensures
        ({
            let (a, r) = state.decrypt(keylog, c2s, outer_content_type, body);
            let (b, s) = other.decrypt(keylog, c2s, outer_content_type, body);
            &&& r == s
            &&& a.level_with(b, keylog)
        }),
{
    lemma_direction_alike(
        state.direction(c2s),
        other.direction(c2s),
        last_secret(keylog, state.client_random, handshake_label(c2s)),
        last_secret(keylog, state.client_random, application_label(c2s)),
        body,
    );
    let a = state.decrypt(keylog, c2s, outer_content_type, body).0;
    let b = other.decrypt(keylog, c2s, outer_content_type, body).0;
    assert forall|way: bool| #[trigger] a.level_in(b, keylog, way) by {
        assert(state.level_in(other, keylog, way));
        lemma_decrypt_keeps_keys(state, keylog, c2s, outer_content_type, body, way);
        lemma_decrypt_keeps_keys(other, keylog, c2s, outer_content_type, body, way);
        lemma_same_keys_through(
            a.direction(way),
            state.direction(way),
            other.direction(way),
            b.direction(way),
            Generation::Handshake,
            last_secret(keylog, state.client_random, handshake_label(way)),
        );
        lemma_same_keys_through(
            a.direction(way),
            state.direction(way),
            other.direction(way),
            b.direction(way),
            Generation::Application,
            last_secret(keylog, state.client_random, application_label(way)),
        );
        reveal(ConnectionStateModel::decrypt);
    }
    reveal(ConnectionStateModel::decrypt);
}

proof fn lemma_same_keys_through(
    a: DirectionModel,
    d: DirectionModel,
    e: DirectionModel,
    b: DirectionModel,
    g: Generation,
    secret: Option<Seq<u8>>,
)
    requires
        same_keys(a, d, g, secret),
        same_keys(d, e, g, secret),
        same_keys(b, e, g, secret),
    ensures
        same_keys(a, b, g, secret),
{
    assert forall|algorithm: AeadAlgorithm| #[trigger]
        a.keys(g, secret, algorithm) == b.keys(g, secret, algorithm) by {
        assert(d.keys(g, secret, algorithm) == e.keys(g, secret, algorithm));
        assert(b.keys(g, secret, algorithm) == e.keys(g, secret, algorithm));
    }
}

/// One record to be decrypted.
pub struct RecordCall {
    pub c2s: bool,
    pub outer_content_type: u8,
    pub body: Seq<u8>,
}

/// What a connection answers to records handed in one after the other.
pub open spec fn answers(
    state: ConnectionStateModel,
    keylog: Seq<SecretEntry>,
    calls: Seq<RecordCall>,
) -> Seq<Result<RecordModel, ProcessError>>
    decreases calls.len(),
{
    if calls.len() == 0 {
        Seq::empty()
    } else {
        let first = calls[0];
        let (after, result) = state.decrypt(
            keylog,
            first.c2s,
            first.outer_content_type,
            first.body,
        );
        seq![result] + answers(after, keylog, calls.drop_first())
    }
}

proof fn lemma_level_answers(
    state: ConnectionStateModel,
    other: ConnectionStateModel,
    keylog: Seq<SecretEntry>,
    calls: Seq<RecordCall>,
)
    requires
        state.level_with(other, keylog),
    ensures
        answers(state, keylog, calls) == answers(other, keylog, calls),
    decreases calls.len(),
{
    if calls.len() > 0 {
        let first = calls[0];
        law_level_states_answer_alike(
            state,
            other,
            keylog,
            first.c2s,
            first.outer_content_type,
            first.body,
        );
        lemma_level_answers(
            state.decrypt(keylog, first.c2s, first.outer_content_type, first.body).0,
            other.decrypt(keylog, first.c2s, first.outer_content_type, first.body).0,
            keylog,
            calls.drop_first(),
        );
    }
}

/// A record that does not open leaves no trace: under the same keylog, every later record is
/// answered as if it had never been handed in.
pub proof fn law_failed_record_leaves_no_trace(
    state: ConnectionStateModel,
    keylog: Seq<SecretEntry>,
    c2s: bool,
    outer_content_type: u8,
    body: Seq<u8>,
    later: Seq<RecordCall>,
)
    requires
        state.seqs_within(u64::MAX - 1),
        state.decrypt(keylog, c2s, outer_content_type, body).1 is Err,
    ensures
        answers(
            state.decrypt(keylog, c2s, outer_content_type, body).0,
            keylog,
            later,
        ) == answers(state, keylog, later),
{
    let after = state.decrypt(keylog, c2s, outer_content_type, body).0;
    law_one_counter_moves(state, keylog, c2s, outer_content_type, body);
    assert forall|way: bool| #[trigger] after.level_in(state, keylog, way) by {
        lemma_decrypt_keeps_keys(state, keylog, c2s, outer_content_type, body, way);
    }
    lemma_level_answers(after, state, keylog, later);
}

/// A call that changes a connection's state.
pub enum StateCall {
    ServerRandom(Seq<u8>),
    Record { keylog: Seq<SecretEntry>, call: RecordCall },
}

/// The state after a run of calls.
pub open spec fn after_state_calls(
    state: ConnectionStateModel,
    calls: Seq<StateCall>,
) -> ConnectionStateModel
    decreases calls.len(),
{
    if calls.len() == 0 {
        state
    } else {
        let after = match calls[0] {
            StateCall::ServerRandom(random) => state.with_server_random(random),
            StateCall::Record { keylog, call } => state.decrypt(
                keylog,
                call.c2s,
                call.outer_content_type,
                call.body,
            ).0,
        };
        after_state_calls(after, calls.drop_first())
    }
}

/// The first server random stays, whatever others come later and whatever records are handed in:
/// TLS 1.2 keys are derived from it for good.
pub proof fn law_first_server_random_stays(
    state: ConnectionStateModel,
    random: Seq<u8>,
    calls: Seq<StateCall>,
    keylog: Seq<SecretEntry>,
    c2s: bool,
)
    requires
        state.server_random is None,
    ensures
        ({
            let after = after_state_calls(state.with_server_random(random), calls);
            &&& after.server_random == Some(random)
            &&& after.client_random == state.client_random
            &&& tls12_secrets(after, keylog, c2s) matches Some(secrets) ==> secrets.server_random
                == random
        }),
{
    lemma_randoms_stay(state.with_server_random(random), calls);
}

proof fn lemma_randoms_stay(state: ConnectionStateModel, calls: Seq<StateCall>)
    requires
        state.server_random is Some,
    ensures
        after_state_calls(state, calls).server_random == state.server_random,
        after_state_calls(state, calls).client_random == state.client_random,
    decreases calls.len(),
{
    if calls.len() > 0 {
        reveal(ConnectionStateModel::decrypt);
        let after = match calls[0] {
            StateCall::ServerRandom(random) => state.with_server_random(random),
            StateCall::Record { keylog, call } => state.decrypt(
                keylog,
                call.c2s,
                call.outer_content_type,
                call.body,
            ).0,
        };
        lemma_randoms_stay(after, calls.drop_first());
    }
}

/// What a record opens as under the keys that a traffic secret gives for an algorithm, if it does.
pub open spec fn opens_as(
    secret: Seq<u8>,
    algorithm: AeadAlgorithm,
    seq_num: u64,
    body: Seq<u8>,
) -> Option<(Seq<u8>, u8)> {
    match tls13::KeyModel::derived(secret, algorithm) {
        Some(keys) => match keys.decrypted(seq_num, spec_record_aad(body.len() as usize), body) {
            Ok(opened) => Some(opened),
            Err(_) => None,
        },
        None => None,
    }
}

/// The algorithm is the first of AES-128-GCM, AES-256-GCM and ChaCha20-Poly1305 under which the
/// record opens.
pub open spec fn opens_first(
    secret: Seq<u8>,
    algorithm: AeadAlgorithm,
    seq_num: u64,
    body: Seq<u8>,
) -> bool {
    let earlier = |a: AeadAlgorithm| opens_as(secret, a, seq_num, body) is None;
    match algorithm {
        AeadAlgorithm::Aes128Gcm => true,
        AeadAlgorithm::Aes256Gcm => earlier(AeadAlgorithm::Aes128Gcm),
        AeadAlgorithm::ChaCha20Poly1305 => earlier(AeadAlgorithm::Aes128Gcm) && earlier(
            AeadAlgorithm::Aes256Gcm,
        ),
    }
}

/// Where an algorithm stands among the candidates.
spec fn place(algorithm: AeadAlgorithm) -> int {
    match algorithm {
        AeadAlgorithm::Aes128Gcm => 0,
        AeadAlgorithm::Aes256Gcm => 1,
        AeadAlgorithm::ChaCha20Poly1305 => 2,
    }
}

/// The first record of a direction that opens under the direction's own handshake secret, the one
/// logged as the client's or the server's, comes out with what it holds.
pub proof fn law_first_handshake_record_opens(
    client_random: Seq<u8>,
    keylog: Seq<SecretEntry>,
    c2s: bool,
    outer_content_type: u8,
    body: Seq<u8>,
    secret: Seq<u8>,
    algorithm: AeadAlgorithm,
    content: Seq<u8>,
    content_type: u8,
)
    requires
        body.len() >= 16,
        c2s ==> last_secret(keylog, client_random, SecretLabel::ClientHandshakeTrafficSecret)
            == Some(secret),
        !c2s ==> last_secret(keylog, client_random, SecretLabel::ServerHandshakeTrafficSecret)
            == Some(secret),
        opens_as(secret, algorithm, 0, body) == Some((content, content_type)),
        opens_first(secret, algorithm, 0, body),
    ensures
        ConnectionStateModel::fresh(client_random).decrypt(
            keylog,
            c2s,
            outer_content_type,
            body,
        ).1 == Ok::<RecordModel, ProcessError>(
            RecordModel {
                plaintext: content,
                content_type,
                algorithm,
                version: VersionModel::Tls13 { generation: Generation::Handshake },
            },
        ),
{
    reveal(ConnectionStateModel::decrypt);
    let d = DirectionModel::fresh();
    let i = place(algorithm);
    assert(candidate(i) == algorithm);
    assert(none_before(d, Generation::Handshake, Some(secret), body, i));
    law_first_opening_candidate_wins(
        d,
        Generation::Handshake,
        Some(secret),
        body,
        i,
        content,
        content_type,
    );
}

/// The first record of a direction that opens under the direction's own application secret comes
/// out with what it holds, whether or not a handshake secret is logged that does not open it.
pub proof fn law_first_application_record_opens(
    client_random: Seq<u8>,
    keylog: Seq<SecretEntry>,
    c2s: bool,
    outer_content_type: u8,
    body: Seq<u8>,
    secret: Seq<u8>,
    algorithm: AeadAlgorithm,
    content: Seq<u8>,
    content_type: u8,
)
    requires
        body.len() >= 16,
        c2s ==> last_secret(keylog, client_random, SecretLabel::ClientTrafficSecret0) == Some(
            secret,
        ),
        !c2s ==> last_secret(keylog, client_random, SecretLabel::ServerTrafficSecret0) == Some(
            secret,
        ),
        ({
            let other = if c2s {
                last_secret(keylog, client_random, SecretLabel::ClientHandshakeTrafficSecret)
            } else {
                last_secret(keylog, client_random, SecretLabel::ServerHandshakeTrafficSecret)
            };
            other matches Some(other) ==> opens_as(other, AeadAlgorithm::Aes128Gcm, 0, body) is None
                && opens_as(other, AeadAlgorithm::Aes256Gcm, 0, body) is None && opens_as(
                other,
                AeadAlgorithm::ChaCha20Poly1305,
                0,
                body,
            ) is None
        }),
        opens_as(secret, algorithm, 0, body) == Some((content, content_type)),
        opens_first(secret, algorithm, 0, body),
    ensures
        ConnectionStateModel::fresh(client_random).decrypt(
            keylog,
            c2s,
            outer_content_type,
            body,
        ).1 == Ok::<RecordModel, ProcessError>(
            RecordModel {
                plaintext: content,
                content_type,
                algorithm,
                version: VersionModel::Tls13 { generation: Generation::Application },
            },
        ),
{
    let state = ConnectionStateModel::fresh(client_random);
    let d = DirectionModel::fresh();
    let i = place(algorithm);
    let handshake = last_secret(keylog, client_random, handshake_label(c2s));
    assert(candidate(i) == algorithm);
    assert(none_before(d, Generation::Handshake, handshake, body, 3));
    assert(none_before(d, Generation::Application, Some(secret), body, i));
    law_logged_secret_opens_record(
        state,
        keylog,
        c2s,
        outer_content_type,
        body,
        i,
        content,
        content_type,
    );
}

/// A record of a TLS 1.2 connection opens under keys derived from the logged master secret and the
/// two randoms, each in its own place, for the direction that the record travels in; the first
/// eight bytes of its body are the explicit nonce.
pub proof fn law_first_tls12_record_opens(
    client_random: Seq<u8>,
    server_random: Seq<u8>,
    master_secret: Seq<u8>,
    keylog: Seq<SecretEntry>,
    c2s: bool,
    outer_content_type: u8,
    nonce: Seq<u8>,
    sealed: Seq<u8>,
    content: Seq<u8>,
)
    requires
        nonce.len() == 8,
        sealed.len() >= 16,
        client_random.len() == 32,
        last_secret(keylog, client_random, SecretLabel::ClientRandom) == Some(master_secret),
        last_secret(keylog, client_random, handshake_label(c2s)) is None,
        last_secret(keylog, client_random, application_label(c2s)) is None,
        ({
            let opens = |a: AeadAlgorithm|
                tls12::KeyModel::derived(
                    master_secret,
                    client_random,
                    server_random,
                    a,
                    c2s,
                ).decrypted(0, outer_content_type, nonce, sealed);
            opens(AeadAlgorithm::Aes128Gcm) == Some(content) || (opens(AeadAlgorithm::Aes128Gcm) is
                None && opens(AeadAlgorithm::Aes256Gcm) == Some(content))
        }),
    ensures
        ConnectionStateModel::fresh(client_random).with_server_random(server_random).decrypt(
            keylog,
            c2s,
            outer_content_type,
            nonce + sealed,
        ).1 matches Ok(record) && record.plaintext == content && record.content_type
            == outer_content_type && record.version == (VersionModel::Tls12 {
            explicit_nonce: nonce,
        }),
{
    reveal(ConnectionStateModel::decrypt);
    let state = ConnectionStateModel::fresh(client_random).with_server_random(server_random);
    let body = nonce + sealed;
    assert(body.take(8) =~= nonce);
    assert(body.skip(8) =~= sealed);
    let d = state.direction(c2s);
    reveal_with_fuel(DirectionModel::try_from, 4);
    assert(d.try_from(Generation::Handshake, None, body, 0, false) == (d, Trial::NoKey));
    assert(d.try_from(Generation::Application, None, body, 0, false) == (d, Trial::NoKey));
}

/// One of the candidates has keys.
spec fn some_keys(d: DirectionModel, g: Generation, secret: Option<Seq<u8>>, from: int) -> bool {
    exists|j: int| from <= j < 3 && (#[trigger] d.keys(g, secret, candidate(j))) is Some
}

proof fn lemma_refused_with_keys(
    d: DirectionModel,
    g: Generation,
    secret: Option<Seq<u8>>,
    body: Seq<u8>,
    from: int,
    tried: bool,
)
    requires
        0 <= from <= 3,
        body.len() >= 16,
        forall|j: int|
            from <= j < 3 ==> match d.keys(g, secret, #[trigger] candidate(j)) {
                None => true,
                Some(keys) => keys.decrypted(
                    d.seq(g),
                    spec_record_aad(body.len() as usize),
                    body,
                ) is Err,
            },
    ensures
        d.try_from(g, secret, body, from, tried).1 is Refused <==> tried || some_keys(
            d,
            g,
            secret,
            from,
        ),
        d.try_from(g, secret, body, from, tried).1 is NoKey <==> !(tried || some_keys(
            d,
            g,
            secret,
            from,
        )),
    decreases 3 - from,
{
    if from < 3 {
        match d.keys(g, secret, candidate(from)) {
            None => {
                lemma_refused_with_keys(d, g, secret, body, from + 1, tried);
                if some_keys(d, g, secret, from) {
                    let j = choose|j: int|
                        from <= j < 3 && (#[trigger] d.keys(g, secret, candidate(j))) is Some;
                    assert(j != from);
                    assert(some_keys(d, g, secret, from + 1));
                }
                if some_keys(d, g, secret, from + 1) {
                    let j = choose|j: int|
                        from + 1 <= j < 3 && (#[trigger] d.keys(g, secret, candidate(j))) is Some;
                    assert(d.keys(g, secret, candidate(j)) is Some);
                }
            },
            Some(keys) => {
                let cached = d.remember(g, candidate(from), keys);
                assert forall|j: int| from + 1 <= j < 3 implies cached.keys(
                    g,
                    secret,
                    #[trigger] candidate(j),
                ) == d.keys(g, secret, candidate(j)) by {}
                lemma_refused_with_keys(cached, g, secret, body, from + 1, true);
                assert(d.keys(g, secret, candidate(from)) is Some);
                assert(some_keys(d, g, secret, from));
            },
        }
    }
}

/// A direction's first record that no key of its TLS 1.3 secrets opens failed to authenticate
/// exactly if both secrets were known. Otherwise a key may still turn up, and the record had none.
pub proof fn law_failure_means_every_key_was_known(
    client_random: Seq<u8>,
    keylog: Seq<SecretEntry>,
    c2s: bool,
    outer_content_type: u8,
    body: Seq<u8>,
    handshake: Seq<u8>,
    application: Seq<u8>,
)
    requires
        body.len() >= 16,
        forall|a: AeadAlgorithm| #[trigger] opens_as(handshake, a, 0, body) is None,
        forall|a: AeadAlgorithm| #[trigger] opens_as(application, a, 0, body) is None,
        tls13::KeyModel::derived(handshake, AeadAlgorithm::Aes128Gcm) is Some,
        tls13::KeyModel::derived(application, AeadAlgorithm::Aes128Gcm) is Some,
        last_secret(keylog, client_random, handshake_label(c2s)) is Some ==> last_secret(
            keylog,
            client_random,
            handshake_label(c2s),
        ) == Some(handshake),
        last_secret(keylog, client_random, application_label(c2s)) is Some ==> last_secret(
            keylog,
            client_random,
            application_label(c2s),
        ) == Some(application),
    ensures
        ConnectionStateModel::fresh(client_random).decrypt(
            keylog,
            c2s,
            outer_content_type,
            body,
        ).1 == Err::<RecordModel, ProcessError>(
            if last_secret(keylog, client_random, handshake_label(c2s)) is Some && last_secret(
                keylog,
                client_random,
                application_label(c2s),
            ) is Some {
                ProcessError::AuthFailed
            } else {
                ProcessError::NoKey
            },
        ),
{
    reveal(ConnectionStateModel::decrypt);
    let d = DirectionModel::fresh();
    let h = last_secret(keylog, client_random, handshake_label(c2s));
    let a = last_secret(keylog, client_random, application_label(c2s));
    lemma_fresh_opens_nothing(d, Generation::Handshake, h, body);
    lemma_refused_with_keys(d, Generation::Handshake, h, body, 0, false);
    let first = d.try_from(Generation::Handshake, h, body, 0, false).0;
    lemma_try_keeps_other_seq(d, Generation::Handshake, h, body, 0, false);
    assert(first.keys_application == d.keys_application);
    lemma_fresh_opens_nothing(first, Generation::Application, a, body);
    lemma_refused_with_keys(first, Generation::Application, a, body, 0, false);
    assert(candidate(0) == AeadAlgorithm::Aes128Gcm);
    if h is Some {
        assert(d.keys(Generation::Handshake, h, candidate(0)) is Some);
    }
    if a is Some {
        assert(first.keys(Generation::Application, a, candidate(0)) is Some);
    }
}

proof fn lemma_fresh_opens_nothing(
    d: DirectionModel,
    g: Generation,
    secret: Option<Seq<u8>>,
    body: Seq<u8>,
)
    requires
        d.cache(g) == CacheModel::empty(),
        d.seq(g) == 0,
        secret matches Some(s) ==> forall|a: AeadAlgorithm| #[trigger]
            opens_as(s, a, 0, body) is None,
    ensures
        forall|j: int|
            0 <= j < 3 ==> match d.keys(g, secret, #[trigger] candidate(j)) {
                None => true,
                Some(keys) => keys.decrypted(
                    d.seq(g),
                    spec_record_aad(body.len() as usize),
                    body,
                ) is Err,
            },
{
    assert forall|j: int| 0 <= j < 3 implies match d.keys(g, secret, #[trigger] candidate(j)) {
        None => true,
        Some(keys) => keys.decrypted(d.seq(g), spec_record_aad(body.len() as usize), body) is Err,
    } by {
        if let Some(s) = secret {
            assert(opens_as(s, candidate(j), 0, body) is None);
        }
    }
}

/// A direction's first record of a TLS 1.2 connection that neither of the master secret's keys
/// opens, or that is too short to hold an explicit nonce and a tag, failed to authenticate.
pub proof fn law_first_tls12_record_fails(
    client_random: Seq<u8>,
    server_random: Seq<u8>,
    master_secret: Seq<u8>,
    keylog: Seq<SecretEntry>,
    c2s: bool,
    outer_content_type: u8,
    body: Seq<u8>,
)
    requires
        client_random.len() == 32,
        last_secret(keylog, client_random, SecretLabel::ClientRandom) == Some(master_secret),
        last_secret(keylog, client_random, handshake_label(c2s)) is None,
        last_secret(keylog, client_random, application_label(c2s)) is None,
        ({
            let opens = |a: AeadAlgorithm|
                tls12::KeyModel::derived(
                    master_secret,
                    client_random,
                    server_random,
                    a,
                    c2s,
                ).decrypted(0, outer_content_type, body.take(8), body.skip(8));
            body.len() < 24 || (opens(AeadAlgorithm::Aes128Gcm) is None && opens(
                AeadAlgorithm::Aes256Gcm,
            ) is None)
        }),
    ensures
        ConnectionStateModel::fresh(client_random).with_server_random(server_random).decrypt(
            keylog,
            c2s,
            outer_content_type,
            body,
        ).1 == Err::<RecordModel, ProcessError>(ProcessError::AuthFailed),
{
    reveal(ConnectionStateModel::decrypt);
    let state = ConnectionStateModel::fresh(client_random).with_server_random(server_random);
    let d = state.direction(c2s);
    reveal_with_fuel(DirectionModel::try_from, 4);
    assert(d.try_from(Generation::Handshake, None, body, 0, false) == (d, Trial::NoKey));
    assert(d.try_from(Generation::Application, None, body, 0, false) == (d, Trial::NoKey));
}

/// A direction's first record that is too short to hold a tag failed to authenticate as soon as one
/// of its TLS 1.3 secrets is known: no other key could open it.
pub proof fn law_record_without_a_tag_fails(
    client_random: Seq<u8>,
    keylog: Seq<SecretEntry>,
    c2s: bool,
    outer_content_type: u8,
    body: Seq<u8>,
    secret: Seq<u8>,
)
    requires
        body.len() < 16,
        tls13::KeyModel::derived(secret, AeadAlgorithm::Aes128Gcm) is Some,
        last_secret(keylog, client_random, handshake_label(c2s)) == Some(secret) || (last_secret(
            keylog,
            client_random,
            handshake_label(c2s),
        ) is None && last_secret(keylog, client_random, application_label(c2s)) == Some(secret)),
    ensures
        ConnectionStateModel::fresh(client_random).decrypt(
            keylog,
            c2s,
            outer_content_type,
            body,
        ).1 == Err::<RecordModel, ProcessError>(ProcessError::AuthFailed),
{
    reveal(ConnectionStateModel::decrypt);
    let d = DirectionModel::fresh();
    reveal_with_fuel(DirectionModel::try_from, 4);
    assert(candidate(0) == AeadAlgorithm::Aes128Gcm);
    assert(d.try_from(Generation::Handshake, None, body, 0, false) == (d, Trial::NoKey));
    assert(d.try_from(Generation::Handshake, Some(secret), body, 0, false).1 is TooShort);
    assert(d.try_from(Generation::Application, Some(secret), body, 0, false).1 is TooShort);
}

/// Extracts the random of an unencrypted ClientHello.
pub fn client_random_from_client_hello(handshake_body: &[u8]) -> (random: Option<[u8; 32]>)
    ensures
        match random {
            Some(random) => hello_random(handshake_body@, 0x01) == Some(random@),
            None => hello_random(handshake_body@, 0x01) is None,
        },
{
    if handshake_body.len() < 1 + 3 + 2 + 32 || handshake_body[0] != 0x01 {
        return None;
    }
    Some(copy_array_32(handshake_body, 6))
}

} // verus!
