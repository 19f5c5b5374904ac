//! TLS 1.2 record-layer decryption (RFC 5246, sections 5 and 6) for the AES-GCM cipher suites
//! (RFC 5288).
//!
//! Unlike TLS 1.3, one master secret serves the whole connection, eight of the twelve nonce bytes
//! travel with each record, and the associated data carries the plaintext length.

use vstd::prelude::*;
use crate::aead::{
    aes128gcm_open, aes256gcm_open, open, opened, seal, sealed, MAX_PLAINTEXT_LEN, MAX_SEALED_LEN,
    TAG_LEN,
};
use crate::bytes::{append_bytes, be_number, copy_array_32, copy_range, lemma_be_number_2};
use crate::kdf::{hmac_of, hmac_once, hmac_sha256, hmac_sha384, HashAlgorithm};
use crate::tls13::{be_u64, law_bytes_spell_the_number, u64_to_be_bytes, AeadAlgorithm};

verus! {

/// Why a record could not be decrypted.
#[derive(Clone, Copy, Debug, PartialEq, Eq, Structural)]
pub enum Tls12Error {
    Aead,
}

impl Tls12Error {
    pub fn message(&self) -> (text: &'static str)
        ensures
            text@ == "AEAD operation failed (wrong key/nonce, or corrupt/truncated record)"@,
    {
        "AEAD operation failed (wrong key/nonce, or corrupt/truncated record)"
    }
}

/// `A(i)` of RFC 5246, section 5: `A(0)` is the seed, and each next one the HMAC of the last.
pub open spec fn chain(hash: HashAlgorithm, secret: Seq<u8>, seed: Seq<u8>, i: nat) -> Seq<u8>
    decreases i,
{
    if i == 0 {
        seed
    } else {
        hmac_of(hash, secret, chain(hash, secret, seed, (i - 1) as nat))
    }
}

/// The first `n` blocks of P_hash: block `i` is the HMAC of `A(i)` and the seed.
pub open spec fn p_blocks(hash: HashAlgorithm, secret: Seq<u8>, seed: Seq<u8>, n: nat) -> Seq<u8>
    decreases n,
{
    if n == 0 {
        Seq::empty()
    } else {
        p_blocks(hash, secret, seed, (n - 1) as nat) + hmac_of(
            hash,
            secret,
            chain(hash, secret, seed, n) + seed,
        )
    }
}

/// How many blocks of the hash's length `out_len` bytes take.
pub open spec fn blocks_for(hash: HashAlgorithm, out_len: nat) -> nat {
    (out_len + hash.spec_len() - 1) as nat / hash.spec_len()
}

/// The first `out_len` bytes of `P_hash(secret, seed)`.
pub open spec fn prf_output(
    hash: HashAlgorithm,
    secret: Seq<u8>,
    seed: Seq<u8>,
    out_len: nat,
) -> Seq<u8> {
    p_blocks(hash, secret, seed, blocks_for(hash, out_len)).take(out_len as int)
}

/// The pseudorandom function of RFC 5246, section 5, on a seed that already holds the label.
pub fn prf(secret: &[u8], label_and_seed: &[u8], out_len: usize, hash: HashAlgorithm) -> (out: Vec<u8>)
    requires
        out_len <= 0x1_0000,
    ensures
        out@ == prf_output(hash, secret@, label_and_seed@, out_len as nat),
        out@.len() == out_len,
{
    let mut out: Vec<u8> = Vec::new();
    let mut a = hmac_once(hash, secret, label_and_seed);
    let ghost mut n: nat = 0;
    proof {
        reveal_with_fuel(chain, 2);
    }
    while out.len() < out_len
        invariant
            out_len <= 0x1_0000,
            out@ == p_blocks(hash, secret@, label_and_seed@, n),
            out@.len() == n * hash.spec_len(),
            a@ == chain(hash, secret@, label_and_seed@, n + 1),
            n > 0 ==> (n - 1) * hash.spec_len() < out_len,
        decreases out_len + hash.spec_len() - out@.len(),
    {
        let mut input: Vec<u8> = Vec::new();
        append_bytes(&mut input, a.as_slice());
        append_bytes(&mut input, label_and_seed);
        assert(input@ =~= a@ + label_and_seed@);
        let block = hmac_once(hash, secret, input.as_slice());
        append_bytes(&mut out, block.as_slice());
        a = hmac_once(hash, secret, a.as_slice());
        proof {
            n = n + 1;
            assert((n - 1) * hash.spec_len() + hash.spec_len() == n * hash.spec_len())
                by (nonlinear_arith);
        }
    }
    proof {
        let h = hash.spec_len();
        assert(n == (out_len + h - 1) as nat / h) by (nonlinear_arith)
            requires
                h > 0,
                n * h >= out_len,
                n > 0 ==> (n - 1) * h < out_len,
                n >= 0,
        ;
    }
    out.truncate(out_len);
    assert(out@ =~= prf_output(hash, secret@, label_and_seed@, out_len as nat));
    out
}

/// The key material of one direction: an AES key, and the four nonce bytes that stay off the wire.
pub struct RecordKeys {
    algorithm: AeadAlgorithm,
    key: Vec<u8>,
    salt: [u8; 4],
}

/// What a `RecordKeys` holds.
pub struct KeyModel {
    pub algorithm: AeadAlgorithm,
    pub key: Seq<u8>,
    pub salt: Seq<u8>,
}

impl View for RecordKeys {
    type V = KeyModel;

    closed spec fn view(&self) -> KeyModel {
        KeyModel { algorithm: self.algorithm, key: self.key@, salt: self.salt@ }
    }
}

/// "key expansion".
pub open spec fn expansion_label() -> Seq<u8> {
    seq![0x6bu8, 0x65, 0x79, 0x20, 0x65, 0x78, 0x70, 0x61, 0x6e, 0x73, 0x69, 0x6f, 0x6e]
}

/// The key block: the client's key, the server's key, the client's salt, the server's salt.
pub open spec fn key_block(
    master_secret: Seq<u8>,
    client_random: Seq<u8>,
    server_random: Seq<u8>,
    algorithm: AeadAlgorithm,
) -> Seq<u8> {
    prf_output(
        algorithm.spec_hash(),
        master_secret,
        expansion_label() + server_random + client_random,
        2 * algorithm.spec_key_len() + 8,
    )
}

/// The associated data of a record (RFC 5246, section 6.2.3.3): the sequence number, the type,
/// the version 0x0303 and the plaintext length.
pub open spec fn spec_aad(seq_num: u64, content_type: u8, plaintext_len: u16) -> Seq<u8> {
    be_u64(seq_num) + seq![
        content_type,
        0x03u8,
        0x03u8,
        (plaintext_len / 256) as u8,
        (plaintext_len % 256) as u8,
    ]
}

/// The low sixteen bits of the length that is left of `ciphertext_len` without the tag.
pub open spec fn plaintext_len(ciphertext_len: nat) -> u16 {
    if ciphertext_len < TAG_LEN {
        0
    } else {
        ((ciphertext_len - TAG_LEN) % 0x1_0000) as u16
    }
}

impl KeyModel {
    /// The keys of one direction of a connection.
    pub open spec fn derived(
        master_secret: Seq<u8>,
        client_random: Seq<u8>,
        server_random: Seq<u8>,
        algorithm: AeadAlgorithm,
        is_client: bool,
    ) -> KeyModel {
        let block = key_block(master_secret, client_random, server_random, algorithm);
        let n = algorithm.spec_key_len() as int;
        KeyModel {
            algorithm,
            key: if is_client {
                block.subrange(0, n)
            } else {
                block.subrange(n, 2 * n)
            },
            salt: if is_client {
                block.subrange(2 * n, 2 * n + 4)
            } else {
                block.subrange(2 * n + 4, 2 * n + 8)
            },
        }
    }

    /// What decrypting a record gives; `None` where it does not authenticate.
    pub open spec fn decrypted(
        self,
        seq_num: u64,
        content_type: u8,
        explicit_nonce: Seq<u8>,
        ciphertext: Seq<u8>,
    ) -> Option<Seq<u8>> {
        if self.algorithm == AeadAlgorithm::ChaCha20Poly1305 {
            None
        } else {
            opened(
                self.algorithm,
                self.key,
                self.salt + explicit_nonce,
                spec_aad(seq_num, content_type, plaintext_len(ciphertext.len())),
                ciphertext,
            )
        }
    }

    /// What encrypting a record gives.
    pub open spec fn encrypted(
        self,
        seq_num: u64,
        content_type: u8,
        explicit_nonce: Seq<u8>,
        plaintext: Seq<u8>,
    ) -> Seq<u8> {
        sealed(
            self.algorithm,
            self.key,
            self.salt + explicit_nonce,
            spec_aad(seq_num, content_type, (plaintext.len() % 0x1_0000) as u16),
            plaintext,
        )
    }
}

/// The two directions' keys and salts are the parts of one key block, and share none of it. The
/// block has the length asked for, as `RecordKeys::derive` makes sure.
pub proof fn law_directions_split_the_key_block(
    master_secret: Seq<u8>,
    client_random: Seq<u8>,
    server_random: Seq<u8>,
    algorithm: AeadAlgorithm,
)
    requires
        key_block(master_secret, client_random, server_random, algorithm).len() == 2
            * algorithm.spec_key_len() + 8,
    ensures
        ({
            let client = KeyModel::derived(
                master_secret,
                client_random,
                server_random,
                algorithm,
                true,
            );
            let server = KeyModel::derived(
                master_secret,
                client_random,
                server_random,
                algorithm,
                false,
            );
            client.key + server.key + client.salt + server.salt == key_block(
                master_secret,
                client_random,
                server_random,
                algorithm,
            )
        }),
{
    let client = KeyModel::derived(master_secret, client_random, server_random, algorithm, true);
    let server = KeyModel::derived(master_secret, client_random, server_random, algorithm, false);
    assert(client.key + server.key + client.salt + server.salt =~= key_block(
        master_secret,
        client_random,
        server_random,
        algorithm,
    ));
}

impl RecordKeys {
    #[verifier::type_invariant]
    spec fn key_fits(self) -> bool {
        self.key@.len() == self.algorithm.spec_key_len()
    }

    /// Derives the keys of one direction from the master secret and both hello messages' randoms.
    pub fn derive(
        master_secret: &[u8],
        client_random: &[u8; 32],
        server_random: &[u8; 32],
        algorithm: AeadAlgorithm,
        is_client: bool,
    ) -> (keys: RecordKeys)
        ensures
            keys@ == KeyModel::derived(
                master_secret@,
                client_random@,
                server_random@,
                algorithm,
                is_client,
            ),
            keys@.key.len() == algorithm.spec_key_len(),
            keys@.salt.len() == 4,
            key_block(master_secret@, client_random@, server_random@, algorithm).len() == 2
                * algorithm.spec_key_len() + 8,
    {
        let n: usize = algorithm.key_len();
        let mut seed: Vec<u8> = Vec::new();
        append_bytes(
            &mut seed,
            &[0x6bu8, 0x65, 0x79, 0x20, 0x65, 0x78, 0x70, 0x61, 0x6e, 0x73, 0x69, 0x6f, 0x6e],
        );
        append_bytes(&mut seed, server_random);
        append_bytes(&mut seed, client_random);
        assert(seed@ =~= expansion_label() + server_random@ + client_random@);
        let block = prf(master_secret, seed.as_slice(), 2 * n + 8, algorithm.hash());
        let key_at: usize = if is_client { 0 } else { n };
        let salt_at: usize = if is_client { 2 * n } else { 2 * n + 4 };
        let key = copy_range(block.as_slice(), key_at, key_at + n);
        let salt = [block[salt_at], block[salt_at + 1], block[salt_at + 2], block[salt_at + 3]];
        assert(salt@ =~= block@.subrange(salt_at as int, salt_at + 4));
        RecordKeys { algorithm, key, salt }
    }

    fn nonce_for(&self, explicit_nonce: &[u8; 8]) -> (nonce: [u8; 12])
        ensures
            nonce@ == self@.salt + explicit_nonce@,
    {
        let s = &self.salt;
        let e = explicit_nonce;
        let nonce = [s[0], s[1], s[2], s[3], e[0], e[1], e[2], e[3], e[4], e[5], e[6], e[7]];
        assert(nonce@ =~= self@.salt + explicit_nonce@);
        nonce
    }

    fn aad(seq_num: u64, content_type: u8, plaintext_len: u16) -> (aad: [u8; 13])
        ensures
            aad@ == spec_aad(seq_num, content_type, plaintext_len),
    {
        let s = u64_to_be_bytes(seq_num);
        let aad = [
            s[0],
            s[1],
            s[2],
            s[3],
            s[4],
            s[5],
            s[6],
            s[7],
            content_type,
            0x03,
            0x03,
            (plaintext_len / 256) as u8,
            (plaintext_len % 256) as u8,
        ];
        assert(aad@ =~= spec_aad(seq_num, content_type, plaintext_len));
        aad
    }

    /// Decrypts what follows the eight explicit nonce bytes of a record: ciphertext and tag.
    pub fn decrypt_record(
        &self,
        seq_num: u64,
        content_type: u8,
        explicit_nonce: &[u8; 8],
        ciphertext: &[u8],
    ) -> (result: Result<Vec<u8>, Tls12Error>)
        requires
            ciphertext@.len() <= MAX_SEALED_LEN,
        ensures
            match result {
                Ok(plaintext) => {
                    &&& self@.decrypted(seq_num, content_type, explicit_nonce@, ciphertext@)
                        == Some(plaintext@)
                    &&& plaintext@.len() + TAG_LEN == ciphertext@.len()
                },
                Err(e) => e == Tls12Error::Aead && self@.decrypted(
                    seq_num,
                    content_type,
                    explicit_nonce@,
                    ciphertext@,
                ) is None,
            },
            ciphertext@.len() < TAG_LEN ==> result is Err,
    {
        proof {
            use_type_invariant(self);
        }
        let nonce = self.nonce_for(explicit_nonce);
        let plaintext_len: u16 = (ciphertext.len().saturating_sub(TAG_LEN) % 0x1_0000) as u16;
        let aad = RecordKeys::aad(seq_num, content_type, plaintext_len);
        if self.algorithm == AeadAlgorithm::ChaCha20Poly1305 {
            return Err(Tls12Error::Aead);
        }
        match open(self.algorithm, self.key.as_slice(), &nonce, &aad, ciphertext) {
            Some(plaintext) => Ok(plaintext),
            None => Err(Tls12Error::Aead),
        }
    }

    /// Encrypts `plaintext` under the given explicit nonce. Decrypting the result under the same
    /// sequence number, type and nonce gives `plaintext` back.
    pub fn encrypt_record(
        &self,
        seq_num: u64,
        content_type: u8,
        explicit_nonce: &[u8; 8],
        plaintext: &[u8],
    ) -> (ciphertext: Vec<u8>)
        requires
            self@.algorithm != AeadAlgorithm::ChaCha20Poly1305,
            plaintext@.len() <= MAX_PLAINTEXT_LEN,
        ensures
            ciphertext@ == self@.encrypted(seq_num, content_type, explicit_nonce@, plaintext@),
            ciphertext@.len() == plaintext@.len() + TAG_LEN,
            self@.decrypted(seq_num, content_type, explicit_nonce@, ciphertext@) == Some(
                plaintext@,
            ),
    {
        proof {
            use_type_invariant(self);
        }
        let nonce = self.nonce_for(explicit_nonce);
        let plaintext_len: u16 = (plaintext.len() % 0x1_0000) as u16;
        let aad = RecordKeys::aad(seq_num, content_type, plaintext_len);
        seal(self.algorithm, self.key.as_slice(), &nonce, &aad, plaintext)
    }
}

/// The `random` field of a handshake body that is a hello message of type `msg_type`: it follows
/// the type, three length bytes and two version bytes.
pub open spec fn hello_random(handshake_body: Seq<u8>, msg_type: u8) -> Option<Seq<u8>> {
    if handshake_body.len() >= 38 && handshake_body[0] == msg_type {
        Some(handshake_body.subrange(6, 38))
    } else {
        None
    }
}

/// Extracts the random of an unencrypted ServerHello.
pub fn server_random_from_server_hello(handshake_body: &[u8]) -> (random: Option<[u8; 32]>)
    ensures
        match random {
            Some(random) => hello_random(handshake_body@, 0x02) == Some(random@),
            None => hello_random(handshake_body@, 0x02) is None,
        },
{
    if handshake_body.len() < 1 + 3 + 2 + 32 || handshake_body[0] != 0x02 {
        return None;
    }
    Some(copy_array_32(handshake_body, 6))
}

/// The key block is the pseudorandom function of RFC 5246 (section 6.3) of the master secret, on a
/// seed of thirteen bytes "key expansion", then the server's random, then the client's: whatever
/// has these three parts in this order is the seed. The block's first two parts are written out
/// here, hash by hash; two are all that the keys of AES take.
pub proof fn law_key_block_is_seeded_server_first(
    master_secret: Seq<u8>,
    client_random: Seq<u8>,
    server_random: Seq<u8>,
    seed: Seq<u8>,
)
    requires
        client_random.len() == 32,
        server_random.len() == 32,
        seed.len() == 77,
        seed.subrange(0, 13) == seq![
            0x6bu8, 0x65, 0x79, 0x20, 0x65, 0x78, 0x70, 0x61, 0x6e, 0x73, 0x69, 0x6f, 0x6e,
        ],
        seed.subrange(13, 45) == server_random,
        seed.subrange(45, 77) == client_random,
    ensures
        ({
            let a1 = hmac_sha256(master_secret, seed);
            let a2 = hmac_sha256(master_secret, a1);
            key_block(master_secret, client_random, server_random, AeadAlgorithm::Aes128Gcm) == (
            hmac_sha256(master_secret, a1 + seed) + hmac_sha256(master_secret, a2 + seed)).take(40)
        }),
        ({
            let a1 = hmac_sha384(master_secret, seed);
            let a2 = hmac_sha384(master_secret, a1);
            key_block(master_secret, client_random, server_random, AeadAlgorithm::Aes256Gcm) == (
            hmac_sha384(master_secret, a1 + seed) + hmac_sha384(master_secret, a2 + seed)).take(72)
        }),
{
    assert(seed =~= seed.subrange(0, 13) + seed.subrange(13, 45) + seed.subrange(45, 77));
    assert(seed =~= expansion_label() + server_random + client_random);
    lemma_two_blocks(HashAlgorithm::Sha256, master_secret, seed);
    lemma_two_blocks(HashAlgorithm::Sha384, master_secret, seed);
    assert(blocks_for(HashAlgorithm::Sha256, 40) == 2);
    assert(blocks_for(HashAlgorithm::Sha384, 72) == 2);
}

proof fn lemma_two_blocks(hash: HashAlgorithm, secret: Seq<u8>, seed: Seq<u8>)
    ensures
        ({
            let a1 = hmac_of(hash, secret, seed);
            let a2 = hmac_of(hash, secret, a1);
            p_blocks(hash, secret, seed, 2) == hmac_of(hash, secret, a1 + seed) + hmac_of(
                hash,
                secret,
                a2 + seed,
            )
        }),
{
    reveal_with_fuel(chain, 3);
    reveal_with_fuel(p_blocks, 3);
    let a1 = hmac_of(hash, secret, seed);
    assert(Seq::<u8>::empty() + hmac_of(hash, secret, a1 + seed) =~= hmac_of(
        hash,
        secret,
        a1 + seed,
    ));
}

/// The pseudorandom function of RFC 5246 (section 5) puts out one HMAC after the other: part `i` is
/// that of `A(i)` and the seed, with `A(1)` the HMAC of the seed and each next `A` that of the last.
/// A shorter output is the beginning of a longer one.
pub proof fn law_output_is_one_code_after_the_other(
    hash: HashAlgorithm,
    secret: Seq<u8>,
    seed: Seq<u8>,
    n: nat,
)
    ensures
        chain(hash, secret, seed, 1) == match hash {
            HashAlgorithm::Sha256 => hmac_sha256(secret, seed),
            HashAlgorithm::Sha384 => hmac_sha384(secret, seed),
        },
        chain(hash, secret, seed, n + 2) == match hash {
            HashAlgorithm::Sha256 => hmac_sha256(secret, chain(hash, secret, seed, n + 1)),
            HashAlgorithm::Sha384 => hmac_sha384(secret, chain(hash, secret, seed, n + 1)),
        },
        p_blocks(hash, secret, seed, 0) == Seq::<u8>::empty(),
        p_blocks(hash, secret, seed, n + 1) == p_blocks(hash, secret, seed, n) + match hash {
            HashAlgorithm::Sha256 => hmac_sha256(secret, chain(hash, secret, seed, n + 1) + seed),
            HashAlgorithm::Sha384 => hmac_sha384(secret, chain(hash, secret, seed, n + 1) + seed),
        },
{
    reveal_with_fuel(chain, 2);
}

/// The associated data of a record spells its sequence number in eight bytes and the length of its
/// plaintext in two, with the type and the version 3.3 between them. The plaintext is shorter than
/// what it was encrypted to by sixteen bytes.
pub proof fn law_associated_data_spells_the_record(seq_num: u64, content_type: u8, len: u16)
    ensures
        ({
            let aad = spec_aad(seq_num, content_type, len);
            &&& aad.len() == 13
            &&& be_number(aad.take(8)) == seq_num
            &&& aad.subrange(8, 11) == seq![content_type, 3u8, 3]
            &&& be_number(aad.skip(11)) == len
        }),
        plaintext_len((len + 16) as nat) == len,
{
    let aad = spec_aad(seq_num, content_type, len);
    law_bytes_spell_the_number(seq_num);
    assert(aad.take(8) =~= be_u64(seq_num));
    assert(aad.subrange(8, 11) =~= seq![content_type, 3u8, 3]);
    lemma_be_number_2(aad.skip(11));
}

/// A record decrypts to what AES-GCM opens, under the key, the twelve bytes that are the salt and
/// then the explicit nonce, and the thirteen bytes that spell the record.
pub proof fn law_record_is_what_the_cipher_opens(
    keys: KeyModel,
    seq_num: u64,
    content_type: u8,
    explicit_nonce: Seq<u8>,
    ciphertext: Seq<u8>,
    nonce: Seq<u8>,
    aad: Seq<u8>,
)
    requires
        keys.salt.len() == 4,
        explicit_nonce.len() == 8,
        16 <= ciphertext.len() <= 0xffff,
        nonce.len() == 12,
        nonce.take(4) == keys.salt,
        nonce.skip(4) == explicit_nonce,
        aad.len() == 13,
        be_number(aad.take(8)) == seq_num,
        aad.subrange(8, 11) == seq![content_type, 3u8, 3],
        be_number(aad.skip(11)) == ciphertext.len() - 16,
    ensures
        keys.decrypted(seq_num, content_type, explicit_nonce, ciphertext) == match keys.algorithm {
            AeadAlgorithm::Aes128Gcm => aes128gcm_open(keys.key, nonce, aad, ciphertext),
            AeadAlgorithm::Aes256Gcm => aes256gcm_open(keys.key, nonce, aad, ciphertext),
            AeadAlgorithm::ChaCha20Poly1305 => None,
        },
{
    let len = (ciphertext.len() - 16) as u16;
    let own = spec_aad(seq_num, content_type, len);
    assert(nonce =~= nonce.take(4) + nonce.skip(4));
    law_associated_data_spells_the_record(seq_num, content_type, len);
    lemma_number_has_one_spelling(own.take(8), aad.take(8));
    lemma_number_has_one_spelling(own.skip(11), aad.skip(11));
    assert(own =~= own.take(8) + own.subrange(8, 11) + own.skip(11));
    assert(aad =~= aad.take(8) + aad.subrange(8, 11) + aad.skip(11));
}

proof fn lemma_number_has_one_spelling(a: Seq<u8>, b: Seq<u8>)
    requires
        a.len() == b.len(),
        be_number(a) == be_number(b),
    ensures
        a == b,
    decreases a.len(),
{
    if a.len() > 0 {
        lemma_number_has_one_spelling(a.drop_last(), b.drop_last());
        assert(a =~= a.drop_last().push(a.last()));
        assert(b =~= b.drop_last().push(b.last()));
    }
    assert(a =~= b);
}

/// A hello message's random is the 32 bytes behind its type, three bytes of length and two of
/// version, whatever these hold and whatever follows. A message of another type, or one too short
/// to hold a random, has none.
pub proof fn law_random_follows_the_version(
    msg_type: u8,
    header: Seq<u8>,
    random: Seq<u8>,
    rest: Seq<u8>,
    wanted: u8,
)
    requires
        header.len() == 5,
        random.len() <= 32,
        random.len() < 32 ==> rest.len() == 0,
    ensures
        hello_random(seq![msg_type] + header + random + rest, wanted) == if msg_type == wanted
            && random.len() == 32 {
            Some(random)
        } else {
            None
        },
{
    let body = seq![msg_type] + header + random + rest;
    if random.len() == 32 {
        assert(body.subrange(6, 38) =~= random);
    }
}

} // verus!
