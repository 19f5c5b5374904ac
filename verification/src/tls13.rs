//! TLS 1.3 record-layer decryption (RFC 8446, sections 5 and 7).
//!
//! This is no TLS implementation: there is no handshake, no certificate and no state machine.
//! From a traffic secret and a record's sequence number under that secret it derives the record's
//! key and nonce and performs the AEAD transform.

use vstd::prelude::*;
use crate::aead::{
    aes128gcm_open, aes256gcm_open, chacha20poly1305_open, open, opened, seal, sealed,
    MAX_PLAINTEXT_LEN, MAX_SEALED_LEN, TAG_LEN,
};
use crate::bytes::{
    append_bytes, be_number, lemma_be_number_2, lemma_be_number_4, lemma_be_number_8,
    lemma_be_number_split, pow256,
};
use crate::kdf::{expanded, hkdf_expand, hkdf_sha256, hkdf_sha384, HashAlgorithm};

verus! {

/// Why a record could not be decrypted.
#[derive(Clone, Copy, Debug, PartialEq, Eq, Structural)]
pub enum Tls13Error {
    Aead,
    RecordTooShort,
    NoContentType,
}

impl Tls13Error {
    pub fn message(&self) -> (text: &'static str)
        ensures
            text@ == match *self {
                Tls13Error::Aead =>
                    "AEAD operation failed (wrong key/nonce, or corrupt/truncated record)"@,
                Tls13Error::RecordTooShort => "record too short to contain an auth tag"@,
                Tls13Error::NoContentType =>
                    "decrypted inner plaintext has no content-type byte (all-zero after stripping padding)"@,
            },
    {
        match self {
            Tls13Error::Aead =>
                "AEAD operation failed (wrong key/nonce, or corrupt/truncated record)",
            Tls13Error::RecordTooShort => "record too short to contain an auth tag",
            Tls13Error::NoContentType =>
                "decrypted inner plaintext has no content-type byte (all-zero after stripping padding)",
        }
    }
}

/// The AEAD algorithms of the TLS 1.3 cipher suites.
#[derive(Clone, Copy, Debug, PartialEq, Eq, Hash, Structural)]
pub enum AeadAlgorithm {
    Aes128Gcm,
    Aes256Gcm,
    ChaCha20Poly1305,
}

impl AeadAlgorithm {
    /// The length of the IV, which is that of the nonce, for every algorithm.
    pub const IV_LEN: usize = 12;

    pub open spec fn spec_key_len(self) -> nat {
        match self {
            AeadAlgorithm::Aes128Gcm => 16,
            AeadAlgorithm::Aes256Gcm => 32,
            AeadAlgorithm::ChaCha20Poly1305 => 32,
        }
    }

    /// The hash that the algorithm's cipher suite names.
    pub open spec fn spec_hash(self) -> HashAlgorithm {
        match self {
            AeadAlgorithm::Aes128Gcm | AeadAlgorithm::ChaCha20Poly1305 => HashAlgorithm::Sha256,
            AeadAlgorithm::Aes256Gcm => HashAlgorithm::Sha384,
        }
    }

    pub fn key_len(self) -> (n: usize)
        ensures
            n == self.spec_key_len(),
    {
        match self {
            AeadAlgorithm::Aes128Gcm => 16,
            AeadAlgorithm::Aes256Gcm => 32,
            AeadAlgorithm::ChaCha20Poly1305 => 32,
        }
    }

    pub fn hash(self) -> (h: HashAlgorithm)
        ensures
            h == self.spec_hash(),
    {
        match self {
            AeadAlgorithm::Aes128Gcm | AeadAlgorithm::ChaCha20Poly1305 => HashAlgorithm::Sha256,
            AeadAlgorithm::Aes256Gcm => HashAlgorithm::Sha384,
        }
    }
}

/// The bytes of `n`, most significant first.
pub open spec fn be_u64(n: u64) -> Seq<u8> {
    seq![
        (n / 0x0100_0000_0000_0000 % 256) as u8,
        (n / 0x0001_0000_0000_0000 % 256) as u8,
        (n / 0x0000_0100_0000_0000 % 256) as u8,
        (n / 0x0000_0001_0000_0000 % 256) as u8,
        (n / 0x0000_0000_0100_0000 % 256) as u8,
        (n / 0x0000_0000_0001_0000 % 256) as u8,
        (n / 0x0000_0000_0000_0100 % 256) as u8,
        (n % 256) as u8,
    ]
}

/// The bytes of `n`, most significant first.
pub fn u64_to_be_bytes(n: u64) -> (bytes: [u8; 8])
    ensures
        bytes@ == be_u64(n),
{
    let bytes = [
        (n / 0x0100_0000_0000_0000 % 256) as u8,
        (n / 0x0001_0000_0000_0000 % 256) as u8,
        (n / 0x0000_0100_0000_0000 % 256) as u8,
        (n / 0x0000_0001_0000_0000 % 256) as u8,
        (n / 0x0000_0000_0100_0000 % 256) as u8,
        (n / 0x0000_0000_0001_0000 % 256) as u8,
        (n / 0x0000_0000_0000_0100 % 256) as u8,
        (n % 256) as u8,
    ];
    assert(bytes@ =~= be_u64(n));
    bytes
}

/// "tls13 ", which begins every label.
pub open spec fn label_prefix() -> Seq<u8> {
    seq![0x74u8, 0x6c, 0x73, 0x31, 0x33, 0x20]
}

/// "key".
pub open spec fn key_label() -> Seq<u8> {
    seq![0x6bu8, 0x65, 0x79]
}

/// "iv".
pub open spec fn iv_label() -> Seq<u8> {
    seq![0x69u8, 0x76]
}

/// The HkdfLabel structure: the output length in two bytes, then the prefixed label and the
/// context, each behind its own length in one byte.
pub open spec fn hkdf_label(label: Seq<u8>, context: Seq<u8>, length: nat) -> Seq<u8> {
    seq![(length / 256) as u8, (length % 256) as u8, (6 + label.len()) as u8] + label_prefix()
        + label + seq![context.len() as u8] + context
}

/// HKDF-Expand-Label (RFC 8446, section 7.1). `None` where `secret` is too short to be a key for
/// `hash`.
fn hkdf_expand_label(
    secret: &[u8],
    label: &[u8],
    context: &[u8],
    length: usize,
    hash: HashAlgorithm,
) -> (out: Option<Vec<u8>>)
    requires
        label@.len() <= 249,
        context@.len() <= 255,
        length <= 255 * hash.spec_len(),
    ensures
        match out {
            Some(out) => {
                &&& expanded(hash, secret@, hkdf_label(label@, context@, length as nat), length as nat)
                    == Some(out@)
                &&& out@.len() == length
            },
            None => expanded(
                hash,
                secret@,
                hkdf_label(label@, context@, length as nat),
                length as nat,
            ) is None,
        },
{
    let mut info: Vec<u8> = Vec::new();
    info.push((length / 256) as u8);
    info.push((length % 256) as u8);
    info.push((6 + label.len()) as u8);
    append_bytes(&mut info, &[0x74u8, 0x6c, 0x73, 0x31, 0x33, 0x20]);
    append_bytes(&mut info, label);
    info.push(context.len() as u8);
    append_bytes(&mut info, context);
    assert(info@ =~= hkdf_label(label@, context@, length as nat));
    hkdf_expand(hash, secret, info.as_slice(), length)
}

/// The key material of one direction under one traffic secret: an AEAD key, and the IV that is
/// combined with each record's sequence number.
pub struct RecordKeys {
    algorithm: AeadAlgorithm,
    key: Vec<u8>,
    iv: [u8; 12],
}

/// What a `RecordKeys` holds.
pub struct KeyModel {
    pub algorithm: AeadAlgorithm,
    pub key: Seq<u8>,
    pub iv: Seq<u8>,
}

impl View for RecordKeys {
    type V = KeyModel;

    closed spec fn view(&self) -> KeyModel {
        KeyModel { algorithm: self.algorithm, key: self.key@, iv: self.iv@ }
    }
}

/// Splits a decrypted TLSInnerPlaintext into the content and its type: the type is the last byte
/// that is not zero, and what follows it is padding. `None` where there is no such byte.
pub open spec fn inner_parts(inner: Seq<u8>) -> Option<(Seq<u8>, u8)>
    decreases inner.len(),
{
    if inner.len() == 0 {
        None
    } else if inner.last() == 0 {
        inner_parts(inner.drop_last())
    } else {
        Some((inner.drop_last(), inner.last()))
    }
}

/// Strips the padding and the content type off a decrypted record.
pub fn split_inner(inner: Vec<u8>) -> (parts: Result<(Vec<u8>, u8), Tls13Error>)
    ensures
        match parts {
            Ok((content, content_type)) => {
                &&& inner_parts(inner@) == Some((content@, content_type))
                &&& content@.len() < inner@.len()
            },
            Err(e) => e == Tls13Error::NoContentType && inner_parts(inner@) is None,
        },
{
    let mut inner = inner;
    let ghost whole = inner@;
    while inner.len() > 0 && inner[inner.len() - 1] == 0
        invariant
            inner_parts(inner@) == inner_parts(whole),
            inner@.len() <= whole.len(),
        decreases inner@.len(),
    {
        let ghost before = inner@;
        inner.pop();
        assert(inner@ =~= before.drop_last());
    }
    let ghost last = inner@;
    match inner.pop() {
        Some(content_type) => {
            assert(inner@ =~= last.drop_last());
            Ok((inner, content_type))
        },
        None => Err(Tls13Error::NoContentType),
    }
}

impl KeyModel {
    /// The keys that a traffic secret gives for an algorithm; `None` where the secret is too short
    /// for the algorithm's hash.
    pub open spec fn derived(secret: Seq<u8>, algorithm: AeadAlgorithm) -> Option<KeyModel> {
        let hash = algorithm.spec_hash();
        let key_len = algorithm.spec_key_len();
        match (
            expanded(hash, secret, hkdf_label(key_label(), Seq::empty(), key_len), key_len),
            expanded(hash, secret, hkdf_label(iv_label(), Seq::empty(), 12), 12),
        ) {
            (Some(key), Some(iv)) => Some(KeyModel { algorithm, key, iv }),
            _ => None,
        }
    }

    /// The nonce of the record with sequence number `seq_num`: the IV, its last eight bytes
    /// combined with the number by exclusive or.
    pub open spec fn nonce(self, seq_num: u64) -> Seq<u8> {
        Seq::new(
            12,
            |i: int|
                if i < 4 {
                    self.iv[i]
                } else {
                    self.iv[i] ^ be_u64(seq_num)[i - 4]
                },
        )
    }

    /// What decrypting a record gives.
    pub open spec fn decrypted(self, seq_num: u64, aad: Seq<u8>, record: Seq<u8>) -> Result<
        (Seq<u8>, u8),
        Tls13Error,
    > {
        if record.len() < TAG_LEN {
            Err(Tls13Error::RecordTooShort)
        } else {
            match opened(self.algorithm, self.key, self.nonce(seq_num), aad, record) {
                None => Err(Tls13Error::Aead),
                Some(inner) => match inner_parts(inner) {
                    None => Err(Tls13Error::NoContentType),
                    Some(parts) => Ok(parts),
                },
            }
        }
    }

    /// What encrypting a record gives.
    pub open spec fn encrypted(
        self,
        seq_num: u64,
        aad: Seq<u8>,
        content: Seq<u8>,
        content_type: u8,
        padding_len: nat,
    ) -> Seq<u8> {
        sealed(
            self.algorithm,
            self.key,
            self.nonce(seq_num),
            aad,
            padded(content, content_type, padding_len),
        )
    }
}

/// No two records under one secret share a nonce.
pub proof fn law_nonces_are_distinct(keys: KeyModel, a: u64, b: u64)
    requires
        keys.nonce(a) == keys.nonce(b),
    ensures
        a == b,
{
    assert forall|i: int| 0 <= i < 8 implies be_u64(a)[i] == be_u64(b)[i] by {
        let iv = keys.iv[i + 4];
        let x = be_u64(a)[i];
        let y = be_u64(b)[i];
        assert(keys.nonce(a)[i + 4] == iv ^ x);
        assert(keys.nonce(b)[i + 4] == iv ^ y);
        assert(iv ^ x == iv ^ y ==> x == y) by (bit_vector);
    }
    lemma_be_u64_value(a);
    lemma_be_u64_value(b);
}

/// The bytes of a number spell it.
proof fn lemma_be_u64_value(n: u64)
    ensures
        n == be_u64(n)[0] * 0x0100_0000_0000_0000 + be_u64(n)[1] * 0x0001_0000_0000_0000
            + be_u64(n)[2] * 0x0000_0100_0000_0000 + be_u64(n)[3] * 0x0000_0001_0000_0000
            + be_u64(n)[4] * 0x0000_0000_0100_0000 + be_u64(n)[5] * 0x0000_0000_0001_0000
            + be_u64(n)[6] * 0x0000_0000_0000_0100 + be_u64(n)[7],
{
    let q1 = n / 0x0000_0000_0000_0100;
    let q2 = n / 0x0000_0000_0001_0000;
    let q3 = n / 0x0000_0000_0100_0000;
    let q4 = n / 0x0000_0001_0000_0000;
    let q5 = n / 0x0000_0100_0000_0000;
    let q6 = n / 0x0001_0000_0000_0000;
    let q7 = n / 0x0100_0000_0000_0000;
    assert(n == q1 * 256 + n % 256);
    assert(q1 == q2 * 256 + q1 % 256);
    assert(q2 == q3 * 256 + q2 % 256);
    assert(q3 == q4 * 256 + q3 % 256);
    assert(q4 == q5 * 256 + q4 % 256);
    assert(q5 == q6 * 256 + q5 % 256);
    assert(q6 == q7 * 256 + q6 % 256);
    assert(q7 == q7 % 256);
}

/// Eight bytes spell a 64-bit number, and they are those of that number alone.
pub proof fn law_bytes_spell_the_number(n: u64)
    ensures
        be_u64(n).len() == 8,
        be_number(be_u64(n)) == n,
{
    lemma_be_u64_value(n);
    lemma_be_number_8(be_u64(n));
}

/// The nonce is the IV with the record's sequence number, both read as big-endian numbers of
/// twelve bytes, combined by exclusive or (RFC 8446, section 5.3). So the number touches the lowest
/// bytes: the first four are always the IV's, and a number below 256 touches the last one alone.
pub proof fn law_nonce_is_iv_xor_number(keys: KeyModel, seq_num: u64)
    requires
        keys.iv.len() == 12,
    ensures
        keys.nonce(seq_num).len() == 12,
        be_number(keys.nonce(seq_num)) as u128 == (be_number(keys.iv) as u128) ^ (seq_num as u128),
        be_number(keys.nonce(seq_num)) < 0x1_0000_0000_0000_0000_0000_0000,
        keys.nonce(seq_num).take(4) == keys.iv.take(4),
        seq_num < 256 ==> keys.nonce(seq_num).take(11) == keys.iv.take(11)
            && keys.nonce(seq_num)[11] == keys.iv[11] ^ (seq_num as u8),
{
    let nonce = keys.nonce(seq_num);
    let iv = keys.iv;
    let s = be_u64(seq_num);
    let high = iv.take(4);
    let low = iv.skip(4);
    let mixed = nonce.skip(4);
    assert(nonce.take(4) =~= high);
    assert(iv =~= high + low);
    assert(nonce =~= high + mixed);
    lemma_be_number_split(high, low);
    lemma_be_number_split(high, mixed);
    assert(pow256(8) == 0x1_0000_0000_0000_0000) by {
        reveal_with_fuel(pow256, 9);
    }
    lemma_be_number_4(high);
    lemma_be_number_8(low);
    lemma_be_number_8(mixed);
    lemma_be_number_8(s);
    lemma_be_u64_value(seq_num);
    let h = be_number(high) as u32;
    let l = be_number(low) as u64;
    let m = be_number(mixed) as u64;
    assert forall|i: int| 0 <= i < 8 implies #[trigger] mixed[i] == low[i] ^ s[i] by {
        assert(mixed[i] == nonce[i + 4]);
        assert(low[i] == iv[i + 4]);
    }
    lemma_xor_by_bytes(
        low[0], low[1], low[2], low[3], low[4], low[5], low[6], low[7],
        s[0], s[1], s[2], s[3], s[4], s[5], s[6], s[7],
    );
    assert(m == l ^ seq_num);
    lemma_xor_low(h, l, seq_num);
    if seq_num < 256 {
        let b = seq_num as u8;
        assert(s[7] == b);
        assert forall|i: int| 0 <= i < 11 implies nonce.take(11)[i] == iv.take(11)[i] by {
            if i >= 4 {
                let x = iv[i];
                assert(s[i - 4] == 0);
                assert(x ^ 0u8 == x) by (bit_vector);
            }
        }
        assert(nonce.take(11) =~= iv.take(11));
    }
}

proof fn lemma_xor_low(h: u32, l: u64, s: u64)
    ensures
        (h * 0x1_0000_0000_0000_0000 + (l ^ s)) as u128 == ((h * 0x1_0000_0000_0000_0000
            + l) as u128) ^ (s as u128),
{
    let a = h as u128;
    let b = l as u128;
    let c = s as u128;
    let x = (l ^ s) as u128;
    assert(x == b ^ c && (a * 0x1_0000_0000_0000_0000u128 + (b ^ c)) as u128 == ((a
        * 0x1_0000_0000_0000_0000u128 + b) as u128) ^ c) by (bit_vector)
        requires
            a == h as u128,
            b == l as u128,
            c == s as u128,
            x == (l ^ s) as u128,
    ;
}

proof fn lemma_xor_by_bytes(
    a0: u8, a1: u8, a2: u8, a3: u8, a4: u8, a5: u8, a6: u8, a7: u8,
    b0: u8, b1: u8, b2: u8, b3: u8, b4: u8, b5: u8, b6: u8, b7: u8,
)
    ensures
        (a0 ^ b0) * 0x0100_0000_0000_0000 + (a1 ^ b1) * 0x0001_0000_0000_0000 + (a2 ^ b2)
            * 0x0000_0100_0000_0000 + (a3 ^ b3) * 0x0000_0001_0000_0000 + (a4 ^ b4)
            * 0x0000_0000_0100_0000 + (a5 ^ b5) * 0x0000_0000_0001_0000 + (a6 ^ b6)
            * 0x0000_0000_0000_0100 + (a7 ^ b7) == ((a0 * 0x0100_0000_0000_0000 + a1
            * 0x0001_0000_0000_0000 + a2 * 0x0000_0100_0000_0000 + a3 * 0x0000_0001_0000_0000 + a4
            * 0x0000_0000_0100_0000 + a5 * 0x0000_0000_0001_0000 + a6 * 0x0000_0000_0000_0100
            + a7) as u64) ^ ((b0 * 0x0100_0000_0000_0000 + b1 * 0x0001_0000_0000_0000 + b2
            * 0x0000_0100_0000_0000 + b3 * 0x0000_0001_0000_0000 + b4 * 0x0000_0000_0100_0000 + b5
            * 0x0000_0000_0001_0000 + b6 * 0x0000_0000_0000_0100 + b7) as u64),
{
    assert((a0 ^ b0) * 0x0100_0000_0000_0000 + (a1 ^ b1) * 0x0001_0000_0000_0000 + (a2 ^ b2)
        * 0x0000_0100_0000_0000 + (a3 ^ b3) * 0x0000_0001_0000_0000 + (a4 ^ b4)
        * 0x0000_0000_0100_0000 + (a5 ^ b5) * 0x0000_0000_0001_0000 + (a6 ^ b6)
        * 0x0000_0000_0000_0100 + (a7 ^ b7) == ((a0 * 0x0100_0000_0000_0000 + a1
        * 0x0001_0000_0000_0000 + a2 * 0x0000_0100_0000_0000 + a3 * 0x0000_0001_0000_0000 + a4
        * 0x0000_0000_0100_0000 + a5 * 0x0000_0000_0001_0000 + a6 * 0x0000_0000_0000_0100
        + a7) as u64) ^ ((b0 * 0x0100_0000_0000_0000 + b1 * 0x0001_0000_0000_0000 + b2
        * 0x0000_0100_0000_0000 + b3 * 0x0000_0001_0000_0000 + b4 * 0x0000_0000_0100_0000 + b5
        * 0x0000_0000_0001_0000 + b6 * 0x0000_0000_0000_0100 + b7) as u64)) by (bit_vector);
}

/// TLSInnerPlaintext: the content, its type, and zeros.
pub open spec fn padded(content: Seq<u8>, content_type: u8, padding_len: nat) -> Seq<u8> {
    content.push(content_type) + Seq::new(padding_len, |i: int| 0u8)
}

/// Padding is no part of the content: whatever its length, stripping it gives back the content
/// and the type, unless the type is zero itself.
pub proof fn law_padding_is_stripped(content: Seq<u8>, content_type: u8, padding_len: nat)
    requires
        content_type != 0,
    ensures
        inner_parts(padded(content, content_type, padding_len)) == Some((content, content_type)),
    decreases padding_len,
{
    let inner = padded(content, content_type, padding_len);
    if padding_len == 0 {
        assert(inner =~= content.push(content_type));
        assert(inner.drop_last() =~= content);
    } else {
        assert(inner.drop_last() =~= padded(content, content_type, (padding_len - 1) as nat));
        law_padding_is_stripped(content, content_type, (padding_len - 1) as nat);
    }
}

impl RecordKeys {
    #[verifier::type_invariant]
    spec fn key_fits(self) -> bool {
        self.key@.len() == self.algorithm.spec_key_len()
    }

    /// Derives the keys of one direction; `None` where `traffic_secret` is too short for the hash
    /// of `algorithm`.
    pub fn derive(traffic_secret: &[u8], algorithm: AeadAlgorithm) -> (keys: Option<RecordKeys>)
        ensures
            match keys {
                Some(keys) => KeyModel::derived(traffic_secret@, algorithm) == Some(keys@),
                None => KeyModel::derived(traffic_secret@, algorithm) is None,
            },
            keys is Some <==> traffic_secret@.len() >= algorithm.spec_hash().spec_len(),
    {
        let key_label_bytes = [0x6bu8, 0x65, 0x79];
        let iv_label_bytes = [0x69u8, 0x76];
        let no_context: [u8; 0] = [];
        proof {
            assert(key_label_bytes@ =~= key_label());
            assert(iv_label_bytes@ =~= iv_label());
            assert(no_context@ =~= Seq::empty());
        }
        let key = hkdf_expand_label(
            traffic_secret,
            &key_label_bytes,
            &no_context,
            algorithm.key_len(),
            algorithm.hash(),
        )?;
        let iv_bytes = hkdf_expand_label(
            traffic_secret,
            &iv_label_bytes,
            &no_context,
            AeadAlgorithm::IV_LEN,
            algorithm.hash(),
        )?;
        let mut iv = [0u8; 12];
        let mut i: usize = 0;
        while i < 12
            invariant
                i <= 12,
                iv_bytes@.len() == 12,
                forall|j: int| 0 <= j < i ==> iv@[j] == iv_bytes@[j],
            decreases 12 - i,
        {
            iv[i] = iv_bytes[i];
            i += 1;
        }
        assert(iv@ =~= iv_bytes@);
        Some(RecordKeys { algorithm, key, iv })
    }

    /// The AEAD key.
    pub fn key(&self) -> (key: &[u8])
        ensures
            key@ == self@.key,
            key@.len() == self@.algorithm.spec_key_len(),
    {
        proof {
            use_type_invariant(self);
        }
        self.key.as_slice()
    }

    /// The IV that each record's nonce is made from.
    pub fn iv(&self) -> (iv: &[u8; 12])
        ensures
            iv@ == self@.iv,
    {
        &self.iv
    }

    fn nonce_for(&self, seq_num: u64) -> (nonce: [u8; 12])
        ensures
            nonce@ == self@.nonce(seq_num),
    {
        let seq_bytes = u64_to_be_bytes(seq_num);
        let mut nonce = self.iv;
        let mut i: usize = 0;
        while i < 8
            invariant
                i <= 8,
                seq_bytes@ == be_u64(seq_num),
                forall|j: int| 0 <= j < 4 + i ==> nonce@[j] == self@.nonce(seq_num)[j],
                forall|j: int| 4 + i <= j < 12 ==> nonce@[j] == self.iv@[j],
            decreases 8 - i,
        {
            nonce[4 + i] = nonce[4 + i] ^ seq_bytes[i];
            i += 1;
        }
        assert(nonce@ =~= self@.nonce(seq_num));
        nonce
    }

    /// Decrypts what follows the five-byte header `aad` of a record: ciphertext and tag. Returns
    /// the content and its real type.
    pub fn decrypt_record(&self, seq_num: u64, aad: &[u8; 5], encrypted_record: &[u8]) -> (result:
        Result<(Vec<u8>, u8), Tls13Error>)
        requires
            encrypted_record@.len() <= MAX_SEALED_LEN,
        ensures
            match result {
                Ok((content, content_type)) => {
                    &&& self@.decrypted(seq_num, aad@, encrypted_record@) == Ok::<
                        (Seq<u8>, u8),
                        Tls13Error,
                    >((content@, content_type))
                    &&& content@.len() + 1 + TAG_LEN <= encrypted_record@.len()
                },
                Err(e) => self@.decrypted(seq_num, aad@, encrypted_record@) == Err::<
                    (Seq<u8>, u8),
                    Tls13Error,
                >(e),
            },
    {
        proof {
            use_type_invariant(self);
        }
        if encrypted_record.len() < TAG_LEN {
            return Err(Tls13Error::RecordTooShort);
        }
        let nonce = self.nonce_for(seq_num);
        match open(self.algorithm, self.key.as_slice(), &nonce, aad, encrypted_record) {
            Some(inner) => split_inner(inner),
            None => Err(Tls13Error::Aead),
        }
    }

    /// Encrypts `content` into ciphertext and tag, with `padding_len` zeros after the content type.
    /// Decrypting the result under the same sequence number and header gives back `content` and
    /// its type, provided the type is not zero.
    pub fn encrypt_record(
        &self,
        seq_num: u64,
        aad: &[u8; 5],
        content: &[u8],
        content_type: u8,
        padding_len: usize,
    ) -> (record: Vec<u8>)
        requires
            content@.len() + 1 + padding_len <= MAX_PLAINTEXT_LEN,
        ensures
            record@ == self@.encrypted(
                seq_num,
                aad@,
                content@,
                content_type,
                padding_len as nat,
            ),
            record@.len() == content@.len() + 1 + padding_len + TAG_LEN,
            content_type != 0 ==> self@.decrypted(seq_num, aad@, record@) == Ok::<
                (Seq<u8>, u8),
                Tls13Error,
            >((content@, content_type)),
    {
        proof {
            use_type_invariant(self);
        }
        let nonce = self.nonce_for(seq_num);
        let mut inner: Vec<u8> = Vec::new();
        append_bytes(&mut inner, content);
        inner.push(content_type);
        let mut i: usize = 0;
        while i < padding_len
            invariant
                i <= padding_len,
                inner@ == padded(content@, content_type, i as nat),
            decreases padding_len - i,
        {
            inner.push(0);
            i += 1;
            assert(inner@ =~= padded(content@, content_type, i as nat));
        }
        proof {
            if content_type != 0 {
                law_padding_is_stripped(content@, content_type, padding_len as nat);
            }
        }
        seal(self.algorithm, self.key.as_slice(), &nonce, aad, inner.as_slice())
    }
}

/// The record header that TLS 1.3 authenticates: type 0x17, version 0x0303, and the low sixteen
/// bits of the length of ciphertext and tag.
pub open spec fn spec_record_aad(ciphertext_len: usize) -> Seq<u8> {
    seq![
        0x17u8,
        0x03,
        0x03,
        (ciphertext_len / 256 % 256) as u8,
        (ciphertext_len % 256) as u8,
    ]
}

/// Builds the five-byte header of a protected record, its associated data.
pub fn record_aad(ciphertext_len: usize) -> (aad: [u8; 5])
    ensures
        aad@ == spec_record_aad(ciphertext_len),
{
    let aad = [
        0x17u8,
        0x03,
        0x03,
        (ciphertext_len / 256 % 256) as u8,
        (ciphertext_len % 256) as u8,
    ];
    assert(aad@ =~= spec_record_aad(ciphertext_len));
    aad
}

/// The structure that a label is expanded under (RFC 8446, section 7.1): two bytes spell the length
/// asked for, one byte counts the label with "tls13 " in front, which follows, one byte counts the
/// context, and the context is the rest.
pub proof fn law_label_is_framed(label: Seq<u8>, context: Seq<u8>, length: nat)
    requires
        label.len() <= 249,
        context.len() <= 255,
        length <= 0xffff,
    ensures
        ({
            let info = hkdf_label(label, context, length);
            let n = info[2] as int;
            &&& be_number(info.take(2)) == length
            &&& n == label.len() + 6
            &&& info.subrange(3, 3 + n) == seq![0x74u8, 0x6c, 0x73, 0x31, 0x33, 0x20] + label
            &&& info[3 + n] == context.len()
            &&& info.skip(4 + n) == context
        }),
{
    let info = hkdf_label(label, context, length);
    let n = info[2] as int;
    lemma_be_number_2(info.take(2));
    assert(info.subrange(3, 3 + n) =~= seq![0x74u8, 0x6c, 0x73, 0x31, 0x33, 0x20] + label);
    assert(info.skip(4 + n) =~= context);
}

/// A traffic secret's key and IV are its expansions under the labels "key" and "iv" with no
/// context, by the hash of the cipher suite and to the length of the algorithm's key and of a nonce.
pub proof fn law_keys_are_expanded_from_the_secret(secret: Seq<u8>)
    ensures
        ({
            let info_16 = seq![
                0u8, 16, 9, 0x74, 0x6c, 0x73, 0x31, 0x33, 0x20, 0x6b, 0x65, 0x79, 0,
            ];
            let info_32 = seq![
                0u8, 32, 9, 0x74, 0x6c, 0x73, 0x31, 0x33, 0x20, 0x6b, 0x65, 0x79, 0,
            ];
            let info_iv = seq![0u8, 12, 8, 0x74, 0x6c, 0x73, 0x31, 0x33, 0x20, 0x69, 0x76, 0];
            &&& KeyModel::derived(secret, AeadAlgorithm::Aes128Gcm) == if secret.len() < 32 {
                None
            } else {
                Some(
                    KeyModel {
                        algorithm: AeadAlgorithm::Aes128Gcm,
                        key: hkdf_sha256(secret, info_16, 16),
                        iv: hkdf_sha256(secret, info_iv, 12),
                    },
                )
            }
            &&& KeyModel::derived(secret, AeadAlgorithm::Aes256Gcm) == if secret.len() < 48 {
                None
            } else {
                Some(
                    KeyModel {
                        algorithm: AeadAlgorithm::Aes256Gcm,
                        key: hkdf_sha384(secret, info_32, 32),
                        iv: hkdf_sha384(secret, info_iv, 12),
                    },
                )
            }
            &&& KeyModel::derived(secret, AeadAlgorithm::ChaCha20Poly1305) == if secret.len()
                < 32 {
                None
            } else {
                Some(
                    KeyModel {
                        algorithm: AeadAlgorithm::ChaCha20Poly1305,
                        key: hkdf_sha256(secret, info_32, 32),
                        iv: hkdf_sha256(secret, info_iv, 12),
                    },
                )
            }
        }),
{
    assert(hkdf_label(key_label(), Seq::empty(), 16) =~= seq![
        0u8, 16, 9, 0x74, 0x6c, 0x73, 0x31, 0x33, 0x20, 0x6b, 0x65, 0x79, 0,
    ]);
    assert(hkdf_label(key_label(), Seq::empty(), 32) =~= seq![
        0u8, 32, 9, 0x74, 0x6c, 0x73, 0x31, 0x33, 0x20, 0x6b, 0x65, 0x79, 0,
    ]);
    assert(hkdf_label(iv_label(), Seq::empty(), 12) =~= seq![
        0u8, 12, 8, 0x74, 0x6c, 0x73, 0x31, 0x33, 0x20, 0x69, 0x76, 0,
    ]);
}

/// The header that a record is authenticated with is the one that stands in front of it: type 23,
/// version 3.3, and two bytes that spell the length of what follows.
pub proof fn law_header_is_the_records_own(len: usize)
    requires
        len <= 0xffff,
    ensures
        spec_record_aad(len).len() == 5,
        spec_record_aad(len).take(3) == seq![23u8, 3, 3],
        be_number(spec_record_aad(len).skip(3)) == len,
{
    assert(spec_record_aad(len).take(3) =~= seq![23u8, 3, 3]);
    lemma_be_number_2(spec_record_aad(len).skip(3));
}

/// What was encrypted begins with `content`, goes on with `content_type`, which is not zero, and
/// holds zeros from there on.
pub open spec fn holds_content(inner: Seq<u8>, content: Seq<u8>, content_type: u8) -> bool {
    &&& content_type != 0
    &&& content.len() < inner.len()
    &&& inner.take(content.len() as int) == content
    &&& inner[content.len() as int] == content_type
    &&& forall|i: int| content.len() < i < inner.len() ==> inner[i] == 0
}

/// A record decrypts exactly where its algorithm opens it, under the key, the record's nonce and
/// the header given, to content, type and padding zeros.
pub proof fn law_record_is_what_the_cipher_opens(
    keys: KeyModel,
    seq_num: u64,
    aad: Seq<u8>,
    record: Seq<u8>,
    content: Seq<u8>,
    content_type: u8,
)
    requires
        record.len() >= 16,
    ensures
        ({
            let nonce = keys.nonce(seq_num);
            let inner = match keys.algorithm {
                AeadAlgorithm::Aes128Gcm => aes128gcm_open(keys.key, nonce, aad, record),
                AeadAlgorithm::Aes256Gcm => aes256gcm_open(keys.key, nonce, aad, record),
                AeadAlgorithm::ChaCha20Poly1305 => chacha20poly1305_open(
                    keys.key,
                    nonce,
                    aad,
                    record,
                ),
            };
            keys.decrypted(seq_num, aad, record) == Ok::<(Seq<u8>, u8), Tls13Error>(
                (content, content_type),
            ) <==> inner is Some && holds_content(inner->0, content, content_type)
        }),
{
    let inner = opened(keys.algorithm, keys.key, keys.nonce(seq_num), aad, record);
    if inner is Some {
        let inner = inner->0;
        lemma_inner_parts(inner);
        if holds_content(inner, content, content_type) {
            let padding = (inner.len() - content.len() - 1) as nat;
            assert forall|i: int| 0 <= i < inner.len() implies inner[i] == padded(
                content,
                content_type,
                padding,
            )[i] by {
                if i < content.len() {
                    assert(inner.take(content.len() as int)[i] == content[i]);
                }
            }
            assert(inner =~= padded(content, content_type, padding));
            law_padding_is_stripped(content, content_type, padding);
        }
    }
}

proof fn lemma_inner_parts(inner: Seq<u8>)
    ensures
        inner_parts(inner) matches Some((content, content_type)) ==> holds_content(
            inner,
            content,
            content_type,
        ),
    decreases inner.len(),
{
    if inner.len() > 0 {
        if inner.last() == 0 {
            let rest = inner.drop_last();
            lemma_inner_parts(rest);
            if let Some((content, content_type)) = inner_parts(rest) {
                assert(inner.take(content.len() as int) =~= rest.take(content.len() as int));
                assert(inner[content.len() as int] == rest[content.len() as int]);
                assert forall|i: int| content.len() < i < inner.len() implies inner[i] == 0 by {
                    if i < rest.len() {
                        assert(rest[i] == 0);
                    }
                }
            }
        } else {
            assert(inner.take(inner.len() - 1) =~= inner.drop_last());
        }
    }
}

} // verus!
