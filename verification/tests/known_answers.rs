use tlscap::aead::{open, seal};
use tlscap::kdf::{hkdf_expand, hmac_once, HashAlgorithm};
use tlscap::tls12;
use tlscap::tls13::{u64_to_be_bytes, AeadAlgorithm, RecordKeys, Tls13Error};

fn unhex(s: &str) -> Vec<u8> {
    hex::decode(s).unwrap()
}

#[test]
fn gcm_of_a_zero_block_is_the_published_one() {
    let sealed = seal(
        AeadAlgorithm::Aes128Gcm,
        &[0u8; 16],
        &[0u8; 12],
        &[],
        &[0u8; 16],
    );
    assert_eq!(
        hex::encode(&sealed),
        "0388dace60b6a392f328c2b971b2fe78ab6e47d42cec13bdf53a67b21257bddf"
    );
    let sealed = seal(
        AeadAlgorithm::Aes256Gcm,
        &[0u8; 32],
        &[0u8; 12],
        &[],
        &[0u8; 16],
    );
    assert_eq!(
        hex::encode(&sealed),
        "cea7403d4d606b6e074ec5d3baf39d18d0d1c8a799996bf0265b98b5d48ab919"
    );
}

#[test]
fn chacha20poly1305_of_the_sunscreen_text_is_the_published_one() {
    let key: Vec<u8> = (0x80..=0x9f).collect();
    let nonce = [7, 0, 0, 0, 0x40, 0x41, 0x42, 0x43, 0x44, 0x45, 0x46, 0x47];
    let aad = unhex("50515253c0c1c2c3c4c5c6c7");
    let text = b"Ladies and Gentlemen of the class of '99: If I could offer you only one tip for the future, sunscreen would be it.";
    let sealed = seal(AeadAlgorithm::ChaCha20Poly1305, &key, &nonce, &aad, text);
    assert!(hex::encode(&sealed).starts_with("d31a8d34648e60db7b86afbc53ef7ec2"));
    assert!(hex::encode(&sealed).ends_with("1ae10b594f09e26a7e902ecbd0600691"));
    assert_eq!(
        open(AeadAlgorithm::ChaCha20Poly1305, &key, &nonce, &aad, &sealed),
        Some(text.to_vec())
    );
}

#[test]
fn a_changed_byte_anywhere_does_not_open() {
    for algorithm in [
        AeadAlgorithm::Aes128Gcm,
        AeadAlgorithm::Aes256Gcm,
        AeadAlgorithm::ChaCha20Poly1305,
    ] {
        let key = vec![9u8; algorithm.key_len()];
        let sealed = seal(algorithm, &key, &[1u8; 12], b"header", b"message");
        assert_eq!(sealed.len(), 7 + 16);
        assert_eq!(
            open(algorithm, &key, &[1u8; 12], b"header", &sealed),
            Some(b"message".to_vec())
        );
        for i in 0..sealed.len() {
            let mut bad = sealed.clone();
            bad[i] ^= 1;
            assert_eq!(open(algorithm, &key, &[1u8; 12], b"header", &bad), None);
        }
        assert_eq!(open(algorithm, &key, &[2u8; 12], b"header", &sealed), None);
        assert_eq!(open(algorithm, &key, &[1u8; 12], b"Header", &sealed), None);
        assert_eq!(open(algorithm, &key, &[1u8; 12], b"header", &sealed[..15]), None);
    }
}

#[test]
fn hmac_and_hkdf_give_the_published_values() {
    let code = hmac_once(
        HashAlgorithm::Sha256,
        b"Jefe",
        b"what do ya want for nothing?",
    );
    assert_eq!(
        hex::encode(code),
        "5bdcc146bf60754e6a042426089575c75a003f089d2739839dec58b964ec3843"
    );
    let code = hmac_once(
        HashAlgorithm::Sha384,
        b"Jefe",
        b"what do ya want for nothing?",
    );
    assert_eq!(
        hex::encode(code),
        "af45d2e376484031617f78d2b58a6b1b9c7ef464f5a01b47e42ec3736322445e8e2240ca5e69e2c78b3239ecfab21649"
    );
    let prk = unhex("077709362c2e32df0ddc3f0dc47bba6390b6c73bb50f9c3122ec844ad7c2b3e5");
    let okm = hkdf_expand(
        HashAlgorithm::Sha256,
        &prk,
        &unhex("f0f1f2f3f4f5f6f7f8f9"),
        42,
    )
    .unwrap();
    assert_eq!(
        hex::encode(okm),
        "3cb25f25faacd57a90434f64d0362f2a2d2d0a90cf1a5a4c5db02d56ecc4c5bf34007208d5b887185865"
    );
    assert!(hkdf_expand(HashAlgorithm::Sha384, &prk, &[], 16).is_none());
    assert!(hkdf_expand(HashAlgorithm::Sha384, &[1u8; 48], &[], 16).is_some());
}

#[test]
fn a_published_handshake_secret_gives_the_published_keys() {
    let secret = unhex("b67b7d690cc16c4e75e54213cb2d37b4e9c912bcded9105d42befd59d391ad38");
    let keys = RecordKeys::derive(&secret, AeadAlgorithm::Aes128Gcm).unwrap();
    assert_eq!(hex::encode(keys.key()), "3fce516009c21727d0f2e4e86ee403bc");
    assert_eq!(hex::encode(keys.iv()), "5d313eb2671276ee13000b30");
}

#[test]
fn the_prf_gives_the_published_values() {
    let secret = unhex("9bbe436ba940f017b17652849a71db35");
    let mut seed = b"test label".to_vec();
    seed.extend(unhex("a0ba9f936cda311827a6f796ffd5198c"));
    let out = tls12::prf(&secret, &seed, 100, HashAlgorithm::Sha256);
    assert_eq!(
        hex::encode(out),
        "e3f229ba727be17b8d122620557cd453c2aab21d07c3d495329b52d4e61edb5a6b301791e90d35c9c9a46b4e14baf9af0fa022f7077def17abfd3797c0564bab4fbc91666e9def9b97fce34f796789baa48082d122ee42c5a72e5a5110fff70187347b66"
    );
    assert!(tls12::prf(&secret, &seed, 0, HashAlgorithm::Sha384).is_empty());
}

#[test]
fn each_tls13_error_has_its_input_and_its_message() {
    let keys = RecordKeys::derive(&[3u8; 32], AeadAlgorithm::Aes128Gcm).unwrap();
    let aad = tlscap::tls13::record_aad(40);
    assert_eq!(
        keys.decrypt_record(0, &aad, &[0u8; 15]),
        Err(Tls13Error::RecordTooShort)
    );
    assert_eq!(
        keys.decrypt_record(0, &aad, &[0u8; 16]),
        Err(Tls13Error::Aead)
    );
    let record = keys.encrypt_record(0, &aad, &[], 0, 23);
    assert_eq!(
        keys.decrypt_record(0, &aad, &record),
        Err(Tls13Error::NoContentType)
    );
    assert_eq!(
        Tls13Error::RecordTooShort.message(),
        "record too short to contain an auth tag"
    );
    assert_eq!(
        Tls13Error::Aead.message(),
        tls12::Tls12Error::Aead.message()
    );
    assert!(Tls13Error::NoContentType
        .message()
        .contains("no content-type byte"));
}

#[test]
fn content_whose_type_is_zero_loses_its_own_zeros_too() {
    let keys = RecordKeys::derive(&[3u8; 32], AeadAlgorithm::Aes128Gcm).unwrap();
    let aad = tlscap::tls13::record_aad(0);
    let record = keys.encrypt_record(0, &aad, &[5, 0x17, 0, 0], 0, 2);
    assert_eq!(
        keys.decrypt_record(0, &aad, &record),
        Ok((vec![5], 0x17))
    );
}

#[test]
fn numbers_are_written_high_byte_first() {
    assert_eq!(
        u64_to_be_bytes(0x0102_0304_0506_0708),
        [1, 2, 3, 4, 5, 6, 7, 8]
    );
    assert_eq!(
        tlscap::tls13::record_aad(0x1_0203),
        [0x17, 3, 3, 2, 3],
        "only the low sixteen bits of the length are kept"
    );
}

#[test]
fn tls12_refuses_what_it_does_not_know() {
    let keys = tls12::RecordKeys::derive(
        &[1u8; 48],
        &[2u8; 32],
        &[3u8; 32],
        AeadAlgorithm::ChaCha20Poly1305,
        true,
    );
    assert_eq!(
        keys.decrypt_record(0, 0x17, &[0; 8], &[0u8; 64]),
        Err(tls12::Tls12Error::Aead)
    );
}
