use tlscap::tls13::{record_aad, AeadAlgorithm, RecordKeys};


#[test]
fn tls13_round_trip_aes128gcm() {
    let secret = [0x42u8; 32];
    let keys = RecordKeys::derive(&secret, AeadAlgorithm::Aes128Gcm).unwrap();
    let content = b"HEARTBEAT_REQUEST body bytes go here";
    let content_type = 0x17;

    let ciphertext =
        keys.encrypt_record(0, &record_aad(content.len() + 17), content, content_type, 0);
    assert_eq!(ciphertext.len(), content.len() + 17);

    let (decrypted, ct) = keys
        .decrypt_record(0, &record_aad(ciphertext.len()), &ciphertext)
        .unwrap();
    assert_eq!(decrypted, content);
    assert_eq!(ct, content_type);
}

#[test]
fn round_trip_chacha20poly1305_nonzero_sequence() {
    let secret = [0x99u8; 32];
    let keys = RecordKeys::derive(&secret, AeadAlgorithm::ChaCha20Poly1305).unwrap();
    let content = b"some later record, not the first";
    let seq = 42u64;

    let ciphertext =
        keys.encrypt_record(seq, &record_aad(content.len() + 17), content, 0x17, 0);
    let (decrypted, ct) = keys
        .decrypt_record(seq, &record_aad(ciphertext.len()), &ciphertext)
        .unwrap();
    assert_eq!(decrypted, content);
    assert_eq!(ct, 0x17);
}

#[test]
fn wrong_sequence_number_fails_to_decrypt() {
    let secret = [0x11u8; 48]; // Aes256Gcm's suite uses SHA-384 (48-byte PRK)
    let keys = RecordKeys::derive(&secret, AeadAlgorithm::Aes256Gcm).unwrap();
    let content = b"payload";
    let ciphertext = keys.encrypt_record(5, &record_aad(content.len() + 17), content, 0x17, 0);

    let result = keys.decrypt_record(6, &record_aad(ciphertext.len()), &ciphertext);
    assert!(
        result.is_err(),
        "decrypting with the wrong sequence number (wrong nonce) must fail, not silently succeed"
    );
}

#[test]
fn key_and_iv_lengths_match_algorithm() {
    let secret = [0x55u8; 48];
    let k128 = RecordKeys::derive(&secret, AeadAlgorithm::Aes128Gcm).unwrap();
    assert_eq!(k128.key().len(), 16);
    let k256 = RecordKeys::derive(&secret, AeadAlgorithm::Aes256Gcm).unwrap();
    assert_eq!(k256.key().len(), 32);
    let kchacha = RecordKeys::derive(&secret, AeadAlgorithm::ChaCha20Poly1305).unwrap();
    assert_eq!(kchacha.key().len(), 32);
}

#[test]
fn derive_returns_none_instead_of_panicking_on_a_too_short_secret() {
    let secret_32 = [0x33u8; 32];
    assert!(RecordKeys::derive(&secret_32, AeadAlgorithm::Aes256Gcm).is_none());
    assert!(RecordKeys::derive(&secret_32, AeadAlgorithm::Aes128Gcm).is_some());
    assert!(RecordKeys::derive(&secret_32, AeadAlgorithm::ChaCha20Poly1305).is_some());
}

#[test]
fn padding_is_fully_stripped_from_plaintext() {
    let secret = [0x77u8; 32];
    let keys = RecordKeys::derive(&secret, AeadAlgorithm::Aes128Gcm).unwrap();
    let content = b"short body, padded out by the original sender";
    let padding_len = 24;
    let aad = record_aad(content.len() + 1 + padding_len + 16);
    let ciphertext = keys.encrypt_record(0, &aad, content, 0x17, padding_len);

    let (decrypted, ct) = keys
        .decrypt_record(0, &record_aad(ciphertext.len()), &ciphertext)
        .unwrap();
    assert_eq!(
        decrypted, content,
        "padding must be fully stripped from the returned plaintext"
    );
    assert_eq!(ct, 0x17);
}
