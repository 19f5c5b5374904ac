use tlscap::tls12::{server_random_from_server_hello, RecordKeys};
use tlscap::tls13::AeadAlgorithm;


#[test]
fn tls12_round_trip_aes128gcm() {
    let master_secret = [0x11u8; 48];
    let client_random = [0x22u8; 32];
    let server_random = [0x33u8; 32];
    let client_keys = RecordKeys::derive(
        &master_secret,
        &client_random,
        &server_random,
        AeadAlgorithm::Aes128Gcm,
        true,
    );

    let explicit_nonce = [1, 2, 3, 4, 5, 6, 7, 8];
    let plaintext = b"HEARTBEAT_REQUEST body bytes here";
    let ciphertext = client_keys.encrypt_record(0, 0x17, &explicit_nonce, plaintext);
    assert_eq!(ciphertext.len(), plaintext.len() + 16);

    let decrypted = client_keys
        .decrypt_record(0, 0x17, &explicit_nonce, &ciphertext)
        .unwrap();
    assert_eq!(decrypted, plaintext);
}

#[test]
fn client_and_server_derive_different_keys() {
    let master_secret = [0x44u8; 48];
    let client_random = [0x55u8; 32];
    let server_random = [0x66u8; 32];
    let client_keys = RecordKeys::derive(
        &master_secret,
        &client_random,
        &server_random,
        AeadAlgorithm::Aes256Gcm,
        true,
    );
    let server_keys = RecordKeys::derive(
        &master_secret,
        &client_random,
        &server_random,
        AeadAlgorithm::Aes256Gcm,
        false,
    );

    let explicit_nonce = [0u8; 8];
    let plaintext = b"only the right side should decrypt this";
    let ciphertext = client_keys.encrypt_record(0, 0x17, &explicit_nonce, plaintext);

    assert!(
        server_keys
            .decrypt_record(0, 0x17, &explicit_nonce, &ciphertext)
            .is_err()
    );
}

#[test]
fn wrong_explicit_nonce_fails_to_decrypt() {
    let master_secret = [0x77u8; 48];
    let client_random = [0x88u8; 32];
    let server_random = [0x99u8; 32];
    let keys = RecordKeys::derive(
        &master_secret,
        &client_random,
        &server_random,
        AeadAlgorithm::Aes128Gcm,
        true,
    );

    let ciphertext = keys.encrypt_record(0, 0x17, &[1; 8], b"payload");
    let result = keys.decrypt_record(0, 0x17, &[2; 8], &ciphertext);
    assert!(
        result.is_err(),
        "decrypting with the wrong explicit nonce must fail, not silently succeed"
    );
}

#[test]
fn server_hello_random_extraction() {
    let mut body = vec![0x02, 0x00, 0x00, 0x00];
    body.extend_from_slice(&[0x03, 0x03]);
    let random: Vec<u8> = (100..132).collect();
    body.extend_from_slice(&random);

    let extracted = server_random_from_server_hello(&body).unwrap();
    assert_eq!(&extracted[..], &random[..]);
}

#[test]
fn non_server_hello_returns_none() {
    let body = vec![0x01, 0x00, 0x00, 0x00];
    assert!(server_random_from_server_hello(&body).is_none());
}
