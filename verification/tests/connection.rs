use tlscap::connection::{
    client_random_from_client_hello, ConnectionState, Generation, ProcessError, RecordVersion,
};
use tlscap::keylog::Keylog;
use tlscap::tls13::{record_aad, AeadAlgorithm, RecordKeys};


#[test]
fn decrypts_tls13_application_traffic() {
    let random_hex = "aa".repeat(32);
    let secret_hex = "bb".repeat(32);
    let mut kl_text = format!("CLIENT_TRAFFIC_SECRET_0 {random_hex} {secret_hex}\r\n");
    kl_text += &format!(
        "CLIENT_HANDSHAKE_TRAFFIC_SECRET {random_hex} {}\r\n",
        "cc".repeat(32)
    );
    let kl = Keylog::parse(&kl_text);

    let client_random = hex::decode(&random_hex).unwrap();
    let secret = hex::decode(&secret_hex).unwrap();
    let keys = RecordKeys::derive(&secret, AeadAlgorithm::Aes128Gcm).unwrap();
    let content = b"HEARTBEAT_RESPONSE-ish body";
    let aad = record_aad(content.len() + 17);
    let ciphertext = keys.encrypt_record(0, &aad, content, 0x17, 0);

    let mut conn = ConnectionState::new(client_random.clone());
    let decrypted = match conn.decrypt(&kl, true, 0x17, &ciphertext) {
        Ok(v) => v,
        Err(ProcessError::NoKey) => panic!("expected a usable key"),
        Err(ProcessError::AuthFailed) => panic!("expected successful decryption"),
    };
    assert_eq!(decrypted.plaintext, content);
    assert_eq!(decrypted.content_type, 0x17);
    assert_eq!(
        decrypted.version,
        RecordVersion::Tls13 {
            generation: Generation::Application
        }
    );
    assert_eq!(decrypted.algorithm, AeadAlgorithm::Aes128Gcm);
}

#[test]
fn sequence_numbers_advance_independently_per_generation() {
    let random_hex = "11".repeat(32);
    let hs_secret = "22".repeat(32);
    let app_secret = "33".repeat(32);
    let kl = Keylog::parse(&format!(
        "CLIENT_HANDSHAKE_TRAFFIC_SECRET {random_hex} {hs_secret}\r\nCLIENT_TRAFFIC_SECRET_0 {random_hex} {app_secret}\r\n"
    ));
    let client_random = hex::decode(&random_hex).unwrap();

    let hs_keys =
        RecordKeys::derive(&hex::decode(&hs_secret).unwrap(), AeadAlgorithm::Aes128Gcm)
            .unwrap();
    let app_keys =
        RecordKeys::derive(&hex::decode(&app_secret).unwrap(), AeadAlgorithm::Aes128Gcm)
            .unwrap();

    let hs_ct = hs_keys.encrypt_record(0, &record_aad(5 + 17), b"fake ", 0x16, 0);
    let app_ct0 = app_keys.encrypt_record(0, &record_aad(5 + 17), b"app-0", 0x17, 0);
    let app_ct1 = app_keys.encrypt_record(1, &record_aad(5 + 17), b"app-1", 0x17, 0);

    let mut conn = ConnectionState::new(client_random);
    let d0 = conn.decrypt(&kl, true, 0x17, &hs_ct).ok().unwrap();
    assert_eq!(
        d0.version,
        RecordVersion::Tls13 {
            generation: Generation::Handshake
        }
    );
    let d1 = conn.decrypt(&kl, true, 0x17, &app_ct0).ok().unwrap();
    assert_eq!(
        d1.version,
        RecordVersion::Tls13 {
            generation: Generation::Application
        }
    );
    assert_eq!(d1.plaintext, b"app-0");
    let d2 = conn.decrypt(&kl, true, 0x17, &app_ct1).ok().unwrap();
    assert_eq!(d2.plaintext, b"app-1");
}

#[test]
fn tls12_decrypts_application_traffic() {
    let random_hex = "44".repeat(32);
    let master_secret_hex = "55".repeat(48);
    let kl = Keylog::parse(&format!(
        "CLIENT_RANDOM {random_hex} {master_secret_hex}\r\n"
    ));

    let client_random_vec = hex::decode(&random_hex).unwrap();
    let client_random: [u8; 32] = client_random_vec.clone().try_into().unwrap();
    let server_random = [0x66u8; 32];
    let master_secret = hex::decode(&master_secret_hex).unwrap();

    let keys = tlscap::tls12::RecordKeys::derive(
        &master_secret,
        &client_random,
        &server_random,
        AeadAlgorithm::Aes128Gcm,
        true,
    );
    let explicit_nonce = [7u8; 8];
    let content = b"a tls 1.2 application data record";
    let ciphertext_body = {
        let mut body = explicit_nonce.to_vec();
        body.extend_from_slice(&keys.encrypt_record(0, 0x17, &explicit_nonce, content));
        body
    };

    let mut conn = ConnectionState::new(client_random_vec);
    conn.set_server_random(server_random);
    let decrypted = match conn.decrypt(&kl, true, 0x17, &ciphertext_body) {
        Ok(v) => v,
        Err(ProcessError::NoKey) => panic!("expected a usable TLS 1.2 key"),
        Err(ProcessError::AuthFailed) => panic!("expected successful decryption"),
    };
    assert_eq!(decrypted.plaintext, content);
    assert_eq!(decrypted.version, RecordVersion::Tls12 { explicit_nonce });
}

#[test]
fn tls12_without_server_random_fails_closed() {
    let random_hex = "77".repeat(32);
    let kl = Keylog::parse(&format!(
        "CLIENT_RANDOM {random_hex} {}\r\n",
        "88".repeat(48)
    ));
    let mut conn = ConnectionState::new(hex::decode(&random_hex).unwrap());
    match conn.decrypt(&kl, true, 0x17, &[0u8; 30]) {
        Err(ProcessError::NoKey) => {}
        _ => panic!("expected NoKey without server_random, not a guess"),
    }
}

#[test]
fn client_hello_random_extraction() {
    let mut body = vec![0x01, 0x00, 0x00, 0x00];
    body.extend_from_slice(&[0x03, 0x03]);
    let random: Vec<u8> = (0..32).collect();
    body.extend_from_slice(&random);
    body.extend_from_slice(&[0xAA; 10]);

    let extracted = client_random_from_client_hello(&body).unwrap();
    assert_eq!(&extracted[..], &random[..]);
}

#[test]
fn non_client_hello_returns_none() {
    let body = vec![0x02, 0x00, 0x00, 0x00];
    assert!(client_random_from_client_hello(&body).is_none());
}

#[test]
fn missing_secret_returns_no_key() {
    let kl = Keylog::parse("");
    let mut conn = ConnectionState::new(vec![0xAA; 32]);
    match conn.decrypt(&kl, true, 0x17, &[0u8; 20]) {
        Err(ProcessError::NoKey) => {}
        _ => panic!("expected NoKey when the keylog has nothing for this client_random"),
    }
}
