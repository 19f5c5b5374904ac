use tlscap::connection::{ConnectionState, Generation, ProcessError, RecordVersion};
use tlscap::keylog::Keylog;
use tlscap::tls12;
use tlscap::tls13::{record_aad, AeadAlgorithm, RecordKeys};

const RANDOM: [u8; 32] = [0xab; 32];

fn line(label: &str, secret: &[u8]) -> String {
    format!("{label} {} {}\n", hex::encode(RANDOM), hex::encode(secret))
}

fn outcome(keylog: &str, server_random: Option<[u8; 32]>, body: &[u8]) -> ProcessError {
    let keylog = Keylog::parse(keylog);
    let mut conn = ConnectionState::new(RANDOM.to_vec());
    if let Some(random) = server_random {
        assert!(conn.set_server_random(random));
        assert!(!conn.set_server_random([0; 32]), "the first one stays");
    }
    match conn.decrypt(&keylog, true, 0x17, body) {
        Ok(_) => panic!("this record cannot be opened"),
        Err(e) => e,
    }
}

#[test]
fn a_record_is_given_up_only_once_every_key_was_there() {
    let both = line("CLIENT_HANDSHAKE_TRAFFIC_SECRET", &[1; 32])
        + &line("CLIENT_TRAFFIC_SECRET_0", &[2; 32]);
    assert_eq!(outcome(&both, None, &[0; 40]), ProcessError::AuthFailed);
    let one = line("CLIENT_TRAFFIC_SECRET_0", &[2; 32]);
    assert_eq!(outcome(&one, None, &[0; 40]), ProcessError::NoKey);
    let other_direction = line("SERVER_HANDSHAKE_TRAFFIC_SECRET", &[1; 32])
        + &line("SERVER_TRAFFIC_SECRET_0", &[2; 32]);
    assert_eq!(
        outcome(&other_direction, None, &[0; 40]),
        ProcessError::NoKey
    );
    assert_eq!(outcome(&one, None, &[0; 15]), ProcessError::AuthFailed);
    assert_eq!(outcome("", None, &[0; 15]), ProcessError::NoKey);
}

#[test]
fn a_secret_too_short_for_any_hash_gives_no_key() {
    let short = line("CLIENT_HANDSHAKE_TRAFFIC_SECRET", &[1; 31])
        + &line("CLIENT_TRAFFIC_SECRET_0", &[2; 31]);
    assert_eq!(outcome(&short, None, &[0; 40]), ProcessError::NoKey);
}

#[test]
fn a_master_secret_with_both_randoms_is_a_key() {
    let master = line("CLIENT_RANDOM", &[5; 48]);
    assert_eq!(outcome(&master, None, &[0; 40]), ProcessError::NoKey);
    assert_eq!(
        outcome(&master, Some([7; 32]), &[0; 40]),
        ProcessError::AuthFailed
    );
    assert_eq!(
        outcome(&master, Some([7; 32]), &[0; 23]),
        ProcessError::AuthFailed
    );
}

#[test]
fn every_tls13_algorithm_is_found_by_trying() {
    for (algorithm, secret) in [
        (AeadAlgorithm::Aes128Gcm, vec![9u8; 32]),
        (AeadAlgorithm::Aes256Gcm, vec![9u8; 48]),
        (AeadAlgorithm::ChaCha20Poly1305, vec![9u8; 32]),
    ] {
        let keylog = Keylog::parse(&line("SERVER_TRAFFIC_SECRET_0", &secret));
        let keys = RecordKeys::derive(&secret, algorithm).unwrap();
        let mut conn = ConnectionState::new(RANDOM.to_vec());
        for seq in 0..3u64 {
            let record = keys.encrypt_record(seq, &record_aad(5 + 17 + 4), b"hello", 0x17, 4);
            let opened = conn.decrypt(&keylog, false, 0x17, &record).ok().unwrap();
            assert_eq!(opened.plaintext, b"hello");
            assert_eq!(opened.algorithm, algorithm);
            assert_eq!(
                opened.version,
                RecordVersion::Tls13 {
                    generation: Generation::Application
                }
            );
        }
    }
}

#[test]
fn tls12_counts_records_of_a_direction_together_and_each_direction_apart() {
    let keylog = Keylog::parse(&line("CLIENT_RANDOM", &[5; 48]));
    let mut conn = ConnectionState::new(RANDOM.to_vec());
    conn.set_server_random([7; 32]);
    for algorithm in [AeadAlgorithm::Aes256Gcm] {
        let client = tls12::RecordKeys::derive(&[5; 48], &RANDOM, &[7; 32], algorithm, true);
        let server = tls12::RecordKeys::derive(&[5; 48], &RANDOM, &[7; 32], algorithm, false);
        for (seq, content_type) in [(0u64, 0x16u8), (1, 0x17), (2, 0x15)] {
            for (keys, c2s) in [(&client, true), (&server, false)] {
                let nonce = [seq as u8; 8];
                let mut body = nonce.to_vec();
                body.extend(keys.encrypt_record(seq, content_type, &nonce, b"text"));
                let opened = conn.decrypt(&keylog, c2s, content_type, &body).ok().unwrap();
                assert_eq!(opened.plaintext, b"text");
                assert_eq!(opened.content_type, content_type);
                assert_eq!(
                    opened.version,
                    RecordVersion::Tls12 {
                        explicit_nonce: nonce
                    }
                );
            }
        }
    }
    assert_eq!(conn.client_random(), &RANDOM[..]);
}

#[test]
fn a_record_that_fails_moves_no_sequence_number() {
    let secret = [4u8; 32];
    let keylog = Keylog::parse(&line("CLIENT_TRAFFIC_SECRET_0", &secret));
    let keys = RecordKeys::derive(&secret, AeadAlgorithm::Aes128Gcm).unwrap();
    let mut conn = ConnectionState::new(RANDOM.to_vec());
    assert!(conn.decrypt(&keylog, true, 0x17, &[0; 40]).is_err());
    let record = keys.encrypt_record(0, &record_aad(3 + 17), b"abc", 0x17, 0);
    assert!(conn.decrypt(&keylog, true, 0x17, &record).is_ok());
    assert!(
        conn.decrypt(&keylog, true, 0x17, &record).is_err(),
        "the same record again has the wrong number"
    );
}

#[test]
fn a_record_that_fails_leaves_no_trace() {
    let (handshake, application) = ([3u8; 32], [4u8; 32]);
    let keylog = Keylog::parse(
        &(line("CLIENT_HANDSHAKE_TRAFFIC_SECRET", &handshake)
            + &line("CLIENT_TRAFFIC_SECRET_0", &application)),
    );
    let mut records = Vec::new();
    for (secret, algorithm) in [
        (handshake, AeadAlgorithm::ChaCha20Poly1305),
        (application, AeadAlgorithm::Aes128Gcm),
    ] {
        let keys = RecordKeys::derive(&secret, algorithm).unwrap();
        for seq in 0..3u64 {
            records.push(keys.encrypt_record(seq, &record_aad(4 + 17), b"text", 0x17, 0));
        }
    }
    let mut plain = ConnectionState::new(RANDOM.to_vec());
    let mut disturbed = ConnectionState::new(RANDOM.to_vec());
    for record in &records {
        for junk in [&[0u8; 40][..], &[0u8; 3][..], &[]] {
            assert!(disturbed.decrypt(&keylog, true, 0x17, junk).is_err());
        }
        let a = plain.decrypt(&keylog, true, 0x17, record).ok().unwrap();
        let b = disturbed.decrypt(&keylog, true, 0x17, record).ok().unwrap();
        assert_eq!(a.plaintext, b.plaintext);
        assert_eq!((a.version, a.algorithm), (b.version, b.algorithm));
    }
}

#[test]
fn a_plaintext_is_shorter_than_its_body_by_what_protects_it() {
    let keylog = Keylog::parse(
        &(line("CLIENT_RANDOM", &[5; 48]) + &line("SERVER_TRAFFIC_SECRET_0", &[6; 32])),
    );
    let mut conn = ConnectionState::new(RANDOM.to_vec());
    conn.set_server_random([7; 32]);
    for (seq, len) in [0usize, 1, 100].into_iter().enumerate() {
        let text = vec![0u8; len];
        let keys =
            tls12::RecordKeys::derive(&[5; 48], &RANDOM, &[7; 32], AeadAlgorithm::Aes128Gcm, true);
        let mut body = vec![9u8; 8];
        body.extend(keys.encrypt_record(seq as u64, 0x17, &[9; 8], &text));
        let opened = conn.decrypt(&keylog, true, 0x17, &body).ok().unwrap();
        assert_eq!(opened.plaintext.len() + 24, body.len());

        let keys = RecordKeys::derive(&[6; 32], AeadAlgorithm::Aes128Gcm).unwrap();
        let body = keys.encrypt_record(seq as u64, &record_aad(len + 17 + seq), &text, 0x17, seq);
        let opened = conn.decrypt(&keylog, false, 0x17, &body).ok().unwrap();
        assert_eq!(opened.plaintext.len() + 17 + seq, body.len());
    }
}

#[test]
fn the_first_server_random_stays_across_records() {
    let keylog = Keylog::parse(&line("CLIENT_RANDOM", &[5; 48]));
    let mut conn = ConnectionState::new(RANDOM.to_vec());
    assert!(conn.set_server_random([7; 32]));
    let keys =
        tls12::RecordKeys::derive(&[5; 48], &RANDOM, &[7; 32], AeadAlgorithm::Aes128Gcm, true);
    for seq in 0..3u64 {
        assert!(!conn.set_server_random([8; 32]));
        assert!(!conn.set_server_random([7; 32]));
        let mut body = vec![9u8; 8];
        body.extend(keys.encrypt_record(seq, 0x17, &[9; 8], b"text"));
        assert!(conn.decrypt(&keylog, true, 0x17, &[0; 40]).is_err());
        assert_eq!(
            conn.decrypt(&keylog, true, 0x17, &body).ok().unwrap().plaintext,
            b"text"
        );
    }
}
