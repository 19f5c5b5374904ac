
use std::io::{Cursor, Write};
use std::sync::{Arc, Mutex};

use rcgen::{CertifiedKey, generate_simple_self_signed};
use rustls::pki_types::{PrivatePkcs8KeyDer, ServerName};
use rustls::{ClientConfig, ClientConnection, RootCertStore, ServerConfig, ServerConnection};

use tlscap::connection::ConnectionState;
use tlscap::keylog::Keylog;

#[derive(Debug, Default)]
struct CapturingKeyLog(Mutex<String>);

impl rustls::KeyLog for CapturingKeyLog {
    fn log(&self, label: &str, client_random: &[u8], secret: &[u8]) {
        let mut buf = self.0.lock().unwrap();
        buf.push_str(&format!(
            "{label} {} {}\r\n",
            hex::encode(client_random),
            hex::encode(secret)
        ));
    }
}

fn run_handshake_and_send(client_payload: &[u8]) -> (String, Vec<u8>) {
    let CertifiedKey { cert, signing_key } =
        generate_simple_self_signed(vec!["localhost".to_string()]).unwrap();
    let cert_der = cert.der().clone();
    let key_der = PrivatePkcs8KeyDer::from(signing_key.serialize_der());

    let server_keylog = Arc::new(CapturingKeyLog::default());
    let client_keylog = Arc::new(CapturingKeyLog::default());

    let mut server_config = ServerConfig::builder()
        .with_no_client_auth()
        .with_single_cert(vec![cert_der.clone()], key_der.into())
        .unwrap();
    server_config.key_log = server_keylog.clone();

    let mut root_store = RootCertStore::empty();
    root_store.add(cert_der).unwrap();
    let mut client_config = ClientConfig::builder()
        .with_root_certificates(root_store)
        .with_no_client_auth();
    client_config.key_log = client_keylog.clone();

    let mut server_conn = ServerConnection::new(Arc::new(server_config)).unwrap();
    let mut client_conn = ClientConnection::new(
        Arc::new(client_config),
        ServerName::try_from("localhost").unwrap(),
    )
    .unwrap();

    let mut c2s = Vec::new();
    let mut s2c = Vec::new();
    for _ in 0..10 {
        if !client_conn.is_handshaking() && !server_conn.is_handshaking() {
            break;
        }
        c2s.clear();
        client_conn.write_tls(&mut c2s).unwrap();
        if !c2s.is_empty() {
            server_conn.read_tls(&mut Cursor::new(&c2s)).unwrap();
            server_conn.process_new_packets().unwrap();
        }
        s2c.clear();
        server_conn.write_tls(&mut s2c).unwrap();
        if !s2c.is_empty() {
            client_conn.read_tls(&mut Cursor::new(&s2c)).unwrap();
            client_conn.process_new_packets().unwrap();
        }
    }
    assert!(
        !client_conn.is_handshaking() && !server_conn.is_handshaking(),
        "handshake did not complete"
    );

    client_conn.writer().write_all(client_payload).unwrap();
    let mut wire_ciphertext = Vec::new();
    client_conn.write_tls(&mut wire_ciphertext).unwrap();

    let keylog_text = format!(
        "{}{}",
        client_keylog.0.lock().unwrap(),
        server_keylog.0.lock().unwrap()
    );
    (keylog_text, wire_ciphertext)
}

#[test]
fn tlscap_decrypts_real_rustls_produced_tls13_ciphertext() {
    let payload = b"HEARTBEAT_REQUEST-shaped application data, produced entirely by rustls";
    let (keylog_text, wire_ciphertext) = run_handshake_and_send(payload);

    assert!(
        wire_ciphertext.len() > 5,
        "expected at least one TLS record"
    );
    let outer_content_type = wire_ciphertext[0];
    assert_eq!(
        outer_content_type, 0x17,
        "TLS 1.3 always uses opaque outer type application_data once encrypted"
    );
    let body_len = u16::from_be_bytes([wire_ciphertext[3], wire_ciphertext[4]]) as usize;
    let body = &wire_ciphertext[5..5 + body_len];

    let keylog = Keylog::parse(&keylog_text);

    let client_random_hex = keylog_text
        .lines()
        .next()
        .unwrap()
        .split_whitespace()
        .nth(1)
        .unwrap();
    let client_random = hex::decode(client_random_hex).unwrap();

    let mut conn = ConnectionState::new(client_random);
    let decrypted = conn
        .decrypt(&keylog, true, outer_content_type, body)
        .unwrap_or_else(|_| panic!("tlscap failed to decrypt genuine rustls-produced ciphertext"));

    assert_eq!(
        decrypted.plaintext, payload,
        "tlscap's decrypted plaintext must exactly match what rustls originally encrypted"
    );
    assert_eq!(decrypted.content_type, 0x17);
}
