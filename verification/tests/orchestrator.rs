use std::ops::{Deref, DerefMut};
use tlscap::keylog::Keylog;
use tlscap::keylog_source::KeylogSource;
use tlscap::lua::tree::{FieldValue, TreeItem};
use tlscap::lua::FrameFields;
use tlscap::net::IpAddr;
use tlscap::orchestrator::connections::{conn_key, Endpoint};
use tlscap::orchestrator::{
    Action, DecodedMessage, DissectOutcome, Event, Orchestrator, OrchestratorConfig, PacketEvent,
};
use tlscap::pcap_input::{TcpFlags, TcpFrame};
use tlscap::time::Duration;
use tlscap::tls13::{record_aad, AeadAlgorithm, RecordKeys};


const CLIENT: (IpAddr, u16) = (IpAddr::V4(0x0a000001), 51234);
const SERVER: (IpAddr, u16) = (IpAddr::V4(0x0a000002), 9410);


fn client_hello_record(client_random: [u8; 32]) -> Vec<u8> {
    let mut body = vec![0x01, 0x00, 0x00, 0x00]; // msg_type=ClientHello
    body.extend_from_slice(&[0x03, 0x03]); // legacy_version
    body.extend_from_slice(&client_random);
    body.extend_from_slice(&[0xAA; 8]); // rest of the ClientHello, irrelevant to parsing
    let mut record = vec![0x16, 0x03, 0x03];
    record.extend_from_slice(&(body.len() as u16).to_be_bytes());
    record.extend_from_slice(&body);
    record
}

fn server_hello_record(server_random: [u8; 32]) -> Vec<u8> {
    let mut body = vec![0x02, 0x00, 0x00, 0x00]; // msg_type=ServerHello
    body.extend_from_slice(&[0x03, 0x03]); // legacy_version
    body.extend_from_slice(&server_random);
    body.extend_from_slice(&[0xBB; 8]); // rest of the ServerHello, irrelevant to parsing
    let mut record = vec![0x16, 0x03, 0x03];
    record.extend_from_slice(&(body.len() as u16).to_be_bytes());
    record.extend_from_slice(&body);
    record
}

fn change_cipher_spec_record() -> Vec<u8> {
    vec![0x14, 0x03, 0x03, 0x00, 0x01, 0x01]
}

fn app_data_record(keys: &RecordKeys, seq: u64, content: &[u8]) -> Vec<u8> {
    let ciphertext =
        keys.encrypt_record(seq, &record_aad(content.len() + 17), content, 0x17, 0);
    let mut record = vec![0x17, 0x03, 0x03];
    record.extend_from_slice(&(ciphertext.len() as u16).to_be_bytes());
    record.extend_from_slice(&ciphertext);
    record
}

fn tcp_frame(
    src: (IpAddr, u16),
    dst: (IpAddr, u16),
    seq: u32,
    flags: TcpFlags,
    payload_range: std::ops::Range<usize>,
) -> TcpFrame {
    TcpFrame {
        src_ip: src.0,
        dst_ip: dst.0,
        src_port: src.1,
        dst_port: dst.1,
        seq,
        ack_number: 0,
        flags,
        payload_range,
    }
}

struct Rig {
    orch: Orchestrator,
    dissector: fn(u16, &[u8]) -> DissectOutcome,
}

impl Deref for Rig {
    type Target = Orchestrator;

    fn deref(&self) -> &Orchestrator {
        &self.orch
    }
}

impl DerefMut for Rig {
    fn deref_mut(&mut self) -> &mut Orchestrator {
        &mut self.orch
    }
}

impl Rig {
    fn process_frame(
        &mut self,
        frame: &TcpFrame,
        packet_index: usize,
        packet_data: &[u8],
        timestamp: Duration,
    ) -> (PacketEvent, Vec<DecodedMessage>) {
        assert!(self.orch.can_begin(frame));
        let (event, task) = self
            .orch
            .begin_frame(frame, packet_index, packet_data, timestamp);
        let mut task = task;
        let mut answer = Event::Continue;
        loop {
            assert!(self.orch.can_step(&task));
            let (next, action) = self.orch.step(task, answer);
            task = next;
            answer = match action {
                Action::Continue => Event::Continue,
                Action::Dissect { port, buffer } => {
                    Event::Dissected((self.dissector)(port, &buffer))
                }
                Action::Done => {
                    assert!(self.orch.can_end());
                    return (event, self.orch.end_frame(task).messages);
                }
                Action::ReadKeylog | Action::StatKeylog => {
                    panic!("a source without a file asks for none")
                }
            };
        }
    }
}

fn fixture_dissector(port: u16, bytes: &[u8]) -> DissectOutcome {
    if port != 9410 {
        return DissectOutcome::NoDissector;
    }
    let mut fields = FrameFields::default();
    TreeItem::new().record(
        &mut fields,
        "fixture.msg",
        FieldValue::Str(String::from_utf8_lossy(bytes).into_owned()),
    );
    fields.protocol = Some("FIXTURE".to_string());
    DissectOutcome::Dissected {
        fields,
        consumed: bytes.len(),
    }
}

fn never_consumes(port: u16, _bytes: &[u8]) -> DissectOutcome {
    if port != 9410 {
        return DissectOutcome::NoDissector;
    }
    DissectOutcome::Dissected {
        fields: FrameFields::default(),
        consumed: 0,
    }
}

fn rig(
    keylog: Keylog,
    config: OrchestratorConfig,
    dissector: fn(u16, &[u8]) -> DissectOutcome,
) -> Rig {
    Rig {
        orch: Orchestrator::new(KeylogSource::from_parsed(keylog), config),
        dissector,
    }
}

fn new_test_orchestrator(keylog: Keylog) -> Rig {
    rig(keylog, OrchestratorConfig::default(), fixture_dissector)
}

fn endpoint(e: (IpAddr, u16)) -> Endpoint {
    Endpoint { ip: e.0, port: e.1 }
}

#[test]
fn full_handshake_through_decrypt_and_dissect() {
    let client_random = [0x42u8; 32];
    let secret = [0x99u8; 32];
    let keylog = Keylog::parse(&format!(
        "CLIENT_TRAFFIC_SECRET_0 {} {}\r\n",
        hex::encode(client_random),
        hex::encode(secret)
    ));
    let keys = RecordKeys::derive(&secret, AeadAlgorithm::Aes128Gcm).unwrap();

    let mut orch = new_test_orchestrator(keylog);

    let syn_seq = 1000u32;
    let syn = tcp_frame(
        CLIENT,
        SERVER,
        syn_seq,
        TcpFlags {
            syn: true,
            ..Default::default()
        },
        0..0,
    );
    assert!(
        orch.process_frame(&syn, 0, &[], Duration::zero())
            .1
            .is_empty()
    );

    let hello = client_hello_record(client_random);
    let hello_seq = syn_seq.wrapping_add(1);
    let frame = tcp_frame(
        CLIENT,
        SERVER,
        hello_seq,
        TcpFlags::default(),
        0..hello.len(),
    );
    assert!(
        orch.process_frame(&frame, 1, &hello, Duration::zero())
            .1
            .is_empty()
    );
    assert_eq!(orch.active_connections(), 1);

    let record = app_data_record(&keys, 0, b"HEARTBEAT_RESPONSE-ish body");
    let split = record.len() / 2;
    let data_seq = hello_seq.wrapping_add(hello.len() as u32); // continues the client's own stream after the ClientHello

    let second_half = record[split..].to_vec();
    let frame2 = tcp_frame(
        CLIENT,
        SERVER,
        data_seq.wrapping_add(split as u32),
        TcpFlags::default(),
        0..second_half.len(),
    );
    assert!(
        orch.process_frame(&frame2, 2, &second_half, Duration::zero())
            .1
            .is_empty(),
        "out-of-order second half must not produce output yet"
    );

    let first_half = record[..split].to_vec();
    let frame1 = tcp_frame(
        CLIENT,
        SERVER,
        data_seq,
        TcpFlags::default(),
        0..first_half.len(),
    );
    let (_, messages) = orch.process_frame(&frame1, 3, &first_half, Duration::zero());

    assert_eq!(
        messages.len(),
        1,
        "reordered halves must reassemble into exactly one dissected message"
    );
    assert_eq!(
        messages[0].fields.values_for("fixture.msg")[0].to_output_string(),
        "HEARTBEAT_RESPONSE-ish body"
    );
    assert_eq!(
        messages[0].tls_app_data, b"HEARTBEAT_RESPONSE-ish body",
        "the raw decrypted record must always be surfaced too, regardless of dissection"
    );
    assert_eq!(messages[0].fields.protocol.as_deref(), Some("FIXTURE"));
    assert_eq!(messages[0].src_ip, CLIENT.0);
    assert_eq!(messages[0].dst_ip, SERVER.0);
}

#[test]
fn raw_decrypted_data_is_emitted_even_with_no_dissector_registered() {
    let client_random = [0x77u8; 32];
    let secret = [0x88u8; 32];
    let keylog = Keylog::parse(&format!(
        "CLIENT_TRAFFIC_SECRET_0 {} {}\r\n",
        hex::encode(client_random),
        hex::encode(secret)
    ));
    let keys = RecordKeys::derive(&secret, AeadAlgorithm::Aes128Gcm).unwrap();
    let mut orch = new_test_orchestrator(keylog);

    const UNREGISTERED_SERVER: (IpAddr, u16) = (IpAddr::V4(0x0a000009), 12345);

    let syn_seq = 5000u32;
    let syn = tcp_frame(
        CLIENT,
        UNREGISTERED_SERVER,
        syn_seq,
        TcpFlags {
            syn: true,
            ..Default::default()
        },
        0..0,
    );
    orch.process_frame(&syn, 0, &[], Duration::zero());

    let hello = client_hello_record(client_random);
    let hello_seq = syn_seq.wrapping_add(1);
    let hello_frame = tcp_frame(
        CLIENT,
        UNREGISTERED_SERVER,
        hello_seq,
        TcpFlags::default(),
        0..hello.len(),
    );
    orch.process_frame(&hello_frame, 1, &hello, Duration::zero());

    let record = app_data_record(&keys, 0, b"no dissector for this port, but still decrypted");
    let data_seq = hello_seq.wrapping_add(hello.len() as u32);
    let frame = tcp_frame(
        CLIENT,
        UNREGISTERED_SERVER,
        data_seq,
        TcpFlags::default(),
        0..record.len(),
    );
    let (_, messages) = orch.process_frame(&frame, 2, &record, Duration::zero());

    assert_eq!(
        messages.len(),
        1,
        "a decrypted record with no registered dissector must still be emitted"
    );
    assert_eq!(
        messages[0].tls_app_data,
        b"no dissector for this port, but still decrypted"
    );
    assert!(
        messages[0].fields.values_for("fixture.msg").is_empty(),
        "no dissector ran, so there must be no application-layer fields at all"
    );
    assert_eq!(messages[0].fields.protocol, None);
}

#[test]
fn no_dissector_for_port_never_accumulates_a_tail() {
    let client_random = [0x11u8; 32];
    let secret = [0x22u8; 32];
    let keylog = Keylog::parse(&format!(
        "CLIENT_TRAFFIC_SECRET_0 {} {}\r\n",
        hex::encode(client_random),
        hex::encode(secret)
    ));
    let keys = RecordKeys::derive(&secret, AeadAlgorithm::Aes128Gcm).unwrap();
    let mut orch = new_test_orchestrator(keylog);

    const UNREGISTERED_SERVER: (IpAddr, u16) = (IpAddr::V4(0x0a000009), 12345);

    let syn_seq = 7000u32;
    let syn = tcp_frame(
        CLIENT,
        UNREGISTERED_SERVER,
        syn_seq,
        TcpFlags {
            syn: true,
            ..Default::default()
        },
        0..0,
    );
    orch.process_frame(&syn, 0, &[], Duration::zero());

    let hello = client_hello_record(client_random);
    let hello_seq = syn_seq.wrapping_add(1);
    let hello_frame = tcp_frame(
        CLIENT,
        UNREGISTERED_SERVER,
        hello_seq,
        TcpFlags::default(),
        0..hello.len(),
    );
    orch.process_frame(&hello_frame, 1, &hello, Duration::zero());

    let mut seq = hello_seq.wrapping_add(hello.len() as u32);
    for i in 0..2u64 {
        let record = app_data_record(&keys, i, format!("record #{i}").as_bytes());
        let frame = tcp_frame(
            CLIENT,
            UNREGISTERED_SERVER,
            seq,
            TcpFlags::default(),
            0..record.len(),
        );
        let (_, messages) = orch.process_frame(&frame, 2 + i as usize, &record, Duration::zero());
        assert_eq!(messages.len(), 1, "record #{i} must still decrypt and emit");
        seq = seq.wrapping_add(record.len() as u32);
    }

    let key = conn_key(endpoint(CLIENT), endpoint(UNREGISTERED_SERVER));
    let conn = orch
        .connection(key)
        .expect("connection must still exist");
    assert_eq!(
        conn.tail(true).len(),
        0,
        "a port with no dissector must never accumulate a tail, no matter how many records arrive"
    );
    assert_eq!(orch.tail_bytes_discarded, 0);
}

#[test]
fn oversized_tail_gets_truncated_and_reported() {
    let client_random = [0x33u8; 32];
    let secret = [0x44u8; 32];
    let keylog = Keylog::parse(&format!(
        "CLIENT_TRAFFIC_SECRET_0 {} {}\r\n",
        hex::encode(client_random),
        hex::encode(secret)
    ));
    let keys = RecordKeys::derive(&secret, AeadAlgorithm::Aes128Gcm).unwrap();

    let mut orch = rig(
        keylog,
        OrchestratorConfig {
            max_tail_bytes: 50,
            ..OrchestratorConfig::default()
        },
        never_consumes,
    );

    let syn_seq = 8000u32;
    let syn = tcp_frame(
        CLIENT,
        SERVER,
        syn_seq,
        TcpFlags {
            syn: true,
            ..Default::default()
        },
        0..0,
    );
    orch.process_frame(&syn, 0, &[], Duration::zero());

    let hello = client_hello_record(client_random);
    let hello_seq = syn_seq.wrapping_add(1);
    let hello_frame = tcp_frame(
        CLIENT,
        SERVER,
        hello_seq,
        TcpFlags::default(),
        0..hello.len(),
    );
    orch.process_frame(&hello_frame, 1, &hello, Duration::zero());

    let mut seq = hello_seq.wrapping_add(hello.len() as u32);
    for i in 0..5u64 {
        let record = app_data_record(&keys, i, b"0123456789012345"); // 16 bytes
        let frame = tcp_frame(CLIENT, SERVER, seq, TcpFlags::default(), 0..record.len());
        orch.process_frame(&frame, 2 + i as usize, &record, Duration::zero());
        seq = seq.wrapping_add(record.len() as u32);
    }

    assert!(
        orch.tail_bytes_discarded > 0,
        "exceeding max_tail_bytes must be reported via the counter, never silent"
    );
    let key = conn_key(endpoint(CLIENT), endpoint(SERVER));
    let conn = orch
        .connection(key)
        .expect("connection must still exist");
    assert!(
        conn.tail(true).len() <= 50,
        "tail must never be allowed to grow past max_tail_bytes, got {}",
        conn.tail(true).len()
    );
}

#[test]
fn gap_abandoned_permanently_desyncs_a_direction() {
    let client_random = [0x55u8; 32];
    let secret = [0x66u8; 32];
    let keylog = Keylog::parse(&format!(
        "CLIENT_TRAFFIC_SECRET_0 {} {}\r\n",
        hex::encode(client_random),
        hex::encode(secret)
    ));
    let keys = RecordKeys::derive(&secret, AeadAlgorithm::Aes128Gcm).unwrap();

    let mut orch = rig(
        keylog,
        OrchestratorConfig {
            max_pending_bytes: 20,
            ..OrchestratorConfig::default()
        },
        fixture_dissector,
    );

    let syn_seq = 9000u32;
    let syn = tcp_frame(
        CLIENT,
        SERVER,
        syn_seq,
        TcpFlags {
            syn: true,
            ..Default::default()
        },
        0..0,
    );
    orch.process_frame(&syn, 0, &[], Duration::zero());

    let hello = client_hello_record(client_random);
    let hello_seq = syn_seq.wrapping_add(1);
    let hello_frame = tcp_frame(
        CLIENT,
        SERVER,
        hello_seq,
        TcpFlags::default(),
        0..hello.len(),
    );
    orch.process_frame(&hello_frame, 1, &hello, Duration::zero());
    let after_hello_seq = hello_seq.wrapping_add(hello.len() as u32);

    let far_seq = after_hello_seq.wrapping_add(1000);
    let frame_a = tcp_frame(CLIENT, SERVER, far_seq, TcpFlags::default(), 0..15);
    orch.process_frame(&frame_a, 2, &[0xAA; 15], Duration::zero());
    let frame_b = tcp_frame(
        CLIENT,
        SERVER,
        far_seq.wrapping_add(100),
        TcpFlags::default(),
        0..15,
    );
    orch.process_frame(&frame_b, 3, &[0xBB; 15], Duration::zero());

    assert!(
        orch.gap_abandoned_bytes > 0,
        "the second out-of-order push must exceed max_pending_bytes and trigger GapAbandoned"
    );
    assert_eq!(orch.connections_desynced, 1);

    let record = app_data_record(&keys, 0, b"this must never come out");
    let frame = tcp_frame(
        CLIENT,
        SERVER,
        after_hello_seq,
        TcpFlags::default(),
        0..record.len(),
    );
    let (_, messages) = orch.process_frame(&frame, 4, &record, Duration::zero());
    assert!(
        messages.is_empty(),
        "no message must ever be emitted for a permanently desynced direction"
    );

    let key = conn_key(endpoint(CLIENT), endpoint(SERVER));
    let conn = orch
        .connection(key)
        .expect("connection must still exist");
    assert!(conn.is_desynced(true));
    assert_eq!(
        conn.reassembler(true).contiguous_len(),
        0,
        "a desynced direction's reassembler must not accumulate anything at all, not even a \
         well-formed record"
    );
    assert_eq!(conn.reassembler(true).pending_len(), 0);
}

#[test]
fn dissects_server_to_client_responses_too() {
    let client_random = [0x43u8; 32];
    let secret = [0x88u8; 32];
    let keylog = Keylog::parse(&format!(
        "SERVER_TRAFFIC_SECRET_0 {} {}\r\n",
        hex::encode(client_random),
        hex::encode(secret)
    ));
    let keys = RecordKeys::derive(&secret, AeadAlgorithm::Aes128Gcm).unwrap();

    let mut orch = new_test_orchestrator(keylog);

    let syn_seq = 2000u32;
    let syn = tcp_frame(
        CLIENT,
        SERVER,
        syn_seq,
        TcpFlags {
            syn: true,
            ..Default::default()
        },
        0..0,
    );
    orch.process_frame(&syn, 0, &[], Duration::zero());

    let hello = client_hello_record(client_random);
    let hello_seq = syn_seq.wrapping_add(1);
    let frame = tcp_frame(
        CLIENT,
        SERVER,
        hello_seq,
        TcpFlags::default(),
        0..hello.len(),
    );
    orch.process_frame(&frame, 1, &hello, Duration::zero());

    let server_syn_seq = 9000u32;
    let server_syn = tcp_frame(
        SERVER,
        CLIENT,
        server_syn_seq,
        TcpFlags {
            syn: true,
            ack: true,
            ..Default::default()
        },
        0..0,
    );
    orch.process_frame(&server_syn, 2, &[], Duration::zero());

    let record = app_data_record(&keys, 0, b"HEARTBEAT_RESPONSE-ish body from the server");
    let data_seq = server_syn_seq.wrapping_add(1);
    let frame = tcp_frame(
        SERVER,
        CLIENT,
        data_seq,
        TcpFlags::default(),
        0..record.len(),
    );
    let (_, messages) = orch.process_frame(&frame, 3, &record, Duration::zero());

    assert_eq!(
        messages.len(),
        1,
        "server->client response must be dissected, not silently dropped"
    );
    assert_eq!(
        messages[0].fields.values_for("fixture.msg")[0].to_output_string(),
        "HEARTBEAT_RESPONSE-ish body from the server"
    );
    assert_eq!(
        messages[0].src_ip, SERVER.0,
        "message must be correctly labeled as server -> client"
    );
    assert_eq!(messages[0].dst_ip, CLIENT.0);
}

#[test]
fn fin_both_directions_evicts_connection() {
    let keylog = Keylog::parse("");
    let mut orch = new_test_orchestrator(keylog);

    let syn = tcp_frame(
        CLIENT,
        SERVER,
        1,
        TcpFlags {
            syn: true,
            ..Default::default()
        },
        0..0,
    );
    orch.process_frame(&syn, 0, &[], Duration::zero());
    assert_eq!(orch.active_connections(), 1);

    let fin_c2s = tcp_frame(
        CLIENT,
        SERVER,
        2,
        TcpFlags {
            fin: true,
            ..Default::default()
        },
        0..0,
    );
    orch.process_frame(&fin_c2s, 1, &[], Duration::zero());
    assert_eq!(
        orch.active_connections(),
        1,
        "half-closed (one direction FIN'd) must NOT be evicted yet"
    );

    let fin_s2c = tcp_frame(
        SERVER,
        CLIENT,
        1,
        TcpFlags {
            fin: true,
            ..Default::default()
        },
        0..0,
    );
    orch.process_frame(&fin_s2c, 2, &[], Duration::zero());
    assert_eq!(
        orch.active_connections(),
        0,
        "both directions FIN'd must evict"
    );
    assert_eq!(orch.evicted_connections, 1);
}

#[test]
fn rst_evicts_immediately_regardless_of_fin_state() {
    let keylog = Keylog::parse("");
    let mut orch = new_test_orchestrator(keylog);

    let syn = tcp_frame(
        CLIENT,
        SERVER,
        1,
        TcpFlags {
            syn: true,
            ..Default::default()
        },
        0..0,
    );
    orch.process_frame(&syn, 0, &[], Duration::zero());
    assert_eq!(orch.active_connections(), 1);

    let rst = tcp_frame(
        CLIENT,
        SERVER,
        2,
        TcpFlags {
            rst: true,
            ..Default::default()
        },
        0..0,
    );
    orch.process_frame(&rst, 1, &[], Duration::zero());
    assert_eq!(
        orch.active_connections(),
        0,
        "RST from either side must evict immediately, no FIN needed"
    );
}

#[test]
fn packet_event_is_always_emitted_with_canonical_flag_order() {
    let keylog = Keylog::parse("");
    let mut orch = new_test_orchestrator(keylog);

    let syn = tcp_frame(
        CLIENT,
        SERVER,
        1000,
        TcpFlags {
            syn: true,
            ack: true,
            psh: true,
            ..Default::default()
        },
        0..0,
    );
    let (event, messages) = orch.process_frame(&syn, 0, &[], Duration::from_millis(42));
    assert!(
        messages.is_empty(),
        "no TLS data on a bare flags-only frame"
    );
    assert_eq!(event.src_ip, CLIENT.0);
    assert_eq!(event.dst_ip, SERVER.0);
    assert_eq!(event.src_port, CLIENT.1);
    assert_eq!(event.dst_port, SERVER.1);
    assert_eq!(event.seq, 1000);
    assert_eq!(event.timestamp, Duration::from_millis(42));
    assert_eq!(
        event.flags,
        vec!["syn", "ack", "psh"],
        "flags must appear in the fixed canonical order (syn, ack, fin, rst, psh), not \
         whatever order they happened to be checked in"
    );

    let rst = tcp_frame(
        CLIENT,
        SERVER,
        1001,
        TcpFlags {
            rst: true,
            ..Default::default()
        },
        0..0,
    );
    let (event, messages) = orch.process_frame(&rst, 1, &[], Duration::zero());
    assert!(messages.is_empty());
    assert_eq!(
        event.flags,
        vec!["rst"],
        "a RST must be visible as its own packet event even though it carries no TLS data"
    );
}

#[test]
fn idle_timeout_off_by_default_never_evicts() {
    let keylog = Keylog::parse("");
    let mut orch = new_test_orchestrator(keylog);
    assert!(
        orch.config().idle_timeout.is_none(),
        "default config must have idle-timeout disabled"
    );

    let syn = tcp_frame(
        CLIENT,
        SERVER,
        1,
        TcpFlags {
            syn: true,
            ..Default::default()
        },
        0..0,
    );
    orch.process_frame(&syn, 0, &[], Duration::zero());
    assert_eq!(orch.active_connections(), 1);
    orch.maybe_sweep_idle(Duration::from_secs(1_000_000));
    assert_eq!(orch.active_connections(), 1);
}

#[test]
fn tls_record_counters_track_seen_decrypted_and_no_client_hello() {
    let client_random = [0x44u8; 32];
    let secret = [0x77u8; 32];
    let keylog = Keylog::parse(&format!(
        "CLIENT_TRAFFIC_SECRET_0 {} {}\r\n",
        hex::encode(client_random),
        hex::encode(secret)
    ));
    let keys = RecordKeys::derive(&secret, AeadAlgorithm::Aes128Gcm).unwrap();
    let mut orch = new_test_orchestrator(keylog);

    let orphan_client: (IpAddr, u16) = (CLIENT.0, 61000);
    let orphan_record = app_data_record(&keys, 0, b"never decryptable, no client_hello seen");
    let orphan_frame = tcp_frame(
        orphan_client,
        SERVER,
        5000,
        TcpFlags::default(),
        0..orphan_record.len(),
    );
    orch.process_frame(&orphan_frame, 0, &orphan_record, Duration::zero());
    assert_eq!(orch.tls_records_seen, 1);
    assert_eq!(orch.tls_records_no_client_hello, 1);
    assert_eq!(orch.tls_records_decrypted, 0);

    let syn = tcp_frame(
        CLIENT,
        SERVER,
        1000,
        TcpFlags {
            syn: true,
            ..Default::default()
        },
        0..0,
    );
    orch.process_frame(&syn, 1, &[], Duration::zero());
    let hello = client_hello_record(client_random);
    let hello_frame = tcp_frame(CLIENT, SERVER, 1001, TcpFlags::default(), 0..hello.len());
    orch.process_frame(&hello_frame, 2, &hello, Duration::zero());
    assert_eq!(
        orch.tls_records_seen, 2,
        "ClientHello record itself counts as seen"
    );
    assert_eq!(
        orch.tls_records_plaintext_handshake, 1,
        "the ClientHello is definitively plaintext, never decrypt-attempted, never a nokey"
    );
    assert_eq!(orch.tls_records_nokey, 0);

    let data_seq = 1001u32.wrapping_add(hello.len() as u32);
    let record = app_data_record(&keys, 0, b"a real encrypted message");
    let data_frame = tcp_frame(
        CLIENT,
        SERVER,
        data_seq,
        TcpFlags::default(),
        0..record.len(),
    );
    orch.process_frame(&data_frame, 3, &record, Duration::zero());

    assert_eq!(orch.tls_records_seen, 3);
    assert_eq!(orch.tls_records_decrypted, 1);
    assert_eq!(orch.tls_records_nokey, 0);
    assert_eq!(orch.tls_records_authfailed, 0);
    assert_eq!(orch.tls_records_no_client_hello, 1);
    assert_eq!(orch.tls_records_plaintext_handshake, 1);
    assert_eq!(
        orch.tls_records_seen,
        orch.tls_records_decrypted
            + orch.tls_records_nokey
            + orch.tls_records_authfailed
            + orch.tls_records_no_client_hello
            + orch.tls_records_plaintext_handshake
    );
}

#[test]
fn server_hello_and_change_cipher_spec_are_never_decrypt_attempted() {
    let client_random = [0x11u8; 32];
    let server_random = [0x22u8; 32];
    let secret = [0x55u8; 32];
    let keylog = Keylog::parse(&format!(
        "CLIENT_TRAFFIC_SECRET_0 {} {}\r\n",
        hex::encode(client_random),
        hex::encode(secret)
    ));
    let keys = RecordKeys::derive(&secret, AeadAlgorithm::Aes128Gcm).unwrap();
    let mut orch = new_test_orchestrator(keylog);

    let syn = tcp_frame(
        CLIENT,
        SERVER,
        2000,
        TcpFlags {
            syn: true,
            ..Default::default()
        },
        0..0,
    );
    orch.process_frame(&syn, 0, &[], Duration::zero());

    let hello = client_hello_record(client_random);
    let hello_frame = tcp_frame(CLIENT, SERVER, 2001, TcpFlags::default(), 0..hello.len());
    orch.process_frame(&hello_frame, 1, &hello, Duration::zero());

    let server_hello = server_hello_record(server_random);
    let server_hello_frame = tcp_frame(
        SERVER,
        CLIENT,
        3000,
        TcpFlags::default(),
        0..server_hello.len(),
    );
    orch.process_frame(&server_hello_frame, 2, &server_hello, Duration::zero());

    let server_ccs = change_cipher_spec_record();
    let server_ccs_frame = tcp_frame(
        SERVER,
        CLIENT,
        3000 + server_hello.len() as u32,
        TcpFlags::default(),
        0..server_ccs.len(),
    );
    orch.process_frame(&server_ccs_frame, 3, &server_ccs, Duration::zero());

    let client_ccs = change_cipher_spec_record();
    let client_ccs_frame = tcp_frame(
        CLIENT,
        SERVER,
        2001 + hello.len() as u32,
        TcpFlags::default(),
        0..client_ccs.len(),
    );
    orch.process_frame(&client_ccs_frame, 4, &client_ccs, Duration::zero());

    assert_eq!(orch.tls_records_seen, 4);
    assert_eq!(
        orch.tls_records_plaintext_handshake, 4,
        "ClientHello + ServerHello + both CCS records -- all definitively plaintext"
    );
    assert_eq!(
        orch.tls_records_nokey, 0,
        "none of these four should ever reach decrypt(), let alone fail it"
    );

    let data_seq = 2001u32
        .wrapping_add(hello.len() as u32)
        .wrapping_add(client_ccs.len() as u32);
    let record = app_data_record(&keys, 0, b"real encrypted app data after the handshake");
    let data_frame = tcp_frame(
        CLIENT,
        SERVER,
        data_seq,
        TcpFlags::default(),
        0..record.len(),
    );
    orch.process_frame(&data_frame, 5, &record, Duration::zero());

    assert_eq!(orch.tls_records_seen, 5);
    assert_eq!(orch.tls_records_decrypted, 1);
    assert_eq!(orch.tls_records_nokey, 0);
    assert_eq!(orch.tls_records_plaintext_handshake, 4);
}

#[test]
fn keylog_entries_reflects_the_current_keylog() {
    let keylog = Keylog::parse("CLIENT_RANDOM aabb ccdd\r\nCLIENT_RANDOM eeff 0011\r\n");
    let orch = new_test_orchestrator(keylog);
    assert_eq!(orch.keylog_entries(), 2);
}

#[test]
fn buffered_bytes_sums_stalled_reassembly_across_connections() {
    let mut orch = new_test_orchestrator(Keylog::parse(""));
    assert_eq!(orch.buffered_bytes(), 0);

    let partial = [0xAAu8, 0xBB, 0xCC];
    let frame = tcp_frame(CLIENT, SERVER, 1000, TcpFlags::default(), 0..partial.len());
    orch.process_frame(&frame, 0, &partial, Duration::zero());
    assert_eq!(orch.buffered_bytes(), 3);

    let other_client = (IpAddr::V4(0x0a000003), 51235);
    let frame2 = tcp_frame(
        other_client,
        SERVER,
        2000,
        TcpFlags::default(),
        0..partial.len(),
    );
    orch.process_frame(&frame2, 1, &partial, Duration::zero());
    assert_eq!(orch.buffered_bytes(), 6);
}
