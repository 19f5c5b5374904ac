use tlscap::keylog::Keylog;
use tlscap::keylog_source::{FileSignature, KeylogRead, KeylogSource};
use tlscap::lua::tree::{FieldValue, TreeItem};
use tlscap::lua::FrameFields;
use tlscap::net::IpAddr;
use tlscap::orchestrator::connections::{conn_key, Endpoint};
use tlscap::orchestrator::{
    Action, DissectOutcome, Event, FrameResult, Notice, Orchestrator, OrchestratorConfig,
};
use tlscap::pcap_input::{TcpFlags, TcpFrame};
use tlscap::time::Duration;
use tlscap::tls13::{record_aad, AeadAlgorithm, RecordKeys};

const CLIENT: Endpoint = Endpoint {
    ip: IpAddr::V4(0x0a000001),
    port: 50000,
};
const SERVER: Endpoint = Endpoint {
    ip: IpAddr::V4(0x0a000002),
    port: 9410,
};
const RANDOM: [u8; 32] = [0x5a; 32];
const SECRET: [u8; 32] = [0x6b; 32];

fn frame(src: Endpoint, dst: Endpoint, seq: u32, flags: TcpFlags, len: usize) -> TcpFrame {
    TcpFrame {
        src_ip: src.ip,
        dst_ip: dst.ip,
        src_port: src.port,
        dst_port: dst.port,
        seq,
        ack_number: 0,
        flags,
        payload_range: 0..len,
    }
}

fn hello() -> Vec<u8> {
    let mut body = vec![1, 0, 0, 0, 3, 3];
    body.extend_from_slice(&RANDOM);
    let mut record = vec![0x16, 3, 3, 0, body.len() as u8];
    record.extend(body);
    record
}

fn record(seq: u64, content: &[u8]) -> Vec<u8> {
    let keys = RecordKeys::derive(&SECRET, AeadAlgorithm::Aes128Gcm).unwrap();
    let sealed = keys.encrypt_record(seq, &record_aad(content.len() + 17), content, 0x17, 0);
    let mut record = vec![0x17, 3, 3, 0, sealed.len() as u8];
    record.extend(sealed);
    record
}

fn keylog_line() -> String {
    format!(
        "CLIENT_TRAFFIC_SECRET_0 {} {}\n",
        hex::encode(RANDOM),
        hex::encode(SECRET)
    )
}

fn signature(modified: u128) -> FileSignature {
    FileSignature {
        modified: Some(modified),
        len: Some(1),
    }
}

struct World {
    file: Option<(String, FileSignature)>,
    dissect: fn(&[u8]) -> DissectOutcome,
    asked: Vec<&'static str>,
    buffers: Vec<Vec<u8>>,
}

impl World {
    fn new(dissect: fn(&[u8]) -> DissectOutcome) -> World {
        World {
            file: None,
            dissect,
            asked: vec![],
            buffers: vec![],
        }
    }
}

fn run(
    orch: &mut Orchestrator,
    world: &mut World,
    frame: &TcpFrame,
    data: &[u8],
    now: Duration,
) -> FrameResult {
    assert!(orch.can_begin(frame));
    let (_, mut task) = orch.begin_frame_at(frame, 0, data, Duration::from_secs(7), now);
    let mut answer = Event::Continue;
    loop {
        assert!(orch.can_step(&task));
        let (next, action) = orch.step(task, answer);
        task = next;
        answer = match action {
            Action::Continue => Event::Continue,
            Action::ReadKeylog => {
                world.asked.push("read");
                Event::KeylogRead(world.file.clone().map(|(text, signature)| KeylogRead {
                    text,
                    signature,
                }))
            }
            Action::StatKeylog => {
                world.asked.push("stat");
                Event::KeylogStat(match &world.file {
                    Some((_, signature)) => *signature,
                    None => FileSignature {
                        modified: None,
                        len: None,
                    },
                })
            }
            Action::Dissect { port, buffer } => {
                assert_eq!(port, 9410);
                world.buffers.push(buffer.to_vec());
                Event::Dissected((world.dissect)(&buffer))
            }
            Action::Done => {
                assert!(orch.can_end());
                return orch.end_frame(task);
            }
        };
    }
}

fn whole(bytes: &[u8]) -> DissectOutcome {
    let mut fields = FrameFields::default();
    TreeItem::new().record(&mut fields, "raw", FieldValue::Bytes(bytes.to_vec()));
    DissectOutcome::Dissected {
        fields,
        consumed: bytes.len(),
    }
}

fn pairs(bytes: &[u8]) -> DissectOutcome {
    DissectOutcome::Dissected {
        fields: FrameFields::default(),
        consumed: bytes.len() / 2 * 2,
    }
}

fn failing(_: &[u8]) -> DissectOutcome {
    DissectOutcome::Failed
}

fn none(_: &[u8]) -> DissectOutcome {
    DissectOutcome::NoDissector
}

fn static_orchestrator(config: OrchestratorConfig) -> Orchestrator {
    Orchestrator::new(
        KeylogSource::from_parsed(Keylog::parse(&keylog_line())),
        config,
    )
}

fn say_hello(orch: &mut Orchestrator, world: &mut World) -> u32 {
    let h = hello();
    run(
        orch,
        world,
        &frame(CLIENT, SERVER, 1, TcpFlags::default(), h.len()),
        &h,
        Duration::zero(),
    );
    1 + h.len() as u32
}

fn send(
    orch: &mut Orchestrator,
    world: &mut World,
    seq: &mut u32,
    data: &[u8],
    now: Duration,
) -> FrameResult {
    let f = frame(CLIENT, SERVER, *seq, TcpFlags::default(), data.len());
    *seq = seq.wrapping_add(data.len() as u32);
    run(orch, world, &f, data, now)
}

#[test]
fn a_message_split_over_records_reaches_the_dissector_whole() {
    let mut orch = static_orchestrator(OrchestratorConfig::default());
    let mut world = World::new(pairs);
    let mut seq = say_hello(&mut orch, &mut world);
    for (i, part) in [&b"abc"[..], &b"de"[..], &b"f"[..]].iter().enumerate() {
        let r = send(
            &mut orch,
            &mut world,
            &mut seq,
            &record(i as u64, part),
            Duration::zero(),
        );
        assert_eq!(r.messages.len(), 1);
        assert_eq!(r.messages[0].tls_app_data, *part);
        assert_eq!(r.messages[0].timestamp, Duration::from_secs(7));
    }
    assert_eq!(
        world.buffers,
        vec![b"abc".to_vec(), b"cde".to_vec(), b"ef".to_vec()]
    );
    let conn = orch.connection(conn_key(SERVER, CLIENT)).unwrap();
    assert!(conn.tail(true).is_empty());
}

#[test]
fn several_records_in_one_frame_are_worked_off_in_order() {
    let mut orch = static_orchestrator(OrchestratorConfig::default());
    let mut world = World::new(whole);
    let mut data = hello();
    data.extend(record(0, b"one"));
    data.extend([0x14, 3, 3, 0, 1, 1]);
    data.extend(record(1, b"two"));
    data.extend(&record(2, b"three")[..9]);
    let mut seq = 1;
    let r = send(&mut orch, &mut world, &mut seq, &data, Duration::zero());
    let texts: Vec<&[u8]> = r.messages.iter().map(|m| &m.tls_app_data[..]).collect();
    assert_eq!(texts, vec![&b"one"[..], &b"two"[..]]);
    assert_eq!(orch.buffered_bytes(), 9);
    assert_eq!(orch.tls_records_seen, 4);
    assert_eq!(orch.tls_records_plaintext_handshake, 2);
}

#[test]
fn a_failed_dissection_keeps_its_buffer_for_the_next_record() {
    let mut orch = static_orchestrator(OrchestratorConfig::default());
    let mut world = World::new(failing);
    let mut seq = say_hello(&mut orch, &mut world);
    let r = send(
        &mut orch,
        &mut world,
        &mut seq,
        &record(0, b"abc"),
        Duration::zero(),
    );
    assert_eq!(r.messages.len(), 1);
    assert!(r.messages[0].fields.entries.is_empty());
    world.dissect = whole;
    let r = send(
        &mut orch,
        &mut world,
        &mut seq,
        &record(1, b"def"),
        Duration::zero(),
    );
    assert_eq!(
        r.messages[0].fields.values_for("raw"),
        vec![FieldValue::Bytes(b"abcdef".to_vec())]
    );
    assert_eq!(r.messages[0].tls_app_data, b"def");
}

#[test]
fn an_overlong_tail_keeps_its_last_bytes_and_is_told() {
    let mut orch = static_orchestrator(OrchestratorConfig {
        max_tail_bytes: 4,
        ..OrchestratorConfig::default()
    });
    let mut world = World::new(failing);
    let mut seq = say_hello(&mut orch, &mut world);
    let r = send(
        &mut orch,
        &mut world,
        &mut seq,
        &record(0, b"abcdefg"),
        Duration::zero(),
    );
    assert_eq!(r.notices, vec![Notice::TailDiscarded { bytes: 3 }]);
    assert_eq!(orch.tail_bytes_discarded, 3);
    let conn = orch.connection(conn_key(CLIENT, SERVER)).unwrap();
    assert_eq!(conn.tail(true), b"defg");
}

#[test]
fn a_port_without_a_dissector_is_told_of_once() {
    let mut orch = static_orchestrator(OrchestratorConfig::default());
    let mut world = World::new(none);
    let mut seq = say_hello(&mut orch, &mut world);
    let r = send(
        &mut orch,
        &mut world,
        &mut seq,
        &record(0, b"abc"),
        Duration::zero(),
    );
    assert_eq!(r.notices, vec![Notice::NoDissector { port: 9410 }]);
    let r = send(
        &mut orch,
        &mut world,
        &mut seq,
        &record(1, b"abc"),
        Duration::zero(),
    );
    assert!(r.notices.is_empty());
    assert_eq!(r.messages.len(), 1);
}

#[test]
fn a_miss_has_the_keylog_looked_at_and_read_if_it_changed() {
    let mut orch = Orchestrator::new(
        KeylogSource::open(
            Some(KeylogRead {
                text: String::new(),
                signature: signature(1),
            }),
            Duration::from_secs(5),
            Duration::zero(),
        ),
        OrchestratorConfig::default(),
    );
    let mut world = World::new(whole);
    world.file = Some((String::new(), signature(1)));
    let mut seq = say_hello(&mut orch, &mut world);
    assert!(world.asked.is_empty());
    let now = Duration::from_secs(1);
    let r = send(&mut orch, &mut world, &mut seq, &record(0, b"lost"), now);
    assert!(r.messages.is_empty());
    assert_eq!(world.asked, vec!["stat"]);
    assert_eq!(orch.tls_records_nokey, 1);

    world.file = Some((keylog_line(), signature(2)));
    world.asked.clear();
    let r = send(&mut orch, &mut world, &mut seq, &record(0, b"late"), now);
    assert!(r.messages.is_empty());
    assert_eq!(world.asked, vec!["stat", "read"]);
    assert_eq!(orch.keylog_entries(), 1);

    world.asked.clear();
    let r = send(&mut orch, &mut world, &mut seq, &record(0, b"found"), now);
    assert_eq!(r.messages.len(), 1);
    assert!(world.asked.is_empty());

    let r = send(
        &mut orch,
        &mut world,
        &mut seq,
        &record(1, b"later"),
        Duration::from_secs(6),
    );
    assert_eq!(r.messages.len(), 1);
    assert_eq!(world.asked, vec!["read"]);

    world.asked.clear();
    world.file = None;
    let r = send(
        &mut orch,
        &mut world,
        &mut seq,
        &record(2, b"gone"),
        Duration::from_secs(12),
    );
    assert_eq!(world.asked, vec!["read"]);
    assert_eq!(r.messages.len(), 1, "the keylog that was read last stays");
}

#[test]
fn a_record_that_does_not_authenticate_is_told_and_discarded() {
    let text = keylog_line()
        + &format!(
            "CLIENT_HANDSHAKE_TRAFFIC_SECRET {} {}\n",
            hex::encode(RANDOM),
            hex::encode([1u8; 32])
        );
    let mut orch = Orchestrator::new(
        KeylogSource::from_parsed(Keylog::parse(&text)),
        OrchestratorConfig::default(),
    );
    let mut world = World::new(whole);
    let mut seq = say_hello(&mut orch, &mut world);
    let mut bad = record(0, b"abc");
    bad[10] ^= 1;
    let r = send(&mut orch, &mut world, &mut seq, &bad, Duration::zero());
    assert!(r.messages.is_empty());
    assert_eq!(r.notices, vec![Notice::AuthFailed]);
    assert_eq!(orch.tls_records_authfailed, 1);
    let r = send(
        &mut orch,
        &mut world,
        &mut seq,
        &record(0, b"abc"),
        Duration::zero(),
    );
    assert_eq!(r.messages.len(), 1);
}

#[test]
fn a_gap_gives_up_its_own_direction_only() {
    let text = format!(
        "SERVER_TRAFFIC_SECRET_0 {} {}\n",
        hex::encode(RANDOM),
        hex::encode(SECRET)
    );
    let mut orch = Orchestrator::new(
        KeylogSource::from_parsed(Keylog::parse(&text)),
        OrchestratorConfig {
            max_pending_packets: 1,
            ..OrchestratorConfig::default()
        },
    );
    let mut world = World::new(whole);
    let seq = say_hello(&mut orch, &mut world);
    let mut far = seq + 100;
    let r = send(&mut orch, &mut world, &mut far, b"xx", Duration::zero());
    assert!(r.notices.is_empty());
    far += 50;
    let r = send(&mut orch, &mut world, &mut far, b"yyy", Duration::zero());
    assert_eq!(
        r.notices,
        vec![Notice::GapAbandoned { bytes: 2 }, Notice::Desynced]
    );
    let conn = orch.connection(conn_key(CLIENT, SERVER)).unwrap();
    assert!(conn.is_desynced(true));
    assert!(!conn.is_desynced(false));
    let answer = record(0, b"reply");
    let r = run(
        &mut orch,
        &mut world,
        &frame(SERVER, CLIENT, 77, TcpFlags::default(), answer.len()),
        &answer,
        Duration::zero(),
    );
    assert_eq!(r.messages.len(), 1);
    assert_eq!(r.messages[0].src_port, 9410);
    assert_eq!(r.messages[0].dst_port, 50000);
}

#[test]
fn idle_connections_are_swept_when_asked_for_and_due() {
    let mut orch = static_orchestrator(OrchestratorConfig {
        idle_timeout: Some(Duration::from_secs(100)),
        sweep_interval: Duration::from_secs(60),
        ..OrchestratorConfig::default()
    });
    let mut world = World::new(whole);
    say_hello(&mut orch, &mut world);
    let other = Endpoint {
        ip: IpAddr::V6(1),
        port: 1,
    };
    let ping = frame(other, SERVER, 1, TcpFlags::default(), 0);
    let r = run(
        &mut orch,
        &mut world,
        &ping,
        &[],
        Duration::from_secs(59),
    );
    assert!(r.notices.is_empty());
    assert_eq!(orch.active_connections(), 2);
    run(
        &mut orch,
        &mut world,
        &ping,
        &[],
        Duration::from_secs(61),
    );
    assert_eq!(orch.active_connections(), 2, "swept, but none was idle");
    run(
        &mut orch,
        &mut world,
        &ping,
        &[],
        Duration::from_secs(110),
    );
    assert_eq!(orch.active_connections(), 2, "one is idle, but no sweep is due");
    let r = run(
        &mut orch,
        &mut world,
        &ping,
        &[],
        Duration::from_secs(121),
    );
    assert_eq!(r.notices, vec![Notice::IdleSwept { connections: 1 }]);
    assert_eq!(orch.active_connections(), 1);
    assert_eq!(orch.evicted_connections, 1);
}

#[test]
fn garbage_is_collected_once_per_interval() {
    let mut orch = static_orchestrator(OrchestratorConfig::default());
    let mut world = World::new(whole);
    let ping = frame(CLIENT, SERVER, 1, TcpFlags::default(), 0);
    let mut due = |secs: u64| {
        run(
            &mut orch,
            &mut world,
            &ping,
            &[],
            Duration::from_secs(secs),
        )
        .collect_garbage
    };
    assert!(!due(4));
    assert!(due(5));
    assert!(!due(9));
    assert!(due(10));
}

#[test]
fn a_connection_has_one_identity_in_both_directions() {
    assert_eq!(conn_key(CLIENT, SERVER), conn_key(SERVER, CLIENT));
    let v6 = Endpoint {
        ip: IpAddr::V6(0x0a000001),
        port: 50000,
    };
    assert_ne!(conn_key(CLIENT, SERVER), conn_key(v6, SERVER));
    let swapped = (
        Endpoint {
            ip: CLIENT.ip,
            port: SERVER.port,
        },
        Endpoint {
            ip: SERVER.ip,
            port: CLIENT.port,
        },
    );
    assert_ne!(conn_key(CLIENT, SERVER), conn_key(swapped.0, swapped.1));
}

#[test]
fn the_counts_are_those_of_the_fields() {
    let mut orch = static_orchestrator(OrchestratorConfig::default());
    let mut world = World::new(whole);
    let mut seq = say_hello(&mut orch, &mut world);
    send(
        &mut orch,
        &mut world,
        &mut seq,
        &record(0, b"abc"),
        Duration::zero(),
    );
    let counters = orch.counters();
    assert_eq!(counters.tls_records_seen, 2);
    assert_eq!(counters.tls_records_decrypted, 1);
    assert_eq!(counters.tls_records_plaintext_handshake, 1);
    assert_eq!(counters.tls_records_seen, orch.tls_records_seen);
    assert_eq!(counters.evicted_connections, orch.evicted_connections);
    assert_eq!(counters.gap_abandoned_bytes, 0);
}

#[test]
fn a_direction_that_was_given_up_gives_nothing_more() {
    let mut orch = static_orchestrator(OrchestratorConfig {
        max_pending_packets: 1,
        ..OrchestratorConfig::default()
    });
    let mut world = World::new(whole);
    let seq = say_hello(&mut orch, &mut world);
    let mut far = seq + 100;
    send(&mut orch, &mut world, &mut far, b"xx", Duration::zero());
    far += 50;
    send(&mut orch, &mut world, &mut far, b"yyy", Duration::zero());
    let before = orch.counters();
    assert_eq!(before.connections_desynced, 1);
    for at in [seq, far, far + 1000, 1] {
        let mut at = at;
        let r = send(
            &mut orch,
            &mut world,
            &mut at,
            &record(0, b"late"),
            Duration::zero(),
        );
        assert!(r.messages.is_empty());
        assert!(r.notices.is_empty());
        assert_eq!(orch.counters(), before);
        assert_eq!(orch.buffered_bytes(), 0);
        assert!(orch
            .connection(conn_key(CLIENT, SERVER))
            .unwrap()
            .is_desynced(true));
    }
}

#[test]
fn a_connection_is_kept_exactly_until_it_is_closed() {
    let mut orch = static_orchestrator(OrchestratorConfig::default());
    let mut world = World::new(whole);
    let flags = |fin: bool, rst: bool| TcpFlags {
        fin,
        rst,
        ..TcpFlags::default()
    };
    let third = Endpoint {
        ip: IpAddr::V6(9),
        port: 9,
    };
    // Which way, FIN, RST, and whether the connection is there afterwards.
    let steps = [
        (CLIENT, SERVER, false, false, true),
        (CLIENT, SERVER, true, false, true),
        (CLIENT, SERVER, true, false, true),
        (SERVER, CLIENT, true, false, false),
        (SERVER, CLIENT, false, false, true),
        (CLIENT, SERVER, false, true, false),
    ];
    run(
        &mut orch,
        &mut world,
        &frame(third, SERVER, 1, TcpFlags::default(), 0),
        &[],
        Duration::zero(),
    );
    let mut evicted = 0;
    for (i, (src, dst, fin, rst, present)) in steps.iter().enumerate() {
        run(
            &mut orch,
            &mut world,
            &frame(*src, *dst, 1, flags(*fin, *rst), 0),
            &[],
            Duration::from_secs(1_000_000 * i as u64),
        );
        if !present {
            evicted += 1;
        }
        assert_eq!(
            orch.connection(conn_key(CLIENT, SERVER)).is_some(),
            *present
        );
        assert!(orch.connection(conn_key(third, SERVER)).is_some());
        assert_eq!(orch.active_connections(), 1 + *present as usize);
        assert_eq!(orch.evicted_connections, evicted);
    }
}
