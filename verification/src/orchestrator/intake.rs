//! What taking a frame in, and what each kind of record, is for.

use vstd::prelude::*;
use crate::connection::{ConnectionStateModel, ProcessError};
use crate::keylog_source::{FileSignature, KeylogRead};
use crate::lua::tree::{FieldsModel, FrameFields};
use crate::orchestrator::connections::{
    law_key_identifies_connection, spec_conn_key, ConnKey, ConnectionModel, Endpoint,
};
use crate::orchestrator::laws::law_records_come_off_in_order;
use crate::orchestrator::model::{
    first_record, flag_names, if_set, is_event_of, lemma_begin_ok, lemma_total_remove, texts,
    total_buffered, ActionModel, Counters, DissectOutcome, Event, MessageModel, Notice,
    OrchestratorModel, PacketEvent, StageModel, TaskModel,
};
use crate::pcap_input::{TcpFlags, TcpFrame};
use crate::reassembly::laws::{
    law_in_order_is_delivered, law_take_keeps_invariant, lemma_push_keeps_base, seq_at,
};
use crate::reassembly::{after_take, first_key, held_bytes, SegmentModel, StreamModel};
use crate::time::Duration;
use crate::tls12::law_random_follows_the_version;

verus! {

/// Where a frame comes from.
pub open spec fn sender(frame: TcpFrame) -> Endpoint {
    Endpoint { ip: frame.src_ip, port: frame.src_port }
}

/// Where a frame goes to.
pub open spec fn receiver(frame: TcpFrame) -> Endpoint {
    Endpoint { ip: frame.dst_ip, port: frame.dst_port }
}

/// The bytes of a packet that a frame says are its payload.
pub open spec fn payload_of(frame: TcpFrame, packet_data: Seq<u8>) -> Seq<u8> {
    packet_data.subrange(frame.payload_range.start as int, frame.payload_range.end as int)
}

/// The frame lies within its packet, and there is room to take it in.
pub open spec fn takeable(o: OrchestratorModel, frame: TcpFrame, packet_data: Seq<u8>) -> bool {
    &&& o.inv(0)
    &&& frame.payload_range.start <= frame.payload_range.end <= packet_data.len() <= usize::MAX
    &&& o.can_begin(frame)
}

/// A frame belongs to the connection between its two ends, whichever of them opened it; where none
/// is tracked, its sender opens one.
pub proof fn law_frame_finds_its_connection(
    o: OrchestratorModel,
    a: Endpoint,
    b: Endpoint,
    c: ConnectionModel,
)
    requires
        o.inv(0),
    ensures
        (o.connections.values().contains(c) && (c.client_endpoint == a && c.server_endpoint == b
            || c.client_endpoint == b && c.server_endpoint == a)) ==> o.connection_for(a, b) == c,
        o.connection_for(a, b) == o.connection_for(b, a) || !o.connections.contains_key(
            spec_conn_key(a, b),
        ),
        !o.connections.contains_key(spec_conn_key(a, b)) ==> {
            let new = o.connection_for(a, b);
            &&& new.client_endpoint == a
            &&& new.server_endpoint == b
            &&& new.state is None
            &&& new.tail_c2s.len() == 0 && new.tail_s2c.len() == 0
            &&& !new.desynced_c2s && !new.desynced_s2c
            &&& new.stream_c2s.base is None && new.stream_s2c.base is None
            &&& new.stream_c2s.next == 0 && new.stream_s2c.next == 0
            &&& new.stream_c2s.contiguous.len() == 0 && new.stream_s2c.contiguous.len() == 0
            &&& new.stream_c2s.limits == o.config.limits()
            &&& new.stream_s2c.limits == o.config.limits()
        },
{
    law_key_identifies_connection(a, b, b, a);
    if o.connections.values().contains(c) {
        let k = choose|k| #[trigger] o.connections.contains_key(k) && o.connections[k] == c;
        assert(o.connection_ok(k, o.connections[k]));
        law_key_identifies_connection(a, b, c.client_endpoint, c.server_endpoint);
    }
}

/// The connection a frame belongs to has the frame's two ends, and the frame goes from client to
/// server exactly if the client sent it.
pub proof fn law_frame_has_its_connections_ends(o: OrchestratorModel, frame: TcpFrame)
    requires
        o.inv(0),
    ensures
        ({
            let found = o.connection_for(sender(frame), receiver(frame));
            let c2s = sender(frame) == found.client_endpoint;
            found.endpoints(c2s) == (sender(frame), receiver(frame))
        }),
{
    let key = spec_conn_key(sender(frame), receiver(frame));
    let found = o.connection_for(sender(frame), receiver(frame));
    if o.connections.contains_key(key) {
        assert(o.connection_ok(key, o.connections[key]));
        law_key_identifies_connection(
            sender(frame),
            receiver(frame),
            found.client_endpoint,
            found.server_endpoint,
        );
    }
}

/// A payload that begins at the next expected byte is taken in whole, whatever the frame's flags:
/// what is ready grows by exactly these bytes, and by what had waited behind them. Nothing is
/// lost, told or counted, and the other direction is left alone.
pub proof fn law_in_order_payload_is_taken_in(
    o: OrchestratorModel,
    frame: TcpFrame,
    packet_index: usize,
    packet_data: Seq<u8>,
    timestamp: nat,
    now: nat,
    base: u32,
)
    requires
        takeable(o, frame, packet_data),
        frame.payload_range.start < frame.payload_range.end,
        ({
            let found = o.connection_for(sender(frame), receiver(frame));
            let c2s = sender(frame) == found.client_endpoint;
            &&& !found.desynced(c2s)
            &&& found.stream(c2s).base == Some(base)
            &&& frame.seq == seq_at(base, found.stream(c2s).next as int)
        }),
    ensures
        ({
            let found = o.connection_for(sender(frame), receiver(frame));
            let c2s = sender(frame) == found.client_endpoint;
            let before = found.stream(c2s);
            let payload = packet_data.subrange(
                frame.payload_range.start as int,
                frame.payload_range.end as int,
            );
            let (after, task) = o.begin(frame, packet_index, packet_data, timestamp, now);
            let stream = task.connection.stream(c2s);
            &&& task.c2s == c2s
            &&& (before.ready() + payload).is_prefix_of(stream.ready())
            &&& before.pending.dom().len() == 0 ==> stream.ready() == before.ready() + payload
            &&& stream.next >= before.next + payload.len()
            &&& stream.base == Some(base)
            &&& !task.connection.desynced(c2s)
            &&& task.connection.stream(!c2s) == found.stream(!c2s)
            &&& task.notices.len() == 0
            &&& after.counters == o.counters
            &&& task.stage is Next
        }),
{
    let found = o.connection_for(sender(frame), receiver(frame));
    let c2s = sender(frame) == found.client_endpoint;
    let before = found.stream(c2s);
    lemma_begin_ok(o, frame, packet_index, packet_data, timestamp, now);
    let payload = payload_of(frame, packet_data);
    let segment = SegmentModel { packet_index, start: frame.payload_range.start, data: payload };
    let flagged = o.flagged(found, c2s, frame, now);
    assert(flagged.stream(c2s) == before);
    let key = spec_conn_key(sender(frame), receiver(frame));
    if o.connections.contains_key(key) {
        assert(o.connection_ok(key, o.connections[key]));
    }
    law_in_order_is_delivered(before, base, frame.seq, segment, now);
    lemma_push_keeps_base(before, frame.seq, segment, now);
}

/// The first payload of a direction whose beginning was not seen is the stream's beginning: it is
/// ready at once, whole, whatever other flags the frame has.
pub proof fn law_first_payload_is_the_beginning(
    o: OrchestratorModel,
    frame: TcpFrame,
    packet_index: usize,
    packet_data: Seq<u8>,
    timestamp: nat,
    now: nat,
)
    requires
        takeable(o, frame, packet_data),
        frame.payload_range.start < frame.payload_range.end,
        !frame.flags.syn,
        !o.connections.contains_key(spec_conn_key(sender(frame), receiver(frame))),
    ensures
        ({
            let payload = packet_data.subrange(
                frame.payload_range.start as int,
                frame.payload_range.end as int,
            );
            let (after, task) = o.begin(frame, packet_index, packet_data, timestamp, now);
            let stream = task.connection.stream(true);
            &&& task.c2s
            &&& stream.base == Some(frame.seq)
            &&& stream.next == payload.len()
            &&& stream.ready() == payload
            &&& task.notices.len() == 0
            &&& after.counters == o.counters
        }),
{
    lemma_begin_ok(o, frame, packet_index, packet_data, timestamp, now);
    let found = o.connection_for(sender(frame), receiver(frame));
    let stream = found.stream(true);
    let payload = payload_of(frame, packet_data);
    let segment = SegmentModel { packet_index, start: frame.payload_range.start, data: payload };
    let anchored = stream.anchor(frame.seq);
    assert(!Map::<u64, SegmentModel>::empty().contains_key(first_key(Map::empty())));
    assert(segment.data.len() > 0);
    assert(anchored.push(frame.seq, segment, now) == stream.push(frame.seq, segment, now));
    law_in_order_is_delivered(anchored, frame.seq, frame.seq, segment, now);
    assert(anchored.ready() =~= Seq::empty());
    assert(anchored.ready() + payload =~= payload);
    assert(segment.trim(0).data =~= payload);
    let d = anchored.deliver(segment.trim(0));
    assert(d.pending =~= Map::empty());
    assert(!d.pending.contains_key(first_key(d.pending)));
}

/// In any other case, too, the payload is handed to its stream at the frame's sequence number: the
/// stream is then what pushing these bytes makes of it, unless the direction is given up with the
/// push. A SYN anchors the stream first.
pub proof fn law_payload_is_handed_to_its_stream(
    o: OrchestratorModel,
    frame: TcpFrame,
    packet_index: usize,
    packet_data: Seq<u8>,
    timestamp: nat,
    now: nat,
)
    requires
        frame.payload_range.start <= frame.payload_range.end <= packet_data.len() <= usize::MAX,
        ({
            let found = o.connection_for(sender(frame), receiver(frame));
            !found.desynced(sender(frame) == found.client_endpoint)
        }),
    ensures
        ({
            let found = o.connection_for(sender(frame), receiver(frame));
            let c2s = sender(frame) == found.client_endpoint;
            let before = found.stream(c2s);
            let anchored = if frame.flags.syn && before.base is None {
                StreamModel { base: Some(((frame.seq + 1) % 0x1_0000_0000) as u32), ..before }
            } else {
                before
            };
            let payload = packet_data.subrange(
                frame.payload_range.start as int,
                frame.payload_range.end as int,
            );
            let segment = SegmentModel {
                packet_index,
                start: frame.payload_range.start,
                data: payload,
            };
            let (after, task) = o.begin(frame, packet_index, packet_data, timestamp, now);
            let (pushed, outcome) = anchored.push(frame.seq, segment, now);
            &&& task.connection.desynced(c2s) <==> outcome is GapAbandoned && payload.len() > 0
            &&& !(outcome is GapAbandoned) ==> task.connection.stream(c2s) == pushed
            &&& payload.len() == 0 ==> task.connection.stream(c2s) == anchored
        }),
{
    if frame.seq < u32::MAX {
        assert((frame.seq + 1) % 0x1_0000_0000 == frame.seq + 1);
    }
}

/// No flag but SYN has a say in what becomes of the payload: two frames that differ in others
/// alone leave the same streams, tails and counts, and say the same.
pub proof fn law_flags_do_not_touch_the_payload(
    o: OrchestratorModel,
    frame: TcpFrame,
    flags: TcpFlags,
    packet_index: usize,
    packet_data: Seq<u8>,
    timestamp: nat,
    now: nat,
)
    requires
        flags.syn == frame.flags.syn,
    ensures
        ({
            let other = TcpFrame { flags, ..frame };
            let (after, task) = o.begin(frame, packet_index, packet_data, timestamp, now);
            let (after2, task2) = o.begin(other, packet_index, packet_data, timestamp, now);
            &&& after == after2
            &&& task2.connection == (ConnectionModel {
                meta: task2.connection.meta,
                ..task.connection
            })
            &&& task2 == (TaskModel { connection: task2.connection, ..task })
        }),
{
}

/// What a frame says of its connection's life is noted: a FIN for the direction it came in, a RST
/// for both, and the time.
pub proof fn law_frame_marks_its_connection(
    o: OrchestratorModel,
    frame: TcpFrame,
    packet_index: usize,
    packet_data: Seq<u8>,
    timestamp: nat,
    now: nat,
)
    ensures
        ({
            let found = o.connection_for(sender(frame), receiver(frame));
            let c2s = sender(frame) == found.client_endpoint;
            let (after, task) = o.begin(frame, packet_index, packet_data, timestamp, now);
            let meta = task.connection.meta;
            &&& meta.fin_seen_c2s <==> found.meta.fin_seen_c2s || (frame.flags.fin && c2s)
            &&& meta.fin_seen_s2c <==> found.meta.fin_seen_s2c || (frame.flags.fin && !c2s)
            &&& meta.rst_seen <==> found.meta.rst_seen || frame.flags.rst
            &&& meta.last_activity == Some(now)
            &&& meta.closed() <==> meta.rst_seen || (meta.fin_seen_c2s && meta.fin_seen_s2c)
            &&& task.timestamp == timestamp
            &&& task.now == now
            &&& task.messages.len() == 0
            &&& task.connection.client_endpoint == found.client_endpoint
            &&& task.connection.server_endpoint == found.server_endpoint
            &&& after.connections == o.connections.remove(
                spec_conn_key(sender(frame), receiver(frame)),
            )
            &&& after.config == o.config
            &&& after.keylog == o.keylog
            &&& after.last_sweep == o.last_sweep
            &&& after.last_lua_gc == o.last_lua_gc
            &&& after.logged_ports == o.logged_ports
        }),
{
}

/// A record is framed by its type, two bytes of version and the length of its body in two bytes,
/// high byte first; it is there once its last byte is.
pub proof fn law_record_is_framed(
    content_type: u8,
    version: Seq<u8>,
    hi: u8,
    lo: u8,
    body: Seq<u8>,
    rest: Seq<u8>,
    n: int,
)
    requires
        version.len() == 2,
        hi * 256 + lo == body.len(),
        0 <= n < 5 + body.len(),
    ensures
        first_record(seq![content_type] + version + seq![hi, lo] + body + rest) == Some(
            (content_type, body),
        ),
        first_record((seq![content_type] + version + seq![hi, lo] + body).take(n)) is None,
{
    let text = seq![content_type] + version + seq![hi, lo] + body + rest;
    assert(text[3] == hi && text[4] == lo);
    assert(text.subrange(5, 5 + body.len() as int) =~= body);
    let part = (seq![content_type] + version + seq![hi, lo] + body).take(n);
    if n >= 5 {
        assert(part[3] == hi && part[4] == lo);
    }
}

/// What becomes of a record that is not decrypted. A ChangeCipherSpec and the hello messages count
/// as plaintext handshake, a ClientHello gives the connection its state and a ServerHello adds its
/// random; without a ClientHello any other record counts as such. Nothing else moves, no message
/// comes of it, and the next record follows.
pub proof fn law_plaintext_records_are_sorted_out(
    o: OrchestratorModel,
    task: TaskModel,
    content_type: u8,
    body: Seq<u8>,
    header: Seq<u8>,
    random: Seq<u8>,
    rest: Seq<u8>,
)
    requires
        task.stage is Next,
        header.len() == 5,
        random.len() == 32,
    ensures
        ({
            let hello = |t: u8| seq![t] + header + random + rest;
            let handshake = Counters {
                tls_records_plaintext_handshake: (o.counters.tls_records_plaintext_handshake
                    + 1) as u64,
                ..o.counters
            };
            let unknown = Counters {
                tls_records_no_client_hello: (o.counters.tls_records_no_client_hello + 1) as u64,
                ..o.counters
            };
            let c = task.connection;
            &&& o.sort_out(task, 0x14, body) == (
                OrchestratorModel { counters: handshake, ..o },
                task,
                ActionModel::Continue,
            )
            &&& content_type != 0x14 && task.c2s && c.state is None ==> o.sort_out(
                task,
                content_type,
                hello(1),
            ) == (
                OrchestratorModel { counters: handshake, ..o },
                TaskModel {
                    connection: ConnectionModel {
                        state: Some(ConnectionStateModel::fresh(random)),
                        ..c
                    },
                    ..task
                },
                ActionModel::Continue,
            )
            &&& content_type != 0x14 && !task.c2s && c.state is Some
                && c.state->0.server_random is None ==> o.sort_out(task, content_type, hello(2))
                == (
                OrchestratorModel { counters: handshake, ..o },
                TaskModel {
                    connection: ConnectionModel {
                        state: Some(
                            ConnectionStateModel { server_random: Some(random), ..c.state->0 },
                        ),
                        ..c
                    },
                    ..task
                },
                ActionModel::Continue,
            )
            &&& content_type != 0x14 && c.state is None && (!task.c2s || body.len() < 38 || body[0]
                != 1) ==> o.sort_out(task, content_type, body) == (
                OrchestratorModel { counters: unknown, ..o },
                task,
                ActionModel::Continue,
            )
        }),
{
    law_random_follows_the_version(1, header, random, rest, 1);
    law_random_follows_the_version(2, header, random, rest, 2);
}

/// What becomes of a record that is tried with the keys known. One that opens counts as decrypted
/// and, if it is application data, goes to the dissector of the server's port behind what the last
/// dissection left; one without a key counts as such, and has the keylog file looked at where there
/// is one; one that no key opens counts as failed, and is told of.
pub proof fn law_tried_records_are_sorted_out(
    o: OrchestratorModel,
    task: TaskModel,
    content_type: u8,
    body: Seq<u8>,
)
    requires
        task.stage is Next,
        content_type != 0x14,
        task.connection.state is Some,
        task.c2s || task.connection.state->0.server_random is Some || body.len() < 38 || body[0]
            != 2,
        !o.keylog.due(task.now),
    ensures
        ({
            let state = task.connection.state->0;
            let (state2, result) = state.decrypt(o.keylog.current, task.c2s, content_type, body);
            let c = ConnectionModel { state: Some(state2), ..task.connection };
            let (after, next, action) = o.sort_out(task, content_type, body);
            let tail = if task.c2s {
                task.connection.tail_c2s
            } else {
                task.connection.tail_s2c
            };
            match result {
                Ok(record) => {
                    &&& after == (OrchestratorModel {
                        counters: Counters {
                            tls_records_decrypted: (o.counters.tls_records_decrypted + 1) as u64,
                            ..o.counters
                        },
                        ..o
                    })
                    &&& record.content_type == 0x17 ==> action == (ActionModel::Dissect {
                        port: task.connection.server_endpoint.port,
                        buffer: tail + record.plaintext,
                    }) && next.stage == (StageModel::AwaitDissect {
                        plaintext: record.plaintext,
                        buffer: tail + record.plaintext,
                    }) && next.connection == (if task.c2s {
                        ConnectionModel { tail_c2s: Seq::empty(), ..c }
                    } else {
                        ConnectionModel { tail_s2c: Seq::empty(), ..c }
                    }) && next.messages == task.messages && next.notices == task.notices
                    &&& record.content_type != 0x17 ==> action is Continue && next == (TaskModel {
                        connection: c,
                        ..task
                    })
                },
                Err(ProcessError::NoKey) => {
                    &&& after == (OrchestratorModel {
                        counters: Counters {
                            tls_records_nokey: (o.counters.tls_records_nokey + 1) as u64,
                            ..o.counters
                        },
                        ..o
                    })
                    &&& o.keylog.has_file ==> action is StatKeylog && next == (TaskModel {
                        connection: c,
                        stage: StageModel::AwaitStat,
                        ..task
                    })
                    &&& !o.keylog.has_file ==> action is Continue && next == (TaskModel {
                        connection: c,
                        ..task
                    })
                },
                Err(ProcessError::AuthFailed) => {
                    &&& after == (OrchestratorModel {
                        counters: Counters {
                            tls_records_authfailed: (o.counters.tls_records_authfailed + 1) as u64,
                            ..o.counters
                        },
                        ..o
                    })
                    &&& action is Continue
                    &&& next == (TaskModel {
                        connection: c,
                        notices: task.notices.push(Notice::AuthFailed),
                        ..task
                    })
                },
            }
        }),
{
}

/// Each record that is taken off the stream counts as seen, and is then sorted out as it stands,
/// the stream being shorter by it.
pub proof fn law_next_record_is_taken(
    o: OrchestratorModel,
    task: TaskModel,
    content_type: u8,
    version: Seq<u8>,
    hi: u8,
    lo: u8,
    body: Seq<u8>,
    rest: Seq<u8>,
) -> (taken: TaskModel)
    requires
        o.task_ok(task),
        task.stage is Next,
        version.len() == 2,
        hi * 256 + lo == body.len(),
        task.connection.stream(task.c2s).ready() == seq![content_type] + version + seq![hi, lo]
            + body + rest,
    ensures
        o.step(task, Event::Continue) == (OrchestratorModel {
            counters: Counters {
                tls_records_seen: (o.counters.tls_records_seen + 1) as u64,
                ..o.counters
            },
            ..o
        }).sort_out(taken, content_type, body),
        taken.connection.stream(task.c2s).ready() == rest,
        taken.connection.stream(task.c2s).next == task.connection.stream(task.c2s).next,
        taken.connection.stream(task.c2s).pending == task.connection.stream(task.c2s).pending,
        taken.connection.stream(!task.c2s) == task.connection.stream(!task.c2s),
        taken.connection.state == task.connection.state,
        taken.connection.tail(task.c2s) == task.connection.tail(task.c2s),
        taken.connection.client_endpoint == task.connection.client_endpoint,
        taken.connection.server_endpoint == task.connection.server_endpoint,
        taken == (TaskModel { connection: taken.connection, ..task }),
{
    let stream = task.connection.stream(task.c2s);
    let ready = stream.ready();
    law_record_is_framed(content_type, version, hi, lo, body, rest, 0);
    law_records_come_off_in_order(o, task);
    let shorter = StreamModel {
        contiguous: after_take(stream.contiguous, (5 + body.len()) as int),
        ..stream
    };
    law_take_keeps_invariant(stream, (5 + body.len()) as int);
    assert(ready.skip(5 + body.len() as int) =~= rest);
    TaskModel { connection: task.connection.with_stream(task.c2s, shorter), ..task }
}

/// The message of a record says where the record came from and went to, when, what it held and what
/// its dissector made of it.
pub proof fn law_message_says_what_the_record_was(
    o: OrchestratorModel,
    task: TaskModel,
    plaintext: Seq<u8>,
    buffer: Seq<u8>,
    outcome: DissectOutcome,
)
    requires
        task.stage == (StageModel::AwaitDissect { plaintext, buffer }),
    ensures
        ({
            let (after, next, action) = o.step(task, Event::Dissected(outcome));
            let client = task.connection.client_endpoint;
            let server = task.connection.server_endpoint;
            let fields = match outcome {
                DissectOutcome::Dissected { fields, .. } => fields@,
                _ => FieldsModel::empty(),
            };
            &&& action is Continue
            &&& next.stage is Next
            &&& task.c2s ==> next.messages == task.messages.push(
                MessageModel {
                    src_ip: client.ip,
                    src_port: client.port,
                    dst_ip: server.ip,
                    dst_port: server.port,
                    tls_app_data: plaintext,
                    fields,
                    timestamp: task.timestamp,
                },
            )
            &&& !task.c2s ==> next.messages == task.messages.push(
                MessageModel {
                    src_ip: server.ip,
                    src_port: server.port,
                    dst_ip: client.ip,
                    dst_port: client.port,
                    tls_app_data: plaintext,
                    fields,
                    timestamp: task.timestamp,
                },
            )
            &&& outcome is NoDissector && !o.logged_ports.contains(server.port) ==> next.notices
                == task.notices.push(Notice::NoDissector { port: server.port })
        }),
{
}

/// The keylog file is read before a record is tried, where its time has come; the record is then
/// tried with what was read. After a record without a key it is read again only where it changed,
/// and the next record is tried with what was read then.
pub proof fn law_keylog_is_read_in_time(
    o: OrchestratorModel,
    task: TaskModel,
    content_type: u8,
    body: Seq<u8>,
    read: Option<KeylogRead>,
    signature: FileSignature,
)
    requires
        task.connection.state is Some,
    ensures
        task.stage is Next && content_type != 0x14 && (task.c2s
            || task.connection.state->0.server_random is Some || body.len() < 38 || body[0] != 2)
            && o.keylog.due(task.now) ==> o.sort_out(task, content_type, body) == (
            o,
            task.at(StageModel::AwaitKeylog { content_type, body }),
            ActionModel::ReadKeylog,
        ),
        task.stage == (StageModel::AwaitKeylog { content_type, body }) ==> o.step(
            task,
            Event::KeylogRead(read),
        ) == (OrchestratorModel { keylog: o.keylog.reloaded(task.now, read), ..o }).decrypt(
            task,
            content_type,
            body,
        ),
        task.stage is AwaitStat && o.keylog.has_file && signature != o.keylog.last_seen ==> o.step(
            task,
            Event::KeylogStat(signature),
        ) == (o, TaskModel { stage: StageModel::AwaitReload, ..task }, ActionModel::ReadKeylog),
        task.stage is AwaitStat && !(o.keylog.has_file && signature != o.keylog.last_seen)
            ==> o.step(task, Event::KeylogStat(signature)) == (
            o,
            TaskModel { stage: StageModel::Next, ..task },
            ActionModel::Continue,
        ),
        task.stage is AwaitReload ==> o.step(task, Event::KeylogRead(read)) == (
            OrchestratorModel { keylog: o.keylog.reloaded(task.now, read), ..o },
            TaskModel { stage: StageModel::Next, ..task },
            ActionModel::Continue,
        ),
{
}

/// With an idle timeout a sweep comes once the sweep interval has passed since the last, and drops
/// the connections that have been without traffic for the timeout; without one, never. The script
/// engine's garbage is collected once its interval has passed.
pub proof fn law_upkeep_follows_the_clock(o: OrchestratorModel, c: ConnectionModel, now: nat)
    ensures
        forall|timeout: nat|
            timeout > 0 ==> (#[trigger] OrchestratorModel::idle(c, timeout, now)
                <==> c.meta.last_activity is Some && now >= c.meta.last_activity->0 + timeout),
        o.config.idle_timeout is None ==> o.swept(now) == o,
        o.config.idle_timeout is Some && now < o.last_sweep + o.config.sweep_interval@ && now
            >= o.last_sweep ==> o.swept(now) == o,
        o.config.idle_timeout is Some && now >= o.last_sweep + o.config.sweep_interval@ ==> o.swept(
            now,
        ).last_sweep == now,
        o.config.lua_gc_interval@ > 0 ==> (o.gc_due(now) <==> now >= o.last_lua_gc
            + o.config.lua_gc_interval@),
{
}

/// Ending a frame collects the garbage where it is due, and notes when.
pub proof fn law_garbage_is_collected_in_time(o: OrchestratorModel, task: TaskModel)
    requires
        o.config.lua_gc_interval@ > 0,
    ensures
        task.now >= o.last_lua_gc + o.config.lua_gc_interval@ ==> o.end(task).last_lua_gc
            == task.now,
        task.now < o.last_lua_gc + o.config.lua_gc_interval@ ==> o.end(task).last_lua_gc
            == o.last_lua_gc,
{
}

/// The names of a frame's flags are those that are set, in the order syn, ack, fin, rst, psh.
pub proof fn law_flags_are_named_in_order(flags: TcpFlags)
    ensures
        flag_names(flags) == seq![
            (flags.syn, "syn"@),
            (flags.ack, "ack"@),
            (flags.fin, "fin"@),
            (flags.rst, "rst"@),
            (flags.psh, "psh"@),
        ].filter(|p: (bool, Seq<char>)| p.0).map_values(|p: (bool, Seq<char>)| p.1),
{
    let set = |p: (bool, Seq<char>)| p.0;
    let name = |p: (bool, Seq<char>)| p.1;
    let s5 = seq![
        (flags.syn, "syn"@),
        (flags.ack, "ack"@),
        (flags.fin, "fin"@),
        (flags.rst, "rst"@),
        (flags.psh, "psh"@),
    ];
    let s4 = s5.drop_last();
    let s3 = s4.drop_last();
    let s2 = s3.drop_last();
    let s1 = s2.drop_last();
    let s0 = s1.drop_last();
    reveal(Seq::filter);
    assert(s0.filter(set) =~= Seq::empty());
    assert(s1.filter(set).map_values(name) =~= s0.filter(set).map_values(name)
        + if_set(flags.syn, "syn"@));
    assert(s2.filter(set).map_values(name) =~= s1.filter(set).map_values(name)
        + if_set(flags.ack, "ack"@));
    assert(s3.filter(set).map_values(name) =~= s2.filter(set).map_values(name)
        + if_set(flags.fin, "fin"@));
    assert(s4.filter(set).map_values(name) =~= s3.filter(set).map_values(name)
        + if_set(flags.rst, "rst"@));
    assert(s5.filter(set).map_values(name) =~= s4.filter(set).map_values(name)
        + if_set(flags.psh, "psh"@));
    assert(flag_names(flags) =~= s5.filter(set).map_values(name));
}

/// The event of a frame says what the frame's own fields say.
pub proof fn law_event_mirrors_the_frame(event: PacketEvent, frame: TcpFrame, timestamp: Duration)
    requires
        is_event_of(event, frame, timestamp),
    ensures
        event.src_ip == frame.src_ip && event.src_port == frame.src_port,
        event.dst_ip == frame.dst_ip && event.dst_port == frame.dst_port,
        event.seq == frame.seq && event.ack == frame.ack_number,
        event.payload_len + frame.payload_range.start == frame.payload_range.end,
        event.timestamp@ == timestamp@,
        texts(event.flags@) == flag_names(frame.flags),
{
}

/// The bytes buffered are those of all connections together: one more connection adds its own, each
/// direction's that are ready and that are held behind a gap.
pub proof fn law_buffered_bytes_add_up(
    m: Map<ConnKey, ConnectionModel>,
    k: ConnKey,
    c: ConnectionModel,
)
    requires
        m.dom().finite(),
        !m.contains_key(k),
    ensures
        total_buffered(m.insert(k, c)) == total_buffered(m) + c.stream_c2s.ready().len()
            + held_bytes(c.stream_c2s.pending) + c.stream_s2c.ready().len() + held_bytes(
            c.stream_s2c.pending,
        ),
        total_buffered(Map::empty()) == 0,
{
    lemma_total_remove(m.insert(k, c), k);
    assert(m.insert(k, c).remove(k) =~= m);
}

/// A frame can be taken in, a record worked off and a frame ended, unless a number of the machine
/// would run over.
pub proof fn law_only_the_machines_numbers_limit_the_work(
    o: OrchestratorModel,
    frame: TcpFrame,
    task: TaskModel,
)
    ensures
        ({
            let found = o.connection_for(sender(frame), receiver(frame));
            let stream = found.stream(sender(frame) == found.client_endpoint);
            let len = frame.payload_range.end - frame.payload_range.start;
            let total = stream.ready().len() + held_bytes(stream.pending) + len;
            o.can_begin(frame) <==> {
                &&& len <= 0x7fff_ffff_ffff_ffff
                &&& total <= usize::MAX
                &&& stream.next + 0x8000_0000 + len <= u64::MAX
                &&& o.counters.gap_abandoned_bytes + total <= u64::MAX
                &&& o.counters.connections_desynced + 1 <= u64::MAX
            }
        }),
        o.counters.tls_records_seen + 1 <= u64::MAX && !(task.stage is AwaitDissect) ==> o.can_step(
            task,
        ),
        o.counters.tls_records_seen + 1 <= u64::MAX && task.stage is AwaitDissect
            && o.counters.tail_bytes_discarded + task.stage->AwaitDissect_buffer.len() <= u64::MAX
            ==> o.can_step(task),
        o.counters.evicted_connections + o.connections.dom().len() < u64::MAX ==> o.can_end(),
{
}

/// A dissection that failed leaves what one leaves that consumed nothing; one that consumed all it
/// was handed, or says it consumed more, leaves nothing and loses nothing.
pub proof fn law_unconsumed_bytes_are_left(
    o: OrchestratorModel,
    task: TaskModel,
    plaintext: Seq<u8>,
    buffer: Seq<u8>,
    fields: FrameFields,
    consumed: usize,
)
    ensures
        ({
            let failed = o.dissected(task, plaintext, buffer, DissectOutcome::Failed);
            let idle = o.dissected(
                task,
                plaintext,
                buffer,
                DissectOutcome::Dissected { fields, consumed: 0 },
            );
            &&& failed.0 == idle.0
            &&& failed.1.connection == idle.1.connection
            &&& failed.1.notices == idle.1.notices
        }),
        consumed >= buffer.len() ==> {
            let done = o.dissected(
                task,
                plaintext,
                buffer,
                DissectOutcome::Dissected { fields, consumed },
            );
            &&& done.0 == o
            &&& done.1.connection.tail(task.c2s).len() == 0
            &&& done.1.notices == task.notices
        },
{
    assert(buffer.skip(0) =~= buffer);
}

/// The connections that a sweep drops are counted as evicted, and told of where there are any.
pub proof fn law_swept_are_counted_and_told(o: OrchestratorModel, now: nat)
    requires
        o.connections.dom().finite(),
        o.counters.evicted_connections + o.connections.dom().len() <= u64::MAX,
    ensures
        ({
            let after = o.swept(now);
            let gone = o.connections.dom().len() - after.connections.dom().len();
            &&& gone >= 0
            &&& after.counters.evicted_connections == o.counters.evicted_connections + gone
            &&& gone > 0 ==> o.sweep_notice(now) == seq![
                Notice::IdleSwept { connections: gone as u64 },
            ]
            &&& gone == 0 ==> o.sweep_notice(now).len() == 0
            &&& after.counters == (Counters {
                evicted_connections: after.counters.evicted_connections,
                ..o.counters
            })
        }),
{
    let after = o.swept(now);
    assert(after.connections.dom().subset_of(o.connections.dom()));
    vstd::set_lib::lemma_len_subset(after.connections.dom(), o.connections.dom());
}

/// Ending a frame files its connection, unless that is closed, and then sweeps: afterwards exactly
/// those connections are tracked that were, and the frame's own, but for the closed one and those
/// that a sweep finds idle.
pub proof fn law_frame_ends_with_filing_and_sweeping(
    o: OrchestratorModel,
    task: TaskModel,
    k: ConnKey,
)
    requires
        !o.connections.contains_key(task.key),
    ensures
        ({
            let after = o.end(task).connections;
            let sweeps = o.config.idle_timeout is Some && (task.now >= o.last_sweep
                + o.config.sweep_interval@ || o.config.sweep_interval@ == 0);
            let timeout = o.config.idle_timeout->0@;
            let idle = |c: ConnectionModel|
                sweeps && c.meta.last_activity is Some && (timeout == 0 || task.now
                    >= c.meta.last_activity->0 + timeout);
            let closed = task.connection.meta.rst_seen || (task.connection.meta.fin_seen_c2s
                && task.connection.meta.fin_seen_s2c);
            &&& k != task.key ==> (after.contains_key(k) <==> o.connections.contains_key(k)
                && !idle(o.connections[k]))
            &&& k != task.key && after.contains_key(k) ==> after[k] == o.connections[k]
            &&& after.contains_key(task.key) <==> !closed && !idle(task.connection)
            &&& after.contains_key(task.key) ==> after[task.key] == task.connection
        }),
{
}

} // verus!
