//! The orchestrator's vocabulary, and the model that says what each operation does.

use std::rc::Rc;
use vstd::prelude::*;
use crate::connection::{law_one_counter_moves, ConnectionStateModel, ProcessError};
use crate::keylog_source::{FileSignature, KeylogRead, SourceModel};
use crate::lua::tree::FieldsModel;
use crate::lua::FrameFields;
use crate::net::IpAddr;
use crate::orchestrator::connections::{
    law_key_identifies_connection, spec_conn_key, ConnKey, ConnectionModel, Endpoint,
};
use crate::pcap_input::{TcpFlags, TcpFrame};
use crate::reassembly::laws::{
    law_push_keeps_invariant, law_push_reports_its_losses, law_take_keeps_invariant,
};
use crate::reassembly::{
    after_take, first_key, held_bytes, PendingLimits, PushOutcome, SegmentModel, StreamModel,
    DEFAULT_MAX_PENDING_AGE_SECS, DEFAULT_MAX_PENDING_BYTES, DEFAULT_MAX_PENDING_PACKETS,
    HALF_WINDOW, MAX_SEGMENT_LEN,
};
use crate::time::{elapsed, Duration, NANOS_PER_SEC};
use crate::tls12::hello_random;

verus! {

/// One decrypted record's message, ready to be written out.
pub struct DecodedMessage {
    pub src_ip: IpAddr,
    pub dst_ip: IpAddr,
    pub src_port: u16,
    pub dst_port: u16,
    /// The record's decrypted bytes.
    pub tls_app_data: Vec<u8>,
    /// What the dissector recorded.
    pub fields: FrameFields,
    /// The capture time of the packet that completed the record.
    pub timestamp: Duration,
}

/// What a `DecodedMessage` holds.
pub struct MessageModel {
    pub src_ip: IpAddr,
    pub dst_ip: IpAddr,
    pub src_port: u16,
    pub dst_port: u16,
    pub tls_app_data: Seq<u8>,
    pub fields: FieldsModel,
    pub timestamp: nat,
}

impl View for DecodedMessage {
    type V = MessageModel;

    open spec fn view(&self) -> MessageModel {
        MessageModel {
            src_ip: self.src_ip,
            dst_ip: self.dst_ip,
            src_port: self.src_port,
            dst_port: self.dst_port,
            tls_app_data: self.tls_app_data@,
            fields: self.fields@,
            timestamp: self.timestamp@,
        }
    }
}

/// One TCP frame's own event, for every frame, whether or not it carries TLS data: the only trace
/// that a RST, a FIN or a bare ACK leaves. It carries no payload.
pub struct PacketEvent {
    pub src_ip: IpAddr,
    pub dst_ip: IpAddr,
    pub src_port: u16,
    pub dst_port: u16,
    pub seq: u32,
    pub ack: u32,
    /// The flags that are set, always in the order syn, ack, fin, rst, psh.
    pub flags: Vec<&'static str>,
    pub payload_len: usize,
    pub timestamp: Duration,
}

/// The texts of a run of string slices.
pub open spec fn texts(strs: Seq<&'static str>) -> Seq<Seq<char>> {
    strs.map_values(|s: &'static str| s@)
}

pub open spec fn if_set(set: bool, name: Seq<char>) -> Seq<Seq<char>> {
    if set {
        seq![name]
    } else {
        Seq::empty()
    }
}

/// The names of the flags that are set, in the order syn, ack, fin, rst, psh.
pub open spec fn flag_names(flags: TcpFlags) -> Seq<Seq<char>> {
    if_set(flags.syn, "syn"@) + if_set(flags.ack, "ack"@) + if_set(flags.fin, "fin"@) + if_set(
        flags.rst,
        "rst"@,
    ) + if_set(flags.psh, "psh"@)
}

fn push_if(out: &mut Vec<&'static str>, set: bool, name: &'static str)
    ensures
        texts(final(out)@) == texts(old(out)@) + if_set(set, name@),
{
    if set {
        out.push(name);
    }
    assert(texts(out@) =~= texts(old(out)@) + if_set(set, name@));
}

/// The names of the flags that are set, in their fixed order.
pub fn canonical_flags(flags: &TcpFlags) -> (out: Vec<&'static str>)
    ensures
        texts(out@) == flag_names(*flags),
{
    let mut out: Vec<&'static str> = Vec::new();
    push_if(&mut out, flags.syn, "syn");
    push_if(&mut out, flags.ack, "ack");
    push_if(&mut out, flags.fin, "fin");
    push_if(&mut out, flags.rst, "rst");
    push_if(&mut out, flags.psh, "psh");
    assert(texts(out@) =~= flag_names(*flags));
    out
}

pub const DEFAULT_MAX_TAIL_BYTES: usize = 1024 * 1024;

pub struct OrchestratorConfig {
    /// Connections without traffic for this long are dropped, if set.
    pub idle_timeout: Option<Duration>,
    /// How often idle connections are looked for.
    pub sweep_interval: Duration,
    pub max_pending_bytes: usize,
    pub max_pending_packets: usize,
    pub max_pending_age: Duration,
    /// The most that is kept of what a dissector left over.
    pub max_tail_bytes: usize,
    /// How often the script engine is made to collect its garbage.
    pub lua_gc_interval: Duration,
}

impl OrchestratorConfig {
    pub open spec fn limits(self) -> PendingLimits {
        PendingLimits {
            max_bytes: self.max_pending_bytes,
            max_packets: self.max_pending_packets,
            max_age: self.max_pending_age,
        }
    }

    pub fn pending_limits(&self) -> (limits: PendingLimits)
        ensures
            limits == self.limits(),
    {
        PendingLimits {
            max_bytes: self.max_pending_bytes,
            max_packets: self.max_pending_packets,
            max_age: self.max_pending_age,
        }
    }
}

impl Default for OrchestratorConfig {
    fn default() -> (config: OrchestratorConfig)
        ensures
            config.idle_timeout is None,
            config.sweep_interval@ == 60 * NANOS_PER_SEC,
            config.max_pending_bytes == DEFAULT_MAX_PENDING_BYTES,
            config.max_pending_packets == DEFAULT_MAX_PENDING_PACKETS,
            config.max_pending_age@ == DEFAULT_MAX_PENDING_AGE_SECS * NANOS_PER_SEC,
            config.max_tail_bytes == DEFAULT_MAX_TAIL_BYTES,
            config.lua_gc_interval@ == 5 * NANOS_PER_SEC,
    {
        OrchestratorConfig {
            idle_timeout: None,
            sweep_interval: Duration::from_secs(60),
            max_pending_bytes: DEFAULT_MAX_PENDING_BYTES,
            max_pending_packets: DEFAULT_MAX_PENDING_PACKETS,
            max_pending_age: Duration::from_secs(DEFAULT_MAX_PENDING_AGE_SECS),
            max_tail_bytes: DEFAULT_MAX_TAIL_BYTES,
            lua_gc_interval: Duration::from_secs(5),
        }
    }
}

/// Something worth telling an operator about.
#[derive(Clone, Copy, Debug, PartialEq, Eq, Structural)]
pub enum Notice {
    /// A direction lost this many bytes to a gap that never closed.
    GapAbandoned { bytes: usize },
    /// The direction is given up: no further record is parsed in it.
    Desynced,
    /// A record failed to authenticate and is discarded.
    AuthFailed,
    /// A tail was over its limit, and this many of its oldest bytes were dropped.
    TailDiscarded { bytes: usize },
    /// No dissector is registered for this port. Told once per port.
    NoDissector { port: u16 },
    /// This many idle connections were dropped.
    IdleSwept { connections: u64 },
}

/// The running counts.
#[derive(Clone, Copy, Debug, PartialEq, Eq, Structural)]
pub struct Counters {
    pub evicted_connections: u64,
    pub gap_abandoned_bytes: u64,
    pub tail_bytes_discarded: u64,
    pub connections_desynced: u64,
    pub tls_records_seen: u64,
    pub tls_records_decrypted: u64,
    pub tls_records_authfailed: u64,
    pub tls_records_nokey: u64,
    pub tls_records_no_client_hello: u64,
    pub tls_records_plaintext_handshake: u64,
}

/// What became of a record.
#[derive(Clone, Copy, Debug, PartialEq, Eq, Structural)]
pub enum Fate {
    Decrypted,
    AuthFailed,
    NoKey,
    NoClientHello,
    PlaintextHandshake,
}

impl Counters {
    pub open spec fn zero() -> Counters {
        Counters {
            evicted_connections: 0,
            gap_abandoned_bytes: 0,
            tail_bytes_discarded: 0,
            connections_desynced: 0,
            tls_records_seen: 0,
            tls_records_decrypted: 0,
            tls_records_authfailed: 0,
            tls_records_nokey: 0,
            tls_records_no_client_hello: 0,
            tls_records_plaintext_handshake: 0,
        }
    }

    pub open spec fn record_seen(self) -> Counters {
        Counters { tls_records_seen: (self.tls_records_seen + 1) as u64, ..self }
    }

    pub open spec fn tally(self, fate: Fate) -> Counters {
        match fate {
            Fate::Decrypted => Counters {
                tls_records_decrypted: (self.tls_records_decrypted + 1) as u64,
                ..self
            },
            Fate::AuthFailed => Counters {
                tls_records_authfailed: (self.tls_records_authfailed + 1) as u64,
                ..self
            },
            Fate::NoKey => Counters {
                tls_records_nokey: (self.tls_records_nokey + 1) as u64,
                ..self
            },
            Fate::NoClientHello => Counters {
                tls_records_no_client_hello: (self.tls_records_no_client_hello + 1) as u64,
                ..self
            },
            Fate::PlaintextHandshake => Counters {
                tls_records_plaintext_handshake: (self.tls_records_plaintext_handshake + 1) as u64,
                ..self
            },
        }
    }

    /// The records whose fate is known.
    pub open spec fn tallied(self) -> int {
        self.tls_records_decrypted + self.tls_records_authfailed + self.tls_records_nokey
            + self.tls_records_no_client_hello + self.tls_records_plaintext_handshake
    }
}

/// What an `Orchestrator` holds.
pub struct OrchestratorModel {
    pub connections: Map<ConnKey, ConnectionModel>,
    pub keylog: SourceModel,
    pub config: OrchestratorConfig,
    pub last_sweep: nat,
    pub last_lua_gc: nat,
    pub logged_ports: Set<u16>,
    pub counters: Counters,
}

/// Where the work on a frame stands: about to take the next record; waiting for the keylog file
/// to be read before this record is decrypted; waiting for the file's signature after a record
/// found no key; waiting for the file to be read after that; waiting for the dissection of
/// `buffer`, the tail before and this record's plaintext; or done.
pub enum StageModel {
    Next,
    AwaitKeylog { content_type: u8, body: Seq<u8> },
    AwaitStat,
    AwaitReload,
    AwaitDissect { plaintext: Seq<u8>, buffer: Seq<u8> },
    Done,
}

/// What came of handing bytes to a dissector.
pub enum DissectOutcome {
    /// No dissector is registered for the port.
    NoDissector,
    /// The dissector failed.
    Failed,
    Dissected { fields: FrameFields, consumed: usize },
}

/// What is handed back to `step`.
pub enum Event {
    /// Nothing: go on.
    Continue,
    /// What reading the keylog file gave, if it could be read.
    KeylogRead(Option<KeylogRead>),
    /// The keylog file's signature.
    KeylogStat(FileSignature),
    Dissected(DissectOutcome),
}

/// What `step` asks for.
pub enum Action {
    /// Nothing: call `step` again with `Event::Continue`.
    Continue,
    /// Read the keylog file and hand back `Event::KeylogRead`.
    ReadKeylog,
    /// Look at the keylog file and hand back `Event::KeylogStat`.
    StatKeylog,
    /// Dissect `buffer` with the dissector registered for `port` and hand back
    /// `Event::Dissected`.
    Dissect { port: u16, buffer: Rc<Vec<u8>> },
    /// Call `end_frame`.
    Done,
}

/// What an `Action` says.
pub enum ActionModel {
    Continue,
    ReadKeylog,
    StatKeylog,
    Dissect { port: u16, buffer: Seq<u8> },
    Done,
}

impl View for Action {
    type V = ActionModel;

    open spec fn view(&self) -> ActionModel {
        match *self {
            Action::Continue => ActionModel::Continue,
            Action::ReadKeylog => ActionModel::ReadKeylog,
            Action::StatKeylog => ActionModel::StatKeylog,
            Action::Dissect { port, buffer } => ActionModel::Dissect { port, buffer: buffer@ },
            Action::Done => ActionModel::Done,
        }
    }
}

/// What a `FrameTask` holds.
pub struct TaskModel {
    pub key: ConnKey,
    pub connection: ConnectionModel,
    pub c2s: bool,
    pub timestamp: nat,
    pub now: nat,
    pub messages: Seq<MessageModel>,
    pub notices: Seq<Notice>,
    pub stage: StageModel,
}

pub open spec fn message_models(messages: Seq<DecodedMessage>) -> Seq<MessageModel> {
    messages.map_values(|m: DecodedMessage| m@)
}

/// The first whole record of a stream: its type and its body.
pub open spec fn first_record(ready: Seq<u8>) -> Option<(u8, Seq<u8>)> {
    if ready.len() < 5 {
        None
    } else {
        let len = ready[3] * 256 + ready[4];
        if ready.len() < 5 + len {
            None
        } else {
            Some((ready[0], ready.subrange(5, 5 + len)))
        }
    }
}

impl TaskModel {
    /// The event is the answer to what the last step asked for.
    pub open spec fn expects(self, event: Event) -> bool {
        match self.stage {
            StageModel::Next => event is Continue,
            StageModel::AwaitKeylog { .. } => event is KeylogRead,
            StageModel::AwaitStat => event is KeylogStat,
            StageModel::AwaitReload => event is KeylogRead,
            StageModel::AwaitDissect { .. } => event is Dissected,
            StageModel::Done => false,
        }
    }

    pub open spec fn at(self, stage: StageModel) -> TaskModel {
        TaskModel { stage, ..self }
    }

    pub open spec fn noting(self, notice: Notice) -> TaskModel {
        TaskModel { notices: self.notices.push(notice), ..self }
    }

    /// Sets the tail to the last `max` bytes of `bytes`, noting what was dropped.
    pub open spec fn with_capped_tail(self, bytes: Seq<u8>, max: usize) -> TaskModel {
        if bytes.len() > max {
            TaskModel {
                connection: self.connection.with_tail(self.c2s, bytes.skip(bytes.len() - max)),
                ..self.noting(Notice::TailDiscarded { bytes: (bytes.len() - max) as usize })
            }
        } else {
            TaskModel { connection: self.connection.with_tail(self.c2s, bytes), ..self }
        }
    }

    /// The message of a record with this plaintext.
    pub open spec fn emit(self, plaintext: Seq<u8>, fields: FieldsModel) -> TaskModel {
        let (src, dst) = self.connection.endpoints(self.c2s);
        TaskModel {
            messages: self.messages.push(
                MessageModel {
                    src_ip: src.ip,
                    dst_ip: dst.ip,
                    src_port: src.port,
                    dst_port: dst.port,
                    tls_app_data: plaintext,
                    fields,
                    timestamp: self.timestamp,
                },
            ),
            ..self
        }
    }
}

/// How many bytes a tail of `len` bytes drops to keep within `max`.
pub open spec fn dropped(len: nat, max: usize) -> nat {
    if len > max {
        (len - max) as nat
    } else {
        0
    }
}

impl OrchestratorModel {
    pub open spec fn tally(self, fate: Fate) -> OrchestratorModel {
        OrchestratorModel { counters: self.counters.tally(fate), ..self }
    }

    /// What always holds: every tracked connection is in order and filed under its own identity,
    /// and every record seen is accounted for but for those still `open`.
    pub open spec fn inv(self, open: int) -> bool {
        &&& self.connections.dom().finite()
        &&& forall|k: ConnKey| #[trigger]
            self.connections.contains_key(k) ==> self.connection_ok(k, self.connections[k])
        &&& self.counters.tallied() + open == self.counters.tls_records_seen
    }

    pub open spec fn connection_ok(self, k: ConnKey, c: ConnectionModel) -> bool {
        &&& c.inv(
            self.config.limits(),
            self.config.max_tail_bytes,
            self.counters.tls_records_decrypted,
        )
        &&& k == spec_conn_key(c.client_endpoint, c.server_endpoint)
    }

    //--------------------------------------------------------------------------------------
    // Taking a frame in.
    //--------------------------------------------------------------------------------------

    /// The connection that a frame belongs to: the one tracked, or a new one that the frame's
    /// sender opens.
    pub open spec fn connection_for(self, src: Endpoint, dst: Endpoint) -> ConnectionModel {
        let key = spec_conn_key(src, dst);
        if self.connections.contains_key(key) {
            self.connections[key]
        } else {
            ConnectionModel::fresh(src, dst, self.config.limits())
        }
    }

    /// The connection once the frame's flags are taken in: a SYN anchors the stream at the byte
    /// after it.
    pub open spec fn flagged(
        self,
        connection: ConnectionModel,
        c2s: bool,
        frame: TcpFrame,
        now: nat,
    ) -> ConnectionModel {
        let anchored = if frame.flags.syn {
            connection.with_stream(
                c2s,
                connection.stream(c2s).anchor(
                    if frame.seq == u32::MAX {
                        0
                    } else {
                        (frame.seq + 1) as u32
                    },
                ),
            )
        } else {
            connection
        };
        ConnectionModel {
            meta: anchored.meta.seen(c2s, frame.flags.fin, frame.flags.rst, now),
            ..anchored
        }
    }

    /// Takes a frame in: its connection leaves the table for the time of the work on it. The
    /// payload goes to the stream, unless the direction is given up; a gap that is abandoned gives
    /// it up.
    pub open spec fn begin(
        self,
        frame: TcpFrame,
        packet_index: usize,
        packet_data: Seq<u8>,
        timestamp: nat,
        now: nat,
    ) -> (OrchestratorModel, TaskModel) {
        let src = Endpoint { ip: frame.src_ip, port: frame.src_port };
        let dst = Endpoint { ip: frame.dst_ip, port: frame.dst_port };
        let key = spec_conn_key(src, dst);
        let found = self.connection_for(src, dst);
        let c2s = src == found.client_endpoint;
        let flagged = self.flagged(found, c2s, frame, now);
        let payload = packet_data.subrange(
            frame.payload_range.start as int,
            frame.payload_range.end as int,
        );
        let taken = OrchestratorModel { connections: self.connections.remove(key), ..self };
        let task = TaskModel {
            key,
            connection: flagged,
            c2s,
            timestamp,
            now,
            messages: Seq::empty(),
            notices: Seq::empty(),
            stage: StageModel::Next,
        };
        if payload.len() == 0 || flagged.desynced(c2s) {
            (taken, task)
        } else {
            taken.pushed(task, packet_index, frame, payload)
        }
    }

    /// Hands a payload to its stream.
    pub open spec fn pushed(
        self,
        task: TaskModel,
        packet_index: usize,
        frame: TcpFrame,
        payload: Seq<u8>,
    ) -> (OrchestratorModel, TaskModel) {
        let (stream, outcome) = task.connection.stream(task.c2s).push(
            frame.seq,
            SegmentModel { packet_index, start: frame.payload_range.start, data: payload },
            task.now,
        );
        let connection = task.connection.with_stream(task.c2s, stream);
        match outcome {
            PushOutcome::GapAbandoned { bytes } => (
                OrchestratorModel {
                    counters: Counters {
                        gap_abandoned_bytes: (self.counters.gap_abandoned_bytes + bytes) as u64,
                        connections_desynced: (self.counters.connections_desynced + 1) as u64,
                        ..self.counters
                    },
                    ..self
                },
                TaskModel { connection: connection.give_up(task.c2s), ..task }.noting(
                    Notice::GapAbandoned { bytes },
                ).noting(Notice::Desynced),
            ),
            _ => (self, TaskModel { connection, ..task }),
        }
    }

    /// There is room for the frame: the machine's numbers can count what its stream then holds,
    /// and what may be lost.
    pub open spec fn can_begin(self, frame: TcpFrame) -> bool {
        let src = Endpoint { ip: frame.src_ip, port: frame.src_port };
        let dst = Endpoint { ip: frame.dst_ip, port: frame.dst_port };
        let found = self.connection_for(src, dst);
        let stream = found.stream(src == found.client_endpoint);
        let total = stream.ready().len() + held_bytes(stream.pending) + frame.payload_range.end
            - frame.payload_range.start;
        &&& frame.payload_range.end - frame.payload_range.start <= MAX_SEGMENT_LEN
        &&& total <= usize::MAX
        &&& stream.next + HALF_WINDOW + frame.payload_range.end - frame.payload_range.start
            <= u64::MAX
        &&& self.counters.gap_abandoned_bytes + total <= u64::MAX
        &&& self.counters.connections_desynced < u64::MAX
    }

    //--------------------------------------------------------------------------------------
    // Working off records.
    //--------------------------------------------------------------------------------------

    /// There is room to count one more record and what a tail may drop.
    pub open spec fn can_step(self, task: TaskModel) -> bool {
        &&& self.counters.tls_records_seen < u64::MAX
        &&& task.stage matches StageModel::AwaitDissect { buffer, .. }
            ==> self.counters.tail_bytes_discarded + buffer.len() <= u64::MAX
    }

    /// Decrypts a record, and takes application data on to its dissection, behind what the last
    /// one left over.
    pub open spec fn decrypt(self, task: TaskModel, content_type: u8, body: Seq<u8>) -> (
        OrchestratorModel,
        TaskModel,
        ActionModel,
    ) {
        let (connection, result) = task.connection.decrypt(
            self.keylog.current,
            task.c2s,
            content_type,
            body,
        );
        let after = TaskModel { connection, ..task };
        match result {
            Ok(record) => if record.content_type == 0x17 {
                let buffer = connection.tail(task.c2s) + record.plaintext;
                (
                    self.tally(Fate::Decrypted),
                    TaskModel {
                        connection: connection.with_tail(task.c2s, Seq::empty()),
                        ..after
                    }.at(StageModel::AwaitDissect { plaintext: record.plaintext, buffer }),
                    ActionModel::Dissect { port: connection.server_endpoint.port, buffer },
                )
            } else {
                (self.tally(Fate::Decrypted), after.at(StageModel::Next), ActionModel::Continue)
            },
            Err(ProcessError::NoKey) => if self.keylog.has_file {
                (self.tally(Fate::NoKey), after.at(StageModel::AwaitStat), ActionModel::StatKeylog)
            } else {
                (self.tally(Fate::NoKey), after.at(StageModel::Next), ActionModel::Continue)
            },
            Err(ProcessError::AuthFailed) => (
                self.tally(Fate::AuthFailed),
                after.noting(Notice::AuthFailed).at(StageModel::Next),
                ActionModel::Continue,
            ),
        }
    }

    /// What the record is, as its connection stands: the hello messages and ChangeCipherSpec are
    /// never encrypted, and without a ClientHello nothing can be decrypted.
    pub open spec fn sort_out(self, task: TaskModel, content_type: u8, body: Seq<u8>) -> (
        OrchestratorModel,
        TaskModel,
        ActionModel,
    ) {
        let connection = task.connection;
        if content_type == 0x14 {
            (self.tally(Fate::PlaintextHandshake), task, ActionModel::Continue)
        } else if task.c2s && connection.state is None && hello_random(body, 0x01) is Some {
            (
                self.tally(Fate::PlaintextHandshake),
                TaskModel {
                    connection: ConnectionModel {
                        state: Some(
                            ConnectionStateModel::fresh(
                                hello_random(body, 0x01)->0,
                            ),
                        ),
                        ..connection
                    },
                    ..task
                },
                ActionModel::Continue,
            )
        } else if !task.c2s && hello_random(body, 0x02) is Some && (connection.state matches Some(
            state,
        ) && state.server_random is None) {
            (
                self.tally(Fate::PlaintextHandshake),
                TaskModel {
                    connection: ConnectionModel {
                        state: Some(
                            connection.state->0.with_server_random(hello_random(body, 0x02)->0),
                        ),
                        ..connection
                    },
                    ..task
                },
                ActionModel::Continue,
            )
        } else if connection.state is None {
            (self.tally(Fate::NoClientHello), task, ActionModel::Continue)
        } else if self.keylog.due(task.now) {
            (self, task.at(StageModel::AwaitKeylog { content_type, body }), ActionModel::ReadKeylog)
        } else {
            self.decrypt(task, content_type, body)
        }
    }

    /// Takes the next record off the stream, if it is all there.
    pub open spec fn next(self, task: TaskModel) -> (OrchestratorModel, TaskModel, ActionModel) {
        let stream = task.connection.stream(task.c2s);
        match first_record(stream.ready()) {
            None => (self, task.at(StageModel::Done), ActionModel::Done),
            Some((content_type, body)) => {
                let rest = StreamModel {
                    contiguous: after_take(stream.contiguous, (5 + body.len()) as int),
                    ..stream
                };
                OrchestratorModel { counters: self.counters.record_seen(), ..self }.sort_out(
                    TaskModel {
                        connection: task.connection.with_stream(task.c2s, rest),
                        ..task
                    },
                    content_type,
                    body,
                )
            },
        }
    }

    /// Takes a dissection in: what was not consumed is kept for the next record, unless no
    /// dissector will ever ask for it. Whatever came of the dissection, there is one message.
    pub open spec fn dissected(
        self,
        task: TaskModel,
        plaintext: Seq<u8>,
        buffer: Seq<u8>,
        outcome: DissectOutcome,
    ) -> (OrchestratorModel, TaskModel) {
        let max = self.config.max_tail_bytes;
        let port = task.connection.server_endpoint.port;
        let next = task.at(StageModel::Next);
        let discarding = |len: nat| OrchestratorModel {
            counters: Counters {
                tail_bytes_discarded: (self.counters.tail_bytes_discarded + dropped(
                    len,
                    max,
                )) as u64,
                ..self.counters
            },
            ..self
        };
        match outcome {
            DissectOutcome::NoDissector => (
                OrchestratorModel { logged_ports: self.logged_ports.insert(port), ..self },
                if self.logged_ports.contains(port) {
                    next
                } else {
                    next.noting(Notice::NoDissector { port })
                }.emit(plaintext, FieldsModel::empty()),
            ),
            DissectOutcome::Failed => (
                discarding(buffer.len()),
                next.with_capped_tail(buffer, max).emit(plaintext, FieldsModel::empty()),
            ),
            DissectOutcome::Dissected { fields, consumed } => {
                let left = buffer.skip(
                    if consumed < buffer.len() {
                        consumed as int
                    } else {
                        buffer.len() as int
                    },
                );
                (
                    discarding(left.len()),
                    next.with_capped_tail(left, max).emit(plaintext, fields@),
                )
            },
        }
    }

    /// One step of the work on a frame.
    pub open spec fn step(self, task: TaskModel, event: Event) -> (
        OrchestratorModel,
        TaskModel,
        ActionModel,
    ) {
        match (task.stage, event) {
            (StageModel::Next, Event::Continue) => self.next(task),
            (StageModel::AwaitKeylog { content_type, body }, Event::KeylogRead(read)) => {
                OrchestratorModel {
                    keylog: self.keylog.reloaded(task.now, read),
                    ..self
                }.decrypt(task, content_type, body)
            },
            (StageModel::AwaitStat, Event::KeylogStat(signature)) => if self.keylog.changed(
                signature,
            ) {
                (self, task.at(StageModel::AwaitReload), ActionModel::ReadKeylog)
            } else {
                (self, task.at(StageModel::Next), ActionModel::Continue)
            },
            (StageModel::AwaitReload, Event::KeylogRead(read)) => (
                OrchestratorModel { keylog: self.keylog.reloaded(task.now, read), ..self },
                task.at(StageModel::Next),
                ActionModel::Continue,
            ),
            (StageModel::AwaitDissect { plaintext, buffer }, Event::Dissected(outcome)) => {
                let (after, next) = self.dissected(task, plaintext, buffer, outcome);
                (after, next, ActionModel::Continue)
            },
            _ => (self, task, ActionModel::Done),
        }
    }

    /// How many records seen the task has not accounted for yet.
    pub open spec fn open_records(task: TaskModel) -> int {
        if task.stage is AwaitKeylog {
            1
        } else {
            0
        }
    }

    /// The work on a frame and the rest fit together: the task's connection is in order and out
    /// of the table, and a record that waits is a record's size.
    pub open spec fn task_ok(self, task: TaskModel) -> bool {
        &&& self.inv(OrchestratorModel::open_records(task))
        &&& self.connection_ok(task.key, task.connection)
        &&& !self.connections.contains_key(task.key)
        &&& task.stage matches StageModel::AwaitKeylog { body, .. } ==> body.len() <= 0xffff
            && task.connection.state is Some
        &&& task.stage is AwaitDissect ==> task.connection.tail(task.c2s).len() == 0
    }

    //--------------------------------------------------------------------------------------
    // Ending a frame.
    //--------------------------------------------------------------------------------------

    /// The table after the work on a frame: a closed connection is evicted, any other goes back.
    pub open spec fn filed(self, task: TaskModel) -> OrchestratorModel {
        if task.connection.meta.closed() {
            OrchestratorModel {
                counters: Counters {
                    evicted_connections: (self.counters.evicted_connections + 1) as u64,
                    ..self.counters
                },
                ..self
            }
        } else {
            OrchestratorModel {
                connections: self.connections.insert(task.key, task.connection),
                ..self
            }
        }
    }

    /// A connection has been idle for too long.
    pub open spec fn idle(connection: ConnectionModel, timeout: nat, now: nat) -> bool {
        connection.meta.last_activity matches Some(t) && elapsed(t, now) >= timeout
    }

    /// The keys of the connections that are not idle.
    pub open spec fn lively(self, timeout: nat, now: nat) -> Set<ConnKey> {
        self.connections.dom().filter(
            |k: ConnKey| !OrchestratorModel::idle(self.connections[k], timeout, now),
        )
    }

    /// Drops idle connections, where that is asked for and its time has come.
    pub open spec fn swept(self, now: nat) -> OrchestratorModel {
        match self.config.idle_timeout {
            Some(timeout) if elapsed(self.last_sweep, now) >= self.config.sweep_interval@ => {
                let kept = self.connections.restrict(self.lively(timeout@, now));
                OrchestratorModel {
                    connections: kept,
                    last_sweep: now,
                    counters: Counters {
                        evicted_connections: (self.counters.evicted_connections
                            + self.connections.dom().len() - kept.dom().len()) as u64,
                        ..self.counters
                    },
                    ..self
                }
            },
            _ => self,
        }
    }

    /// How many connections are dropped for being idle.
    pub open spec fn sweep_count(self, now: nat) -> int {
        self.connections.dom().len() - self.swept(now).connections.dom().len()
    }

    /// What is said about it.
    pub open spec fn sweep_notice(self, now: nat) -> Seq<Notice> {
        if self.sweep_count(now) > 0 {
            seq![Notice::IdleSwept { connections: self.sweep_count(now) as u64 }]
        } else {
            Seq::empty()
        }
    }

    /// The evictions that ending a frame may bring can be counted.
    pub open spec fn can_end(self) -> bool {
        self.counters.evicted_connections + self.connections.dom().len() + 1 <= u64::MAX
    }

    /// The script engine's garbage is to be collected.
    pub open spec fn gc_due(self, now: nat) -> bool {
        elapsed(self.last_lua_gc, now) >= self.config.lua_gc_interval@
    }

    /// The state after a frame.
    pub open spec fn end(self, task: TaskModel) -> OrchestratorModel {
        let swept = self.filed(task).swept(task.now);
        if swept.gc_due(task.now) {
            OrchestratorModel { last_lua_gc: task.now, ..swept }
        } else {
            swept
        }
    }
}

/// The event that a frame is, with its capture time.
pub open spec fn is_event_of(event: PacketEvent, frame: TcpFrame, timestamp: Duration) -> bool {
    &&& event.src_ip == frame.src_ip
    &&& event.dst_ip == frame.dst_ip
    &&& event.src_port == frame.src_port
    &&& event.dst_port == frame.dst_port
    &&& event.seq == frame.seq
    &&& event.ack == frame.ack_number
    &&& texts(event.flags@) == flag_names(frame.flags)
    &&& event.payload_len == frame.payload_range.end - frame.payload_range.start
    &&& event.timestamp == timestamp
}

/// The bytes that the streams of all connections hold.
pub open spec fn total_buffered(m: Map<ConnKey, ConnectionModel>) -> nat
    decreases m.dom().len(),
{
    if m.dom().finite() && m.dom().len() > 0 {
        let k = m.dom().choose();
        m[k].buffered() + total_buffered(m.remove(k))
    } else {
        0
    }
}

pub(crate) proof fn lemma_total_remove(m: Map<ConnKey, ConnectionModel>, k: ConnKey)
    requires
        m.dom().finite(),
        m.contains_key(k),
    ensures
        total_buffered(m) == m[k].buffered() + total_buffered(m.remove(k)),
    decreases m.dom().len(),
{
    let c = m.dom().choose();
    if c != k {
        lemma_total_remove(m.remove(c), k);
        lemma_total_remove(m.remove(k), c);
        assert(m.remove(c).remove(k) =~= m.remove(k).remove(c));
    }
}

/// A frame that was taken in leaves everything in order.
pub(crate) proof fn lemma_begin_ok(
    o: OrchestratorModel,
    frame: TcpFrame,
    packet_index: usize,
    packet_data: Seq<u8>,
    timestamp: nat,
    now: nat,
)
    requires
        o.inv(0),
        frame.payload_range.start <= frame.payload_range.end <= packet_data.len(),
        packet_data.len() <= usize::MAX,
        o.can_begin(frame),
    ensures
        ({
            let (after, task) = o.begin(frame, packet_index, packet_data, timestamp, now);
            after.task_ok(task)
        }),
        ({
            let src = Endpoint { ip: frame.src_ip, port: frame.src_port };
            let dst = Endpoint { ip: frame.dst_ip, port: frame.dst_port };
            let found = o.connection_for(src, dst);
            let c2s = src == found.client_endpoint;
            let stream = o.flagged(found, c2s, frame, now).stream(c2s);
            &&& stream.inv()
            &&& stream.limits == o.config.limits()
            &&& stream.ready() == found.stream(c2s).ready()
            &&& stream.pending == found.stream(c2s).pending
        }),
{
    let src = Endpoint { ip: frame.src_ip, port: frame.src_port };
    let dst = Endpoint { ip: frame.dst_ip, port: frame.dst_port };
    let key = spec_conn_key(src, dst);
    lemma_fresh_holds_nothing(o.config.limits());
    law_key_identifies_connection(src, dst, src, dst);
    let found = o.connection_for(src, dst);
    assert(o.connection_ok(key, found));
    let c2s = src == found.client_endpoint;
    let flagged = o.flagged(found, c2s, frame, now);
    let payload = packet_data.subrange(
        frame.payload_range.start as int,
        frame.payload_range.end as int,
    );
    let segment = SegmentModel { packet_index, start: frame.payload_range.start, data: payload };
    law_push_keeps_invariant(
        flagged.stream(c2s),
        frame.seq,
        segment,
        now,
    );
    law_push_reports_its_losses(
        flagged.stream(c2s),
        frame.seq,
        segment,
        now,
    );
    let (after, task) = o.begin(frame, packet_index, packet_data, timestamp, now);
    assert forall|k: ConnKey| #[trigger] after.connections.contains_key(k) implies after.connection_ok(
        k,
        after.connections[k],
    ) by {
        assert(o.connections.contains_key(k));
    }
}

/// Ending a frame keeps everything in order.
pub(crate) proof fn lemma_end_ok(o: OrchestratorModel, task: TaskModel)
    requires
        o.task_ok(task),
        task.stage is Done,
        o.can_end(),
    ensures
        o.end(task).inv(0),
        o.filed(task).connections.dom().finite(),
        o.filed(task).counters.evicted_connections + o.filed(task).connections.dom().len()
            <= u64::MAX,
{
    let filed = o.filed(task);
    assert forall|k: ConnKey| #[trigger] filed.connections.contains_key(k) implies filed.connection_ok(
        k,
        filed.connections[k],
    ) by {
        if k != task.key {
            assert(o.connection_ok(k, o.connections[k]));
        }
    }
    let end = o.end(task);
    assert forall|k: ConnKey| #[trigger] end.connections.contains_key(k) implies end.connection_ok(
        k,
        end.connections[k],
    ) by {
        assert(filed.connections.contains_key(k));
        assert(filed.connection_ok(k, filed.connections[k]));
    }
    assert(end.connections.dom().subset_of(filed.connections.dom()));
    vstd::set_lib::lemma_set_subset_finite(filed.connections.dom(), end.connections.dom());
}

/// Decrypting a record that was counted as seen accounts for it and keeps everything in order.
pub(crate) proof fn lemma_decrypt_ok(o: OrchestratorModel, task: TaskModel, content_type: u8, body: Seq<u8>)
    requires
        o.inv(1),
        o.connection_ok(task.key, task.connection),
        !o.connections.contains_key(task.key),
        task.connection.state is Some,
        o.counters.tls_records_seen <= u64::MAX,
    ensures
        ({
            let (after, next, action) = o.decrypt(task, content_type, body);
            after.task_ok(next)
        }),
{
    let state = task.connection.state->0;
    law_one_counter_moves(state, o.keylog.current, task.c2s, content_type, body);
    let (after, next, action) = o.decrypt(task, content_type, body);
    assert forall|k: ConnKey| #[trigger] after.connections.contains_key(k) implies after.connection_ok(
        k,
        after.connections[k],
    ) by {
        assert(o.connections.contains_key(k));
        assert(o.connection_ok(k, o.connections[k]));
    }
}

/// A step keeps everything in order.
pub(crate) proof fn lemma_step_ok(o: OrchestratorModel, task: TaskModel, event: Event)
    requires
        o.task_ok(task),
        o.can_step(task),
        task.expects(event),
    ensures
        ({
            let (after, next, action) = o.step(task, event);
            after.task_ok(next)
        }),
{
    match (task.stage, event) {
        (StageModel::Next, Event::Continue) => {
            let stream = task.connection.stream(task.c2s);
            match first_record(stream.ready()) {
                None => {},
                Some((content_type, body)) => {
                    law_take_keeps_invariant(
                        stream,
                        (5 + body.len()) as int,
                    );
                    let rest = StreamModel {
                        contiguous: after_take(stream.contiguous, (5 + body.len()) as int),
                        ..stream
                    };
                    let seen = OrchestratorModel { counters: o.counters.record_seen(), ..o };
                    let taken = TaskModel {
                        connection: task.connection.with_stream(task.c2s, rest),
                        ..task
                    };
                    assert(seen.inv(1)) by {
                        assert forall|k: ConnKey| #[trigger]
                            seen.connections.contains_key(k) implies seen.connection_ok(
                            k,
                            seen.connections[k],
                        ) by {
                            assert(o.connection_ok(k, o.connections[k]));
                        }
                    }
                    lemma_sort_out_ok(seen, taken, content_type, body);
                },
            }
        },
        (StageModel::AwaitKeylog { content_type, body }, Event::KeylogRead(read)) => {
            let reloaded = OrchestratorModel {
                keylog: o.keylog.reloaded(task.now, read),
                ..o
            };
            assert(reloaded.inv(1)) by {
                assert forall|k: ConnKey| #[trigger]
                    reloaded.connections.contains_key(k) implies reloaded.connection_ok(
                    k,
                    reloaded.connections[k],
                ) by {
                    assert(o.connection_ok(k, o.connections[k]));
                }
            }
            lemma_decrypt_ok(reloaded, task, content_type, body);
        },
        _ => {
            let (after, next, action) = o.step(task, event);
            assert forall|k: ConnKey| #[trigger]
                after.connections.contains_key(k) implies after.connection_ok(
                k,
                after.connections[k],
            ) by {
                assert(o.connection_ok(k, o.connections[k]));
            }
        },
    }
}

pub(crate) proof fn lemma_sort_out_ok(o: OrchestratorModel, task: TaskModel, content_type: u8, body: Seq<u8>)
    requires
        o.inv(1),
        o.connection_ok(task.key, task.connection),
        !o.connections.contains_key(task.key),
        task.stage is Next,
        body.len() <= 0xffff,
    ensures
        ({
            let (after, next, action) = o.sort_out(task, content_type, body);
            after.task_ok(next)
        }),
{
    if task.connection.state is Some {
        lemma_decrypt_ok(o, task, content_type, body);
    }
    let (after, next, action) = o.sort_out(task, content_type, body);
    assert forall|k: ConnKey| #[trigger] after.connections.contains_key(k) implies after.connection_ok(
        k,
        after.connections[k],
    ) by {
        assert(o.connections.contains_key(k));
        assert(o.connection_ok(k, o.connections[k]));
    }
}

pub(crate) proof fn lemma_fresh_holds_nothing(limits: PendingLimits)
    ensures
        StreamModel::fresh(limits).ready().len() == 0,
        held_bytes(StreamModel::fresh(limits).pending) == 0,
        StreamModel::fresh(limits).inv(),
{
    let m = StreamModel::fresh(limits);
    assert(!m.pending.contains_key(first_key(m.pending)));
    assert(m.pending.dom() =~= Set::empty());
}

} // verus!
