//! The core: a TCP frame is reassembled, its records are decrypted and dissected, and messages
//! come out. Connection state never grows without bound, and is never dropped while a connection
//! is alive: FIN and RST drive eviction.
//!
//! A frame is worked off in steps. `begin_frame` takes the frame in; `step` takes one record off
//! the stream, or goes on with the one at hand, and says what it needs next from outside (the
//! keylog file, a dissection); `end_frame` puts the connection back or evicts it.

pub mod connections;
pub mod frames;
pub mod intake;
pub mod laws;
pub mod model;

use std::collections::{BTreeMap, BTreeSet};
use std::rc::Rc;
use vstd::prelude::*;
use vstd::slice::slice_subrange;
use vstd::std_specs::btree::{increasing_seq, spec_btree_map_iter};
use vstd::std_specs::cmp::OrdSpec;
use vstd::std_specs::iter::IteratorSpec;
use crate::bytes::{append_bytes, copy_bytes, copy_range};
use crate::connection::{client_random_from_client_hello, ProcessError};
use crate::keylog::distinct_randoms;
use crate::keylog_source::KeylogSource;
use crate::lua::FrameFields;
use crate::orchestrator::connections::{
    conn_key, spec_conn_key, ConnKey, Connection, ConnectionModel, Endpoint,
};
use crate::orchestrator::model::{
    dropped, is_event_of, lemma_begin_ok, lemma_end_ok, lemma_fresh_holds_nothing, lemma_step_ok,
    lemma_total_remove, message_models, total_buffered, Counters, Fate, OrchestratorModel,
    StageModel, TaskModel,
};
use crate::pcap_input::TcpFrame;
use crate::reassembly::laws::law_push_reports_its_losses;
use crate::reassembly::{held_bytes, PushOutcome, SegmentModel, HALF_WINDOW, MAX_SEGMENT_LEN};
use crate::time::{elapsed_between, Clock, Duration};
use crate::tls12::server_random_from_server_hello;

pub use crate::orchestrator::model::{
    canonical_flags, Action, DecodedMessage, DissectOutcome, Event, Notice, OrchestratorConfig,
    PacketEvent, DEFAULT_MAX_TAIL_BYTES,
};

verus! {

/// Tracks all connections.
pub struct Orchestrator {
    connections: BTreeMap<ConnKey, Connection>,
    keylog: KeylogSource,
    config: OrchestratorConfig,
    clock: Clock,
    last_sweep: Duration,
    last_lua_gc: Duration,
    logged_no_dissector_ports: BTreeSet<u16>,
    /// Connections dropped on their close, or for being idle.
    pub evicted_connections: u64,
    /// Bytes lost to gaps that never closed.
    pub gap_abandoned_bytes: u64,
    /// Bytes dropped off tails over their limit.
    pub tail_bytes_discarded: u64,
    /// Directions given up for good.
    pub connections_desynced: u64,
    /// Records taken off the streams; the five counts below add up to it.
    pub tls_records_seen: u64,
    pub tls_records_decrypted: u64,
    /// Records that no available key opened.
    pub tls_records_authfailed: u64,
    /// Records for which a key was missing.
    pub tls_records_nokey: u64,
    /// Records of connections whose ClientHello was not captured.
    pub tls_records_no_client_hello: u64,
    /// ClientHello, ServerHello and ChangeCipherSpec records, which are never encrypted.
    pub tls_records_plaintext_handshake: u64,
}

spec fn connection_models(m: Map<ConnKey, Connection>) -> Map<ConnKey, ConnectionModel> {
    m.map_values(|c: Connection| c@)
}

impl View for Orchestrator {
    type V = OrchestratorModel;

    closed spec fn view(&self) -> OrchestratorModel {
        OrchestratorModel {
            connections: connection_models(self.connections@),
            keylog: self.keylog@,
            config: self.config,
            last_sweep: self.last_sweep@,
            last_lua_gc: self.last_lua_gc@,
            logged_ports: self.logged_no_dissector_ports@,
            counters: Counters {
                evicted_connections: self.evicted_connections,
                gap_abandoned_bytes: self.gap_abandoned_bytes,
                tail_bytes_discarded: self.tail_bytes_discarded,
                connections_desynced: self.connections_desynced,
                tls_records_seen: self.tls_records_seen,
                tls_records_decrypted: self.tls_records_decrypted,
                tls_records_authfailed: self.tls_records_authfailed,
                tls_records_nokey: self.tls_records_nokey,
                tls_records_no_client_hello: self.tls_records_no_client_hello,
                tls_records_plaintext_handshake: self.tls_records_plaintext_handshake,
            },
        }
    }
}

/// Where the work on a frame stands.
enum Stage {
    Next,
    AwaitKeylog { content_type: u8, body: Vec<u8> },
    AwaitStat,
    AwaitReload,
    AwaitDissect { plaintext: Vec<u8>, buffer: Rc<Vec<u8>> },
    Done,
}

impl View for Stage {
    type V = StageModel;

    closed spec fn view(&self) -> StageModel {
        match *self {
            Stage::Next => StageModel::Next,
            Stage::AwaitKeylog { content_type, body } => StageModel::AwaitKeylog {
                content_type,
                body: body@,
            },
            Stage::AwaitStat => StageModel::AwaitStat,
            Stage::AwaitReload => StageModel::AwaitReload,
            Stage::AwaitDissect { plaintext, buffer } => StageModel::AwaitDissect {
                plaintext: plaintext@,
                buffer: buffer@,
            },
            Stage::Done => StageModel::Done,
        }
    }
}

/// The work on one frame, with the connection that it belongs to.
pub struct FrameTask {
    key: ConnKey,
    connection: Connection,
    is_client_to_server: bool,
    timestamp: Duration,
    now: Duration,
    messages: Vec<DecodedMessage>,
    notices: Vec<Notice>,
    stage: Stage,
}

impl View for FrameTask {
    type V = TaskModel;

    closed spec fn view(&self) -> TaskModel {
        TaskModel {
            key: self.key,
            connection: self.connection@,
            c2s: self.is_client_to_server,
            timestamp: self.timestamp@,
            now: self.now@,
            messages: message_models(self.messages@),
            notices: self.notices@,
            stage: self.stage@,
        }
    }
}

/// What the work on a frame came to.
pub struct FrameResult {
    pub messages: Vec<DecodedMessage>,
    pub notices: Vec<Notice>,
    /// The script engine's garbage is to be collected now.
    pub collect_garbage: bool,
}

impl FrameTask {
    /// The connection's streams are in states that their operations reach.
    pub closed spec fn wf(&self) -> bool {
        self.connection.wf()
    }

    /// Which connection the frame belongs to, the client's endpoint first.
    pub fn endpoints(&self) -> (pair: (Endpoint, Endpoint))
        ensures
            pair.0 == self@.connection.client_endpoint,
            pair.1 == self@.connection.server_endpoint,
    {
        (self.connection.client_endpoint(), self.connection.server_endpoint())
    }

    pub fn is_client_to_server(&self) -> (c2s: bool)
        ensures
            c2s == self@.c2s,
    {
        self.is_client_to_server
    }
}

impl Orchestrator {
    /// The table's connections are in states that their operations reach.
    pub closed spec fn wf(&self) -> bool {
        forall|k: ConnKey| #[trigger] self.connections@.contains_key(k) ==> self.connections@[k].wf()
    }

    pub fn new(keylog: KeylogSource, config: OrchestratorConfig) -> (o: Orchestrator)
        ensures
            o.wf(),
            o@.inv(0),
            o@ == (OrchestratorModel {
                connections: Map::empty(),
                keylog: keylog@,
                config,
                last_sweep: 0,
                last_lua_gc: 0,
                logged_ports: Set::empty(),
                counters: Counters::zero(),
            }),
    {
        let o = Orchestrator {
            connections: BTreeMap::new(),
            keylog,
            config,
            clock: Clock::start(),
            last_sweep: Duration::zero(),
            last_lua_gc: Duration::zero(),
            logged_no_dissector_ports: BTreeSet::new(),
            evicted_connections: 0,
            gap_abandoned_bytes: 0,
            tail_bytes_discarded: 0,
            connections_desynced: 0,
            tls_records_seen: 0,
            tls_records_decrypted: 0,
            tls_records_authfailed: 0,
            tls_records_nokey: 0,
            tls_records_no_client_hello: 0,
            tls_records_plaintext_handshake: 0,
        };
        proof {
            assert(o@.connections =~= Map::empty());
            assert(o@.connections.dom() =~= Set::empty());
        }
        o
    }

    /// The running counts, as the public fields have them.
    pub fn counters(&self) -> (counters: Counters)
        ensures
            counters == self@.counters,
    {
        Counters {
            evicted_connections: self.evicted_connections,
            gap_abandoned_bytes: self.gap_abandoned_bytes,
            tail_bytes_discarded: self.tail_bytes_discarded,
            connections_desynced: self.connections_desynced,
            tls_records_seen: self.tls_records_seen,
            tls_records_decrypted: self.tls_records_decrypted,
            tls_records_authfailed: self.tls_records_authfailed,
            tls_records_nokey: self.tls_records_nokey,
            tls_records_no_client_hello: self.tls_records_no_client_hello,
            tls_records_plaintext_handshake: self.tls_records_plaintext_handshake,
        }
    }

    /// The number of connections tracked.
    pub fn active_connections(&self) -> (n: usize)
        ensures
            n == self@.connections.dom().len(),
    {
        assert(self.connections@.dom() =~= self@.connections.dom());
        self.connections.len()
    }

    /// The number of client randoms that the keylog knows secrets for.
    pub fn keylog_entries(&self) -> (n: usize)
        ensures
            n == distinct_randoms(self@.keylog.current),
    {
        self.keylog.current().entry_count()
    }

    pub fn config(&self) -> (config: &OrchestratorConfig)
        ensures
            *config == self@.config,
    {
        &self.config
    }

    /// The tracked connection of this identity.
    pub fn connection(&self, key: ConnKey) -> (connection: Option<&Connection>)
        requires
            self.wf(),
        ensures
            match connection {
                Some(connection) => {
                    &&& connection.wf()
                    &&& self@.connections.contains_key(key)
                    &&& connection@ == self@.connections[key]
                },
                None => !self@.connections.contains_key(key),
            },
    {
        self.connections.get(&key)
    }

    /// The present reading of this orchestrator's clock.
    pub fn now(&self) -> Duration {
        self.clock.now()
    }

    /// Whether there is room for the frame; see `OrchestratorModel::can_begin`.
    pub fn can_begin(&self, frame: &TcpFrame) -> (yes: bool)
        requires
            self.wf(),
            frame.payload_range.start <= frame.payload_range.end,
        ensures
            yes == self@.can_begin(*frame),
    {
        let src = Endpoint { ip: frame.src_ip, port: frame.src_port };
        let dst = Endpoint { ip: frame.dst_ip, port: frame.dst_port };
        let key = conn_key(src, dst);
        let payload_len: usize = frame.payload_range.end - frame.payload_range.start;
        let (held, delivered): (u128, u64) = match self.connections.get(&key) {
            Some(connection) => {
                let c2s = src == connection.client_endpoint();
                let stream = connection.reassembler(c2s);
                (
                    stream.contiguous_len() as u128 + stream.pending_len() as u128,
                    stream.delivered_len(),
                )
            },
            None => {
                proof {
                    lemma_fresh_holds_nothing(self@.config.limits());
                }
                (0, 0)
            },
        };
        let total: u128 = held + payload_len as u128;
        payload_len as u128 <= MAX_SEGMENT_LEN as u128 && total <= usize::MAX as u128
            && delivered as u128 + HALF_WINDOW as u128 + payload_len as u128 <= u64::MAX as u128
            && self.gap_abandoned_bytes as u128 + total <= u64::MAX as u128
            && self.connections_desynced < u64::MAX
    }
}

impl Orchestrator {
    /// Takes a frame in, at the present reading of this orchestrator's clock.
    pub fn begin_frame(
        &mut self,
        frame: &TcpFrame,
        packet_index: usize,
        packet_data: &[u8],
        timestamp: Duration,
    ) -> (begun: (PacketEvent, FrameTask))
        requires
            old(self).wf(),
            old(self)@.inv(0),
            frame.payload_range.start <= frame.payload_range.end <= packet_data@.len(),
            old(self)@.can_begin(*frame),
        ensures
            final(self).wf(),
            begun.1.wf(),
            final(self)@.task_ok(begun.1@),
            is_event_of(begun.0, *frame, timestamp),
            exists|now: nat|
                (final(self)@, begun.1@) == #[trigger] old(self)@.begin(
                    *frame,
                    packet_index,
                    packet_data@,
                    timestamp@,
                    now,
                ),
    {
        let now = self.clock.now();
        self.begin_frame_at(frame, packet_index, packet_data, timestamp, now)
    }

    /// Takes a frame in at the clock reading `now`. Returns the frame's own event, and the task of
    /// working it off.
    pub fn begin_frame_at(
        &mut self,
        frame: &TcpFrame,
        packet_index: usize,
        packet_data: &[u8],
        timestamp: Duration,
        now: Duration,
    ) -> (begun: (PacketEvent, FrameTask))
        requires
            old(self).wf(),
            old(self)@.inv(0),
            frame.payload_range.start <= frame.payload_range.end <= packet_data@.len(),
            old(self)@.can_begin(*frame),
        ensures
            final(self).wf(),
            begun.1.wf(),
            final(self)@.task_ok(begun.1@),
            is_event_of(begun.0, *frame, timestamp),
            (final(self)@, begun.1@) == old(self)@.begin(
                *frame,
                packet_index,
                packet_data@,
                timestamp@,
                now@,
            ),
    {
        let ghost before = self@;
        let event = packet_event(frame, timestamp);
        let src = Endpoint { ip: frame.src_ip, port: frame.src_port };
        let dst = Endpoint { ip: frame.dst_ip, port: frame.dst_port };
        let key = conn_key(src, dst);
        let mut connection = self.take_connection(src, dst, key);
        let ghost found = connection@;
        let c2s = src == connection.client_endpoint();
        if frame.flags.syn {
            connection.reassembler_for(c2s).set_isn(frame.seq.wrapping_add(1));
        }
        connection.note_segment(c2s, frame.flags.fin, frame.flags.rst, now);
        assert(connection@ == before.flagged(found, c2s, *frame, now@));
        let payload = slice_subrange(
            packet_data,
            frame.payload_range.start,
            frame.payload_range.end,
        );
        let mut task = FrameTask {
            key,
            connection,
            is_client_to_server: c2s,
            timestamp,
            now,
            messages: Vec::new(),
            notices: Vec::new(),
            stage: Stage::Next,
        };
        proof {
            assert(task@.messages =~= Seq::empty());
            assert(task@.notices =~= Seq::empty());
            assert(packet_data@.len() <= packet_data.len());
            lemma_begin_ok(before, *frame, packet_index, packet_data@, timestamp@, now@);
        }
        if payload.len() > 0 && !task.connection.is_desynced(c2s) {
            self.push_payload(&mut task, packet_index, frame, payload);
        }
        (event, task)
    }

    /// Takes a connection out of the table, or makes a new one.
    fn take_connection(&mut self, src: Endpoint, dst: Endpoint, key: ConnKey) -> (connection:
        Connection)
        requires
            old(self).wf(),
            key == spec_conn_key(src, dst),
        ensures
            final(self).wf(),
            connection.wf(),
            connection@ == old(self)@.connection_for(src, dst),
            final(self)@ == (OrchestratorModel {
                connections: old(self)@.connections.remove(key),
                ..old(self)@
            }),
    {
        let limits = self.config.pending_limits();
        let connection = match self.connections.remove(&key) {
            Some(connection) => connection,
            None => Connection::new(src, dst, limits),
        };
        assert(self@.connections =~= old(self)@.connections.remove(key));
        connection
    }

    /// Hands a frame's payload to its stream; a gap that is abandoned gives the direction up.
    fn push_payload(
        &mut self,
        task: &mut FrameTask,
        packet_index: usize,
        frame: &TcpFrame,
        payload: &[u8],
    )
        requires
            old(self).wf(),
            old(task).wf(),
            old(task)@.connection.stream(old(task)@.c2s).inv(),
            old(task)@.connection.stream(old(task)@.c2s).limits == old(self)@.config.limits(),
            0 < payload@.len() <= MAX_SEGMENT_LEN,
            frame.payload_range.start + payload@.len() <= usize::MAX,
            ({
                let stream = old(task)@.connection.stream(old(task)@.c2s);
                let total = stream.ready().len() + held_bytes(stream.pending) + payload@.len();
                &&& total <= usize::MAX
                &&& stream.next + HALF_WINDOW + payload@.len() <= u64::MAX
                &&& old(self)@.counters.gap_abandoned_bytes + total <= u64::MAX
                &&& old(self)@.counters.connections_desynced < u64::MAX
            }),
        ensures
            final(self).wf(),
            final(task).wf(),
            (final(self)@, final(task)@) == old(self)@.pushed(
                old(task)@,
                packet_index,
                *frame,
                payload@,
            ),
    {
        let c2s = task.is_client_to_server;
        let limits = self.config.pending_limits();
        proof {
            law_push_reports_its_losses(
                task@.connection.stream(c2s),
                frame.seq,
                SegmentModel { packet_index, start: frame.payload_range.start, data: payload@ },
                task@.now,
            );
        }
        let now = task.now;
        let outcome = task.connection.reassembler_for(c2s).push_at(
            packet_index,
            frame.seq,
            std::ops::Range { start: frame.payload_range.start, end: frame.payload_range.end },
            payload,
            now,
        );
        if let PushOutcome::GapAbandoned { bytes } = outcome {
            self.gap_abandoned_bytes = self.gap_abandoned_bytes + bytes as u64;
            task.notices.push(Notice::GapAbandoned { bytes });
            task.connection.mark_desynced(c2s, limits);
            self.connections_desynced = self.connections_desynced + 1;
            task.notices.push(Notice::Desynced);
        }
    }
}

impl Orchestrator {
    /// Whether there is room for a step; see `OrchestratorModel::can_step`.
    pub fn can_step(&self, task: &FrameTask) -> (yes: bool)
        ensures
            yes == self@.can_step(task@),
    {
        let room = match &task.stage {
            Stage::AwaitDissect { buffer, .. } => self.tail_bytes_discarded as u128
                + buffer.len() as u128 <= u64::MAX as u128,
            _ => true,
        };
        self.tls_records_seen < u64::MAX && room
    }

    fn tally(&mut self, fate: Fate)
        requires
            old(self).wf(),
            old(self)@.counters.tallied() < u64::MAX,
        ensures
            final(self).wf(),
            final(self)@ == old(self)@.tally(fate),
    {
        match fate {
            Fate::Decrypted => {
                self.tls_records_decrypted = self.tls_records_decrypted + 1;
            },
            Fate::AuthFailed => {
                self.tls_records_authfailed = self.tls_records_authfailed + 1;
            },
            Fate::NoKey => {
                self.tls_records_nokey = self.tls_records_nokey + 1;
            },
            Fate::NoClientHello => {
                self.tls_records_no_client_hello = self.tls_records_no_client_hello + 1;
            },
            Fate::PlaintextHandshake => {
                self.tls_records_plaintext_handshake = self.tls_records_plaintext_handshake + 1;
            },
        }
    }

    /// Decrypts a record, and takes application data on to its dissection.
    fn decrypt_record(&mut self, task: FrameTask, content_type: u8, body: Vec<u8>) -> (stepped: (
        FrameTask,
        Action,
    ))
        requires
            old(self).wf(),
            task.wf(),
            old(self)@.counters.tallied() < u64::MAX,
            task@.connection.state matches Some(state) && state.seqs_within(u64::MAX - 1),
            body@.len() <= 0xffff,
        ensures
            final(self).wf(),
            stepped.0.wf(),
            (final(self)@, stepped.0@, stepped.1@) == old(self)@.decrypt(
                task@,
                content_type,
                body@,
            ),
    {
        let mut task = task;
        let c2s = task.is_client_to_server;
        let result = task.connection.decrypt(
            self.keylog.current(),
            c2s,
            content_type,
            body.as_slice(),
        );
        match result {
            Ok(record) => {
                self.tally(Fate::Decrypted);
                if record.content_type == 0x17 {
                    let plaintext = record.plaintext;
                    let mut buffer = task.connection.take_tail(c2s);
                    append_bytes(&mut buffer, plaintext.as_slice());
                    let buffer = Rc::new(buffer);
                    let port = task.connection.server_endpoint().port;
                    task.stage = Stage::AwaitDissect { plaintext, buffer: buffer.clone() };
                    (task, Action::Dissect { port, buffer })
                } else {
                    task.stage = Stage::Next;
                    (task, Action::Continue)
                }
            },
            Err(ProcessError::NoKey) => {
                self.tally(Fate::NoKey);
                if self.keylog.has_file() {
                    task.stage = Stage::AwaitStat;
                    (task, Action::StatKeylog)
                } else {
                    task.stage = Stage::Next;
                    (task, Action::Continue)
                }
            },
            Err(ProcessError::AuthFailed) => {
                self.tally(Fate::AuthFailed);
                task.notices.push(Notice::AuthFailed);
                task.stage = Stage::Next;
                (task, Action::Continue)
            },
        }
    }

    /// Sorts a record out: what is never encrypted, what cannot be decrypted, and what is to be.
    fn sort_out(&mut self, task: FrameTask, content_type: u8, body: Vec<u8>) -> (stepped: (
        FrameTask,
        Action,
    ))
        requires
            old(self).wf(),
            task.wf(),
            old(self)@.counters.tallied() < u64::MAX,
            task@.connection.state matches Some(state) ==> state.seqs_within(u64::MAX - 1),
            body@.len() <= 0xffff,
            task@.stage is Next,
        ensures
            final(self).wf(),
            stepped.0.wf(),
            (final(self)@, stepped.0@, stepped.1@) == old(self)@.sort_out(
                task@,
                content_type,
                body@,
            ),
    {
        let mut task = task;
        let c2s = task.is_client_to_server;
        if content_type == 0x14 {
            self.tally(Fate::PlaintextHandshake);
            return (task, Action::Continue);
        }
        if c2s && !task.connection.has_state() {
            if let Some(random) = client_random_from_client_hello(body.as_slice()) {
                task.connection.learn_client_random(copy_bytes(&random));
                self.tally(Fate::PlaintextHandshake);
                return (task, Action::Continue);
            }
        }
        if !c2s {
            if let Some(random) = server_random_from_server_hello(body.as_slice()) {
                let ghost before = task@;
                if task.connection.learn_server_random(random) {
                    self.tally(Fate::PlaintextHandshake);
                    return (task, Action::Continue);
                }
                assert(task@ == before);
            }
        }
        if !task.connection.has_state() {
            self.tally(Fate::NoClientHello);
            return (task, Action::Continue);
        }
        if self.keylog.poll(task.now) {
            task.stage = Stage::AwaitKeylog { content_type, body };
            return (task, Action::ReadKeylog);
        }
        self.decrypt_record(task, content_type, body)
    }

    /// Takes the next record off the stream, if it is all there.
    fn next_record(&mut self, task: FrameTask) -> (stepped: (FrameTask, Action))
        requires
            old(self).wf(),
            task.wf(),
            old(self)@.counters.tls_records_seen < u64::MAX,
            old(self)@.counters.tallied() < u64::MAX,
            task@.connection.state matches Some(state) ==> state.seqs_within(u64::MAX - 1),
            task@.stage is Next,
        ensures
            final(self).wf(),
            stepped.0.wf(),
            (final(self)@, stepped.0@, stepped.1@) == old(self)@.next(task@),
    {
        let mut task = task;
        let c2s = task.is_client_to_server;
        let ghost stream = task@.connection.stream(c2s);
        let stream_ref = task.connection.reassembler(c2s);
        let available: usize = stream_ref.contiguous_len();
        if available < 5 {
            task.stage = Stage::Done;
            return (task, Action::Done);
        }
        let header = stream_ref.peek(5);
        let content_type: u8 = header[0];
        let body_len: usize = header[3] as usize * 256 + header[4] as usize;
        if available < 5 + body_len {
            task.stage = Stage::Done;
            return (task, Action::Done);
        }
        let (record, _) = task.connection.reassembler_for(c2s).take_bytes(5 + body_len);
        let body = copy_range(record.as_slice(), 5, 5 + body_len);
        assert(body@ =~= stream.ready().subrange(5, 5 + body_len));
        self.tls_records_seen = self.tls_records_seen + 1;
        self.sort_out(task, content_type, body)
    }

    /// Sets the tail to the last bytes of `bytes`, within the limit.
    fn set_tail_capped(&mut self, task: &mut FrameTask, bytes: Vec<u8>)
        requires
            old(self).wf(),
            old(task).wf(),
            old(self)@.counters.tail_bytes_discarded + bytes@.len() <= u64::MAX,
        ensures
            final(self).wf(),
            final(task).wf(),
            final(self)@ == (OrchestratorModel {
                counters: Counters {
                    tail_bytes_discarded: (old(self)@.counters.tail_bytes_discarded + dropped(
                        bytes@.len(),
                        old(self)@.config.max_tail_bytes,
                    )) as u64,
                    ..old(self)@.counters
                },
                ..old(self)@
            }),
            final(task)@ == old(task)@.with_capped_tail(bytes@, old(self)@.config.max_tail_bytes),
    {
        let mut bytes = bytes;
        let max: usize = self.config.max_tail_bytes;
        let c2s = task.is_client_to_server;
        let ghost all = bytes@;
        if bytes.len() > max {
            let discard: usize = bytes.len() - max;
            bytes = bytes.split_off(discard);
            assert(bytes@ =~= all.skip(all.len() - max));
            self.tail_bytes_discarded = self.tail_bytes_discarded + discard as u64;
            task.notices.push(Notice::TailDiscarded { bytes: discard });
        }
        task.connection.set_tail(c2s, bytes);
    }

    /// Takes a dissection in, and emits the record's message.
    fn take_dissection(
        &mut self,
        task: FrameTask,
        plaintext: Vec<u8>,
        buffer: Rc<Vec<u8>>,
        outcome: DissectOutcome,
    ) -> (next: FrameTask)
        requires
            old(self).wf(),
            task.wf(),
            task@.stage is Next,
            old(self)@.counters.tail_bytes_discarded + buffer@.len() <= u64::MAX,
        ensures
            final(self).wf(),
            next.wf(),
            (final(self)@, next@) == old(self)@.dissected(task@, plaintext@, buffer@, outcome),
    {
        let mut task = task;
        let c2s = task.is_client_to_server;
        let ghost start = task@;
        let (src, dst) = task.connection.endpoints(c2s);
        let fields = match outcome {
            DissectOutcome::NoDissector => {
                let port = task.connection.server_endpoint().port;
                if self.logged_no_dissector_ports.insert(port) {
                    task.notices.push(Notice::NoDissector { port });
                }
                FrameFields::default()
            },
            DissectOutcome::Failed => {
                let restored = copy_bytes(buffer.as_slice());
                self.set_tail_capped(&mut task, restored);
                FrameFields::default()
            },
            DissectOutcome::Dissected { fields, consumed } => {
                let from: usize = if consumed < buffer.len() { consumed } else { buffer.len() };
                let left = copy_range(buffer.as_slice(), from, buffer.len());
                assert(left@ =~= buffer@.skip(from as int));
                self.set_tail_capped(&mut task, left);
                fields
            },
        };
        let ghost before = task.messages@;
        let message = DecodedMessage {
            src_ip: src.ip,
            dst_ip: dst.ip,
            src_port: src.port,
            dst_port: dst.port,
            tls_app_data: plaintext,
            fields,
            timestamp: task.timestamp,
        };
        let ghost model = message@;
        task.messages.push(message);
        assert(message_models(task.messages@) =~= message_models(before).push(model));
        task
    }

    /// One step of the work on a frame: takes the next record, or goes on with the one at hand
    /// with what `event` brings. Returns the task and what it needs next.
    pub fn step(&mut self, task: FrameTask, event: Event) -> (stepped: (FrameTask, Action))
        requires
            old(self).wf(),
            task.wf(),
            old(self)@.task_ok(task@),
            old(self)@.can_step(task@),
            task@.expects(event),
        ensures
            final(self).wf(),
            stepped.0.wf(),
            final(self)@.task_ok(stepped.0@),
            (final(self)@, stepped.0@, stepped.1@) == old(self)@.step(task@, event),
    {
        proof {
            lemma_step_ok(self@, task@, event);
        }
        let mut task = task;
        let mut stage = Stage::Next;
        std::mem::swap(&mut stage, &mut task.stage);
        match (stage, event) {
            (Stage::AwaitKeylog { content_type, body }, Event::KeylogRead(read)) => {
                self.keylog.reload(task.now, read);
                self.decrypt_record(task, content_type, body)
            },
            (Stage::AwaitStat, Event::KeylogStat(signature)) => {
                if self.keylog.poll_after_miss(signature) {
                    task.stage = Stage::AwaitReload;
                    (task, Action::ReadKeylog)
                } else {
                    (task, Action::Continue)
                }
            },
            (Stage::AwaitReload, Event::KeylogRead(read)) => {
                self.keylog.reload(task.now, read);
                (task, Action::Continue)
            },
            (Stage::AwaitDissect { plaintext, buffer }, Event::Dissected(outcome)) => {
                let task = self.take_dissection(task, plaintext, buffer, outcome);
                (task, Action::Continue)
            },
            _ => self.next_record(task),
        }
    }
}

proof fn lemma_keys_differ(keys: Seq<ConnKey>, i: int, j: int)
    requires
        increasing_seq(keys),
        0 <= i < j < keys.len(),
    ensures
        keys[i] != keys[j],
{
    assert(keys[i].cmp_spec(&keys[j]) is Less);
}

impl Orchestrator {
    /// The bytes that the streams of all connections hold, as far as a `usize` can count.
    pub fn buffered_bytes(&self) -> (n: usize)
        requires
            self.wf(),
        ensures
            n == if total_buffered(self@.connections) <= usize::MAX {
                total_buffered(self@.connections)
            } else {
                usize::MAX as nat
            },
    {
        let mut n: usize = 0;
        let ghost mut rest = self@.connections;
        let ghost mut counted: nat = 0;
        assert(self.connections@.dom() =~= self@.connections.dom());
        let entries = self.connections.iter();
        for entry in it: entries
            invariant
                self.wf(),
                it.seq() == spec_btree_map_iter(&self.connections).remaining(),
                increasing_seq(it.seq().map_values(|kv: (&ConnKey, &Connection)| *kv.0)),
                rest.dom().finite(),
                total_buffered(self@.connections) == counted + total_buffered(rest),
                n == if counted <= usize::MAX { counted } else { usize::MAX as nat },
                forall|k: ConnKey| #[trigger] rest.contains_key(k) ==> self@.connections.contains_key(k)
                    && rest[k] == self@.connections[k],
                forall|j: int|
                    it.index() <= j < it.seq().len() ==> rest.contains_key(*(#[trigger] it.seq()[j]).0),
                forall|k: ConnKey| #[trigger]
                    rest.contains_key(k) ==> exists|j: int|
                        it.index() <= j < it.seq().len() && *(#[trigger] it.seq()[j]).0 == k,
        {
            let ghost before = rest;
            let connection = entry.1;
            proof {
                let k = *entry.0;
                let keys = it.seq().map_values(|kv: (&ConnKey, &Connection)| *kv.0);
                assert(self.connections@.contains_key(k) && self.connections@[k] == *connection);
                lemma_total_remove(rest, k);
                rest = rest.remove(k);
                counted = counted + connection@.buffered();
                assert forall|j: int| it.index() + 1 <= j < it.seq().len() implies rest.contains_key(
                    *(#[trigger] it.seq()[j]).0,
                ) by {
                    assert(keys[it.index()] == k && keys[j] == *it.seq()[j].0);
                    lemma_keys_differ(keys, it.index(), j);
                }
                assert forall|m: ConnKey| #[trigger] rest.contains_key(m) implies exists|j: int|
                    it.index() + 1 <= j < it.seq().len() && *(#[trigger] it.seq()[j]).0 == m by {
                    assert(before.contains_key(m));
                }
            }
            let c2s = connection.reassembler(true);
            let s2c = connection.reassembler(false);
            n = n.saturating_add(c2s.contiguous_len()).saturating_add(c2s.pending_len())
                .saturating_add(s2c.contiguous_len()).saturating_add(s2c.pending_len());
        }
        proof {
            if rest.dom().len() > 0 {
                assert(rest.contains_key(rest.dom().choose()));
            }
        }
        n
    }

    /// Whether the evictions that ending a frame may bring can be counted.
    pub fn can_end(&self) -> (yes: bool)
        ensures
            yes == self@.can_end(),
    {
        assert(self.connections@.dom() =~= self@.connections.dom());
        self.evicted_connections as u128 + self.connections.len() as u128 + 1 <= u64::MAX as u128
    }

    /// Ends the work on a frame: evicts the connection if it is closed, files it otherwise, and
    /// drops idle connections where that is asked for and due.
    pub fn end_frame(&mut self, task: FrameTask) -> (result: FrameResult)
        requires
            old(self).wf(),
            task.wf(),
            old(self)@.task_ok(task@),
            task@.stage is Done,
            old(self)@.can_end(),
        ensures
            final(self).wf(),
            final(self)@.inv(0),
            final(self)@ == old(self)@.end(task@),
            message_models(result.messages@) == task@.messages,
            result.notices@ == task@.notices + old(self)@.filed(task@).sweep_notice(task@.now),
            result.collect_garbage == old(self)@.filed(task@).swept(task@.now).gc_due(task@.now),
    {
        let ghost start = self@;
        proof {
            lemma_end_ok(self@, task@);
        }
        let now = task.now;
        if task.connection.is_closed() {
            self.evicted_connections = self.evicted_connections + 1;
        } else {
            self.connections.insert(task.key, task.connection);
        }
        proof {
            assert(self@.connections =~= start.filed(task@).connections);
        }
        let ghost filed = self@;
        let mut notices = task.notices;
        let swept = self.maybe_sweep_idle(now);
        if swept > 0 {
            notices.push(Notice::IdleSwept { connections: swept });
        }
        assert(notices@ =~= task@.notices + filed.sweep_notice(now@));
        let collect_garbage = self.maybe_gc_lua(now);
        FrameResult { messages: task.messages, notices, collect_garbage }
    }

    /// Whether the script engine's garbage is to be collected; if so, the interval starts anew.
    fn maybe_gc_lua(&mut self, now: Duration) -> (due: bool)
        requires
            old(self).wf(),
        ensures
            final(self).wf(),
            due == old(self)@.gc_due(now@),
            final(self)@ == if due {
                OrchestratorModel { last_lua_gc: now@, ..old(self)@ }
            } else {
                old(self)@
            },
    {
        if elapsed_between(self.last_lua_gc, now).as_nanos()
            < self.config.lua_gc_interval.as_nanos() {
            return false;
        }
        self.last_lua_gc = now;
        true
    }

    /// Drops idle connections, where that is asked for and due. Returns how many.
    pub fn maybe_sweep_idle(&mut self, now: Duration) -> (evicted: u64)
        requires
            old(self).wf(),
            old(self)@.counters.evicted_connections + old(self)@.connections.dom().len()
                <= u64::MAX,
            old(self)@.connections.dom().finite(),
        ensures
            final(self).wf(),
            final(self)@ == old(self)@.swept(now@),
            evicted == old(self)@.sweep_count(now@),
    {
        let timeout = match self.config.idle_timeout {
            Some(timeout) => timeout,
            None => {
                return 0;
            },
        };
        if elapsed_between(self.last_sweep, now).as_nanos()
            < self.config.sweep_interval.as_nanos() {
            return 0;
        }
        self.last_sweep = now;
        assert(self.connections@.dom() =~= self@.connections.dom());
        let before: usize = self.connections.len();
        let idle = self.idle_keys(timeout, now);
        let ghost all = self.connections@;
        let ghost was = old(self)@;
        let mut i: usize = 0;
        while i < idle.len()
            invariant
                i <= idle@.len(),
                self.wf(),
                self@ == (OrchestratorModel {
                    connections: self@.connections,
                    last_sweep: now@,
                    ..was
                }),
                forall|k: ConnKey| #[trigger]
                    self.connections@.contains_key(k) <==> all.contains_key(k) && !idle@.take(
                        i as int,
                    ).contains(k),
                forall|k: ConnKey| #[trigger]
                    self.connections@.contains_key(k) ==> self.connections@[k] == all[k],
            decreases idle@.len() - i,
        {
            let key = idle[i];
            proof {
                assert(idle@.take(i + 1) =~= idle@.take(i as int).push(key));
                assert forall|k: ConnKey| idle@.take(i + 1).contains(k) <==> idle@.take(
                    i as int,
                ).contains(k) || k == key by {
                    if idle@.take(i as int).contains(k) {
                        let j = choose|j: int|
                            0 <= j < i && idle@.take(i as int)[j] == k;
                        assert(idle@.take(i + 1)[j] == k);
                    }
                    if k == key {
                        assert(idle@.take(i + 1)[i as int] == k);
                    }
                }
            }
            self.connections.remove(&key);
            i += 1;
        }
        proof {
            assert(idle@.take(i as int) =~= idle@);
            assert(self@.connections =~= was.connections.restrict(was.lively(timeout@, now@)));
            assert(self.connections@.dom() =~= self@.connections.dom());
            vstd::set_lib::lemma_len_subset(self@.connections.dom(), was.connections.dom());
        }
        let evicted: u64 = (before - self.connections.len()) as u64;
        self.evicted_connections = self.evicted_connections + evicted;
        evicted
    }

    /// The keys of the connections that have been idle for too long.
    fn idle_keys(&self, timeout: Duration, now: Duration) -> (idle: Vec<ConnKey>)
        ensures
            forall|k: ConnKey| #[trigger]
                idle@.contains(k) <==> self@.connections.contains_key(k) && OrchestratorModel::idle(
                    self@.connections[k],
                    timeout@,
                    now@,
                ),
    {
        let mut idle: Vec<ConnKey> = Vec::new();
        let entries = self.connections.iter();
        for entry in it: entries
            invariant
                it.seq() == spec_btree_map_iter(&self.connections).remaining(),
                forall|k: ConnKey| #[trigger]
                    idle@.contains(k) <==> (exists|j: int|
                        0 <= j < it.index() && *(#[trigger] it.seq()[j]).0 == k
                            && OrchestratorModel::idle(it.seq()[j].1@, timeout@, now@)),
        {
            let key: ConnKey = *entry.0;
            let ghost before = idle@;
            let last = entry.1.last_activity();
            let stale = match last {
                Some(t) => elapsed_between(t, now).as_nanos() >= timeout.as_nanos(),
                None => false,
            };
            if stale {
                idle.push(key);
            }
            proof {
                let i = it.index();
                assert(it.seq()[i] == entry);
                assert forall|k: ConnKey| #[trigger]
                    idle@.contains(k) <==> (exists|j: int|
                        0 <= j < i + 1 && *(#[trigger] it.seq()[j]).0 == k
                            && OrchestratorModel::idle(it.seq()[j].1@, timeout@, now@)) by {
                    if before.contains(k) {
                        let j = choose|j: int|
                            0 <= j < i && *(#[trigger] it.seq()[j]).0 == k
                                && OrchestratorModel::idle(it.seq()[j].1@, timeout@, now@);
                        let m = choose|m: int| 0 <= m < before.len() && before[m] == k;
                        assert(idle@[m] == k);
                        assert(0 <= j < i + 1);
                    }
                    if stale && k == key {
                        assert(idle@[before.len() as int] == k);
                    }
                    if idle@.contains(k) {
                        let m = choose|m: int| 0 <= m < idle@.len() && idle@[m] == k;
                        if m < before.len() {
                            assert(before.contains(k));
                        }
                    }
                }
            }
        }
        proof {
            let all = spec_btree_map_iter(&self.connections).remaining();
            assert forall|k: ConnKey| #[trigger]
                idle@.contains(k) <==> self@.connections.contains_key(k) && OrchestratorModel::idle(
                    self@.connections[k],
                    timeout@,
                    now@,
                ) by {
                if self.connections@.contains_key(k) {
                    assert(all.contains((&k, &self.connections@[k])));
                }
            }
        }
        idle
    }
}

/// The event that a frame is.
pub fn packet_event(frame: &TcpFrame, timestamp: Duration) -> (event: PacketEvent)
    requires
        frame.payload_range.start <= frame.payload_range.end,
    ensures
        is_event_of(event, *frame, timestamp),
{
    PacketEvent {
        src_ip: frame.src_ip,
        dst_ip: frame.dst_ip,
        src_port: frame.src_port,
        dst_port: frame.dst_port,
        seq: frame.seq,
        ack: frame.ack_number,
        flags: canonical_flags(&frame.flags),
        payload_len: frame.payload_range.end - frame.payload_range.start,
        timestamp,
    }
}

} // verus!
