//! Whole frames: what holds from taking a frame in to the end of the work on it, and over any run of
//! frames, whatever comes back from outside on the way.

use vstd::prelude::*;
use crate::connection::{ProcessError, RecordModel};
use crate::lua::tree::FieldsModel;
use crate::orchestrator::connections::{
    holds_nothing, spec_conn_key, ConnKey, ConnectionModel, Endpoint,
};
use crate::orchestrator::intake::{
    law_frame_has_its_connections_ends, law_frame_marks_its_connection,
    law_in_order_payload_is_taken_in, law_message_says_what_the_record_was,
    law_next_record_is_taken, law_tried_records_are_sorted_out, takeable,
};
use crate::orchestrator::laws::{
    law_abandoned_gap_is_told, law_desynced_direction_is_silent,
    law_desynced_direction_takes_nothing, law_evicted_only_when_closed, law_frame_changes_no_tail,
    law_streams_give_only_records,
};
use crate::orchestrator::model::{
    first_record, lemma_begin_ok, lemma_end_ok, lemma_step_ok, ActionModel, Counters,
    DissectOutcome, Event, MessageModel, OrchestratorModel, StageModel, TaskModel,
};
use crate::pcap_input::TcpFrame;
use crate::reassembly::laws::seq_at;
use crate::reassembly::{after_take, StreamModel};

verus! {

/// A frame, with the clock reading at which it is taken in and all that is handed back from outside
/// while it is worked off.
pub struct FrameInput {
    pub frame: TcpFrame,
    pub packet_index: usize,
    pub packet_data: Seq<u8>,
    pub timestamp: nat,
    pub now: nat,
    pub events: Seq<Event>,
}

impl FrameInput {
    pub open spec fn src(self) -> Endpoint {
        Endpoint { ip: self.frame.src_ip, port: self.frame.src_port }
    }

    pub open spec fn dst(self) -> Endpoint {
        Endpoint { ip: self.frame.dst_ip, port: self.frame.dst_port }
    }

    /// The identity of the frame's connection.
    pub open spec fn key(self) -> ConnKey {
        spec_conn_key(self.src(), self.dst())
    }
}

/// The work on a frame after `events` have been handed in.
pub open spec fn worked(o: OrchestratorModel, task: TaskModel, events: Seq<Event>) -> (
    OrchestratorModel,
    TaskModel,
)
    decreases events.len(),
{
    if events.len() == 0 {
        (o, task)
    } else {
        let (after, next, action) = o.step(task, events[0]);
        worked(after, next, events.drop_first())
    }
}

/// Each event is the answer to what was asked for, and there is room to count what it brings.
pub open spec fn workable(o: OrchestratorModel, task: TaskModel, events: Seq<Event>) -> bool
    decreases events.len(),
{
    events.len() > 0 ==> {
        let (after, next, action) = o.step(task, events[0]);
        &&& o.can_step(task)
        &&& task.expects(events[0])
        &&& workable(after, next, events.drop_first())
    }
}

impl OrchestratorModel {
    pub open spec fn taken_in(self, input: FrameInput) -> (OrchestratorModel, TaskModel) {
        self.begin(
            input.frame,
            input.packet_index,
            input.packet_data,
            input.timestamp,
            input.now,
        )
    }

    /// The state and the task when all of the frame's records are worked off.
    pub open spec fn worked_off(self, input: FrameInput) -> (OrchestratorModel, TaskModel) {
        let (begun, task) = self.taken_in(input);
        worked(begun, task, input.events)
    }

    /// The state after a whole frame.
    pub open spec fn processed(self, input: FrameInput) -> OrchestratorModel {
        let (done, task) = self.worked_off(input);
        done.end(task)
    }

    /// The number of messages that a whole frame gives.
    pub open spec fn message_count(self, input: FrameInput) -> nat {
        self.worked_off(input).1.messages.len()
    }

    /// The frame can be taken in, worked off to its end and ended.
    pub open spec fn processable(self, input: FrameInput) -> bool {
        let range = input.frame.payload_range;
        let (begun, task) = self.taken_in(input);
        let (done, last) = self.worked_off(input);
        &&& range.start <= range.end <= input.packet_data.len() <= usize::MAX
        &&& self.can_begin(input.frame)
        &&& workable(begun, task, input.events)
        &&& last.stage is Done
        &&& done.can_end()
    }

    /// The connection that the frame belongs to, and which way the frame goes in it.
    pub open spec fn found(self, input: FrameInput) -> (ConnectionModel, bool) {
        let connection = self.connection_for(input.src(), input.dst());
        (connection, input.src() == connection.client_endpoint)
    }

    /// With this frame the connection is closed: by a RST, or by a FIN from each side.
    pub open spec fn closes(self, input: FrameInput) -> bool {
        let (connection, c2s) = self.found(input);
        connection.meta.seen(
            c2s,
            input.frame.flags.fin,
            input.frame.flags.rst,
            input.now,
        ).closed()
    }

    /// The state with one direction of one connection given up.
    pub open spec fn giving_up(self, key: ConnKey, c2s: bool) -> OrchestratorModel {
        if self.connections.contains_key(key) {
            OrchestratorModel {
                connections: self.connections.insert(key, self.connections[key].give_up(c2s)),
                ..self
            }
        } else {
            self
        }
    }
}

/// The state after a run of frames.
pub open spec fn after_frames(o: OrchestratorModel, inputs: Seq<FrameInput>) -> OrchestratorModel
    decreases inputs.len(),
{
    if inputs.len() == 0 {
        o
    } else {
        after_frames(o.processed(inputs[0]), inputs.drop_first())
    }
}

/// The number of messages that a run of frames gives.
pub open spec fn frames_message_count(o: OrchestratorModel, inputs: Seq<FrameInput>) -> nat
    decreases inputs.len(),
{
    if inputs.len() == 0 {
        0
    } else {
        o.message_count(inputs[0]) + frames_message_count(
            o.processed(inputs[0]),
            inputs.drop_first(),
        )
    }
}

/// Each frame can be processed when its turn comes.
pub open spec fn all_processable(o: OrchestratorModel, inputs: Seq<FrameInput>) -> bool
    decreases inputs.len(),
{
    inputs.len() > 0 ==> o.processable(inputs[0]) && all_processable(
        o.processed(inputs[0]),
        inputs.drop_first(),
    )
}

impl Counters {
    /// No count is below that of `before`.
    pub open spec fn no_less_than(self, before: Counters) -> bool {
        &&& self.evicted_connections >= before.evicted_connections
        &&& self.gap_abandoned_bytes >= before.gap_abandoned_bytes
        &&& self.tail_bytes_discarded >= before.tail_bytes_discarded
        &&& self.connections_desynced >= before.connections_desynced
        &&& self.tls_records_seen >= before.tls_records_seen
        &&& self.tls_records_decrypted >= before.tls_records_decrypted
        &&& self.tls_records_authfailed >= before.tls_records_authfailed
        &&& self.tls_records_nokey >= before.tls_records_nokey
        &&& self.tls_records_no_client_hello >= before.tls_records_no_client_hello
        &&& self.tls_records_plaintext_handshake >= before.tls_records_plaintext_handshake
    }
}

/// A message that the task is about to give.
spec fn due_message(task: TaskModel) -> int {
    if task.stage is AwaitDissect {
        1
    } else {
        0
    }
}

/// What no step changes, and which way the counts go.
spec fn carries_on(
    o: OrchestratorModel,
    task: TaskModel,
    after: OrchestratorModel,
    next: TaskModel,
) -> bool {
    &&& after.connections == o.connections
    &&& after.config == o.config
    &&& after.counters.evicted_connections == o.counters.evicted_connections
    &&& after.counters.no_less_than(o.counters)
    &&& next.key == task.key
    &&& next.c2s == task.c2s
    &&& next.now == task.now
    &&& next.connection.meta == task.connection.meta
    &&& next.connection.desynced_c2s == task.connection.desynced_c2s
    &&& next.connection.desynced_s2c == task.connection.desynced_s2c
    &&& next.messages.len() + due_message(next) - task.messages.len() - due_message(task)
        <= after.counters.tls_records_decrypted - o.counters.tls_records_decrypted
}

proof fn lemma_decrypt_carries_on(
    o: OrchestratorModel,
    task: TaskModel,
    content_type: u8,
    body: Seq<u8>,
)
    requires
        o.counters.tallied() < o.counters.tls_records_seen,
        !(task.stage is AwaitDissect),
    ensures
        ({
            let (after, next, action) = o.decrypt(task, content_type, body);
            carries_on(o, task, after, next)
        }),
{
}

proof fn lemma_next_carries_on(o: OrchestratorModel, task: TaskModel)
    requires
        o.counters.tallied() == o.counters.tls_records_seen < u64::MAX,
        task.stage is Next,
    ensures
        ({
            let (after, next, action) = o.next(task);
            carries_on(o, task, after, next)
        }),
{
    let stream = task.connection.stream(task.c2s);
    if let Some((content_type, body)) = first_record(stream.ready()) {
        let rest = StreamModel {
            contiguous: after_take(stream.contiguous, (5 + body.len()) as int),
            ..stream
        };
        let taken = TaskModel { connection: task.connection.with_stream(task.c2s, rest), ..task };
        let seen = OrchestratorModel { counters: o.counters.record_seen(), ..o };
        lemma_decrypt_carries_on(seen, taken, content_type, body);
        let (after, next, action) = seen.sort_out(taken, content_type, body);
        assert(carries_on(seen, taken, after, next));
    }
}

proof fn lemma_step_carries_on(o: OrchestratorModel, task: TaskModel, event: Event)
    requires
        o.task_ok(task),
        o.can_step(task),
        task.expects(event),
    ensures
        ({
            let (after, next, action) = o.step(task, event);
            carries_on(o, task, after, next)
        }),
{
    match (task.stage, event) {
        (StageModel::Next, Event::Continue) => lemma_next_carries_on(o, task),
        (StageModel::AwaitKeylog { content_type, body }, Event::KeylogRead(read)) => {
            let reloaded = OrchestratorModel { keylog: o.keylog.reloaded(task.now, read), ..o };
            lemma_decrypt_carries_on(reloaded, task, content_type, body);
        },
        _ => {},
    }
}

proof fn lemma_worked_carries_on(o: OrchestratorModel, task: TaskModel, events: Seq<Event>)
    requires
        o.task_ok(task),
        workable(o, task, events),
    ensures
        ({
            let (after, next) = worked(o, task, events);
            after.task_ok(next) && carries_on(o, task, after, next)
        }),
    decreases events.len(),
{
    if events.len() > 0 {
        let (after, next, action) = o.step(task, events[0]);
        lemma_step_ok(o, task, events[0]);
        lemma_step_carries_on(o, task, events[0]);
        lemma_worked_carries_on(after, next, events.drop_first());
    }
}

/// What taking a frame in leaves.
proof fn lemma_taken_in(o: OrchestratorModel, input: FrameInput)
    requires
        o.inv(0),
        o.processable(input),
    ensures
        ({
            let (after, task) = o.taken_in(input);
            let (connection, c2s) = o.found(input);
            &&& after.task_ok(task)
            &&& after.connections == o.connections.remove(input.key())
            &&& after.config == o.config
            &&& after.counters.no_less_than(o.counters)
            &&& after.counters.evicted_connections == o.counters.evicted_connections
            &&& after.counters.tls_records_decrypted == o.counters.tls_records_decrypted
            &&& task.key == input.key()
            &&& task.c2s == c2s
            &&& task.now == input.now
            &&& task.stage is Next
            &&& task.messages.len() == 0
            &&& task.connection.meta.closed() == o.closes(input)
            &&& connection.desynced_c2s ==> task.connection.desynced_c2s
            &&& connection.desynced_s2c ==> task.connection.desynced_s2c
        }),
{
    lemma_begin_ok(
        o,
        input.frame,
        input.packet_index,
        input.packet_data,
        input.timestamp,
        input.now,
    );
    law_abandoned_gap_is_told(
        o,
        input.frame,
        input.packet_index,
        input.packet_data,
        input.timestamp,
        input.now,
    );
}

/// Over a whole frame, with no idle timeout set, a connection is tracked afterwards exactly if it is
/// not closed; every other connection is left alone, whatever time has passed; and the number of
/// connections and that of evictions follow.
pub proof fn law_frame_tracks_what_is_open(o: OrchestratorModel, input: FrameInput)
    requires
        o.inv(0),
        o.config.idle_timeout is None,
        o.processable(input),
    ensures
        ({
            let after = o.processed(input);
            let closed = if o.closes(input) { 1int } else { 0int };
            &&& after.connections.contains_key(input.key()) <==> !o.closes(input)
            &&& forall|k: ConnKey|
                k != input.key() ==> (#[trigger] after.connections.contains_key(k)
                    <==> o.connections.contains_key(k)) && (o.connections.contains_key(k)
                    ==> after.connections[k] == o.connections[k])
            &&& after.connections.dom().len() == o.connections.dom().insert(input.key()).len()
                - closed
            &&& after.counters.evicted_connections == o.counters.evicted_connections + closed
        }),
{
    let (begun, task) = o.taken_in(input);
    let (done, last) = o.worked_off(input);
    lemma_taken_in(o, input);
    lemma_worked_carries_on(begun, task, input.events);
    law_evicted_only_when_closed(done, last);
    let after = o.processed(input);
    let key = input.key();
    assert forall|k: ConnKey| k != key implies (#[trigger] after.connections.contains_key(k)
        <==> o.connections.contains_key(k)) && (o.connections.contains_key(k)
        ==> after.connections[k] == o.connections[k]) by {
        assert(done.connections.contains_key(k) <==> o.connections.contains_key(k));
    }
    if o.closes(input) {
        assert(after.connections.dom() =~= o.connections.dom().insert(key).remove(key));
    } else {
        assert(after.connections.dom() =~= o.connections.dom().insert(key));
    }
}

proof fn lemma_processed_counters(o: OrchestratorModel, input: FrameInput)
    requires
        o.inv(0),
        o.processable(input),
    ensures
        o.processed(input).inv(0),
        o.processed(input).counters.no_less_than(o.counters),
        o.message_count(input) <= o.processed(input).counters.tls_records_decrypted
            - o.counters.tls_records_decrypted,
{
    let (begun, task) = o.taken_in(input);
    let (done, last) = o.worked_off(input);
    lemma_taken_in(o, input);
    lemma_worked_carries_on(begun, task, input.events);
    lemma_end_ok(done, last);
    let filed = done.filed(last);
    let kept = filed.swept(last.now).connections;
    assert(kept.dom().subset_of(filed.connections.dom()));
    vstd::set_lib::lemma_len_subset(kept.dom(), filed.connections.dom());
}

/// Over any run of frames the records seen are accounted for in exactly one of five ways, no count
/// ever goes down, and there are no more messages than records decrypted.
pub proof fn law_counts_only_grow(o: OrchestratorModel, inputs: Seq<FrameInput>)
    requires
        o.inv(0),
        all_processable(o, inputs),
    ensures
        ({
            let after = after_frames(o, inputs);
            let c = after.counters;
            &&& after.inv(0)
            &&& c.tls_records_seen == c.tls_records_decrypted + c.tls_records_nokey
                + c.tls_records_authfailed + c.tls_records_no_client_hello
                + c.tls_records_plaintext_handshake
            &&& c.no_less_than(o.counters)
            &&& frames_message_count(o, inputs) <= c.tls_records_decrypted
                - o.counters.tls_records_decrypted
        }),
    decreases inputs.len(),
{
    if inputs.len() > 0 {
        lemma_processed_counters(o, inputs[0]);
        law_counts_only_grow(o.processed(inputs[0]), inputs.drop_first());
    }
}

/// A frame in a direction that was given up gives no message, and no count moves but that of
/// evictions. The direction stays given up and holds nothing.
pub proof fn law_given_up_direction_gives_nothing(o: OrchestratorModel, input: FrameInput)
    requires
        o.inv(0),
        o.processable(input),
        o.found(input).0.desynced(o.found(input).1),
    ensures
        ({
            let after = o.processed(input);
            let c2s = o.found(input).1;
            &&& o.message_count(input) == 0
            &&& o.worked_off(input).1.notices.len() == 0
            &&& after.counters == (Counters {
                evicted_connections: after.counters.evicted_connections,
                ..o.counters
            })
            &&& after.connections.contains_key(input.key()) ==> after.connections[input.key()].desynced(
                c2s,
            ) && holds_nothing(after.connections[input.key()].stream(c2s))
        }),
{
    let (begun, task) = o.taken_in(input);
    lemma_taken_in(o, input);
    law_desynced_direction_takes_nothing(
        o,
        input.frame,
        input.packet_index,
        input.packet_data,
        input.timestamp,
        input.now,
    );
    law_desynced_direction_is_silent(begun, task);
    reveal_with_fuel(worked, 2);
    reveal_with_fuel(workable, 2);
    let events = input.events;
    assert(events.len() > 0);
    let (after, next, action) = begun.step(task, events[0]);
    assert(next == task.at(StageModel::Done));
    let rest = events.drop_first();
    assert(rest.len() == 0) by {
        if rest.len() > 0 {
            assert(next.expects(rest[0]));
        }
    }
    assert(o.worked_off(input) == (begun, task.at(StageModel::Done)));
}

/// A direction that was given up stays so for as long as its connection is tracked, whichever way
/// the connection's frames go.
pub proof fn law_given_up_stays_given_up(o: OrchestratorModel, input: FrameInput, c2s: bool)
    requires
        o.inv(0),
        o.processable(input),
        o.found(input).0.desynced(c2s),
        o.processed(input).connections.contains_key(input.key()),
    ensures
        o.processed(input).connections[input.key()].desynced(c2s),
        holds_nothing(o.processed(input).connections[input.key()].stream(c2s)),
{
    let (begun, task) = o.taken_in(input);
    let (done, last) = o.worked_off(input);
    lemma_taken_in(o, input);
    lemma_worked_carries_on(begun, task, input.events);
    lemma_end_ok(done, last);
    let after = o.processed(input);
    assert(after.connection_ok(input.key(), after.connections[input.key()]));
}

/// A task whose connection has the other direction given up.
spec fn half(task: TaskModel) -> TaskModel {
    TaskModel { connection: task.connection.give_up(!task.c2s), ..task }
}

proof fn lemma_half_decrypt(
    o: OrchestratorModel,
    task: TaskModel,
    content_type: u8,
    body: Seq<u8>,
)
    ensures
        ({
            let (after, next, action) = o.decrypt(task, content_type, body);
            &&& o.decrypt(half(task), content_type, body) == (after, half(next), action)
            &&& next.c2s == task.c2s
        }),
{
}

proof fn lemma_half_sort_out(
    o: OrchestratorModel,
    task: TaskModel,
    content_type: u8,
    body: Seq<u8>,
)
    ensures
        ({
            let (after, next, action) = o.sort_out(task, content_type, body);
            &&& o.sort_out(half(task), content_type, body) == (after, half(next), action)
            &&& next.c2s == task.c2s
        }),
{
    lemma_half_decrypt(o, task, content_type, body);
}

proof fn lemma_half_next(o: OrchestratorModel, task: TaskModel)
    ensures
        ({
            let (after, next, action) = o.next(task);
            &&& o.next(half(task)) == (after, half(next), action)
            &&& next.c2s == task.c2s
        }),
{
    let stream = task.connection.stream(task.c2s);
    assert(half(task).connection.stream(task.c2s) == stream);
    if let Some((content_type, body)) = first_record(stream.ready()) {
        let rest = StreamModel {
            contiguous: after_take(stream.contiguous, (5 + body.len()) as int),
            ..stream
        };
        let taken = TaskModel { connection: task.connection.with_stream(task.c2s, rest), ..task };
        let half_taken = TaskModel {
            connection: half(task).connection.with_stream(task.c2s, rest),
            ..half(task)
        };
        assert(half_taken == half(taken));
        let seen = OrchestratorModel { counters: o.counters.record_seen(), ..o };
        lemma_half_sort_out(seen, taken, content_type, body);
    }
}

proof fn lemma_half_dissected(
    o: OrchestratorModel,
    task: TaskModel,
    plaintext: Seq<u8>,
    buffer: Seq<u8>,
    outcome: DissectOutcome,
)
    ensures
        ({
            let (after, next) = o.dissected(task, plaintext, buffer, outcome);
            &&& o.dissected(half(task), plaintext, buffer, outcome) == (after, half(next))
            &&& next.c2s == task.c2s
        }),
{
}

proof fn lemma_half_step(o: OrchestratorModel, task: TaskModel, event: Event)
    ensures
        ({
            let (after, next, action) = o.step(task, event);
            &&& o.step(half(task), event) == (after, half(next), action)
            &&& next.c2s == task.c2s
            &&& o.can_step(half(task)) == o.can_step(task)
            &&& half(task).expects(event) == task.expects(event)
        }),
{
    match (task.stage, event) {
        (StageModel::Next, Event::Continue) => lemma_half_next(o, task),
        (StageModel::AwaitKeylog { content_type, body }, Event::KeylogRead(read)) => {
            let reloaded = OrchestratorModel { keylog: o.keylog.reloaded(task.now, read), ..o };
            lemma_half_decrypt(reloaded, task, content_type, body);
        },
        (StageModel::AwaitDissect { plaintext, buffer }, Event::Dissected(outcome)) => {
            lemma_half_dissected(o, task, plaintext, buffer, outcome);
        },
        _ => {},
    }
}

proof fn lemma_half_worked(o: OrchestratorModel, task: TaskModel, events: Seq<Event>)
    ensures
        ({
            let (after, next) = worked(o, task, events);
            &&& worked(o, half(task), events) == (after, half(next))
            &&& next.c2s == task.c2s
            &&& workable(o, half(task), events) == workable(o, task, events)
        }),
    decreases events.len(),
{
    if events.len() > 0 {
        let (after, next, action) = o.step(task, events[0]);
        lemma_half_step(o, task, events[0]);
        lemma_half_worked(after, next, events.drop_first());
    }
}

proof fn lemma_half_end(o: OrchestratorModel, task: TaskModel)
    requires
        !o.connections.contains_key(task.key),
    ensures
        o.end(half(task)) == o.end(task).giving_up(task.key, !task.c2s),
{
    let gone = !task.c2s;
    let filed = o.filed(task);
    let half_filed = o.filed(half(task));
    assert(half_filed.connections =~= filed.giving_up(task.key, gone).connections);
    assert(half_filed == filed.giving_up(task.key, gone));
    assert(half_filed.connections.dom() =~= filed.connections.dom());
    if let Some(timeout) = o.config.idle_timeout {
        let lively = filed.lively(timeout@, task.now);
        let half_lively = half_filed.lively(timeout@, task.now);
        assert forall|k: ConnKey| lively.contains(k) <==> half_lively.contains(k) by {
            if k == task.key && filed.connections.contains_key(k) {
                assert(half_filed.connections[k].meta == filed.connections[k].meta);
            }
        }
        assert(lively =~= half_lively);
        let kept = filed.connections.restrict(lively);
        let half_kept = half_filed.connections.restrict(lively);
        assert(half_kept.dom() =~= kept.dom());
        if kept.contains_key(task.key) {
            assert(half_kept =~= kept.insert(task.key, kept[task.key].give_up(gone)));
        } else {
            assert(half_kept =~= kept);
        }
    }
    assert(half_filed.swept(task.now) == filed.swept(task.now).giving_up(task.key, gone));
}

/// A direction that was given up does not touch the other one: a frame the other way gives the same
/// messages and notices, moves the same counts and leaves the same state, but for the direction
/// given up, as if nothing had happened.
pub proof fn law_other_direction_goes_on(o: OrchestratorModel, input: FrameInput)
    requires
        o.inv(0),
        o.processable(input),
        o.connections.contains_key(input.key()),
    ensures
        ({
            let gone = !o.found(input).1;
            let half_o = o.giving_up(input.key(), gone);
            &&& half_o.processable(input)
            &&& half_o.worked_off(input).1.messages == o.worked_off(input).1.messages
            &&& half_o.worked_off(input).1.notices == o.worked_off(input).1.notices
            &&& half_o.processed(input) == o.processed(input).giving_up(input.key(), gone)
        }),
{
    let key = input.key();
    let gone = !o.found(input).1;
    let half_o = o.giving_up(key, gone);
    let (begun, task) = o.taken_in(input);
    assert(half_o.connections.remove(key) =~= o.connections.remove(key));
    assert(half_o.taken_in(input) == (begun, half(task)));
    lemma_half_worked(begun, task, input.events);
    let (done, last) = o.worked_off(input);
    lemma_taken_in(o, input);
    lemma_worked_carries_on(begun, task, input.events);
    lemma_half_end(done, last);
}

/// The task's connection lies between these two ends in the direction worked off, and all its
/// messages so far came from the first, went to the second, and have this time.
spec fn speaks_for(task: TaskModel, src: Endpoint, dst: Endpoint, timestamp: nat) -> bool {
    &&& task.connection.endpoints(task.c2s) == (src, dst)
    &&& task.timestamp == timestamp
    &&& forall|i: int|
        0 <= i < task.messages.len() ==> {
            let m = #[trigger] task.messages[i];
            &&& m.src_ip == src.ip && m.src_port == src.port
            &&& m.dst_ip == dst.ip && m.dst_port == dst.port
            &&& m.timestamp == timestamp
        }
}

proof fn lemma_worked_speaks_for(
    o: OrchestratorModel,
    task: TaskModel,
    events: Seq<Event>,
    src: Endpoint,
    dst: Endpoint,
    timestamp: nat,
)
    requires
        speaks_for(task, src, dst, timestamp),
    ensures
        speaks_for(worked(o, task, events).1, src, dst, timestamp),
    decreases events.len(),
{
    if events.len() > 0 {
        let (after, next, action) = o.step(task, events[0]);
        assert(speaks_for(next, src, dst, timestamp));
        lemma_worked_speaks_for(after, next, events.drop_first(), src, dst, timestamp);
    }
}

/// Every message that a frame gives comes from the frame's sender, goes to its receiver and has
/// the frame's capture time.
pub proof fn law_messages_carry_their_frame(o: OrchestratorModel, input: FrameInput, i: int)
    requires
        o.inv(0),
        0 <= i < o.message_count(input),
    ensures
        ({
            let m = o.worked_off(input).1.messages[i];
            &&& m.src_ip == input.frame.src_ip && m.src_port == input.frame.src_port
            &&& m.dst_ip == input.frame.dst_ip && m.dst_port == input.frame.dst_port
            &&& m.timestamp == input.timestamp
        }),
{
    let (begun, task) = o.taken_in(input);
    law_frame_has_its_connections_ends(o, input.frame);
    assert(speaks_for(task, input.src(), input.dst(), input.timestamp));
    lemma_worked_speaks_for(
        begun,
        task,
        input.events,
        input.src(),
        input.dst(),
        input.timestamp,
    );
}

/// A frame that brings, in order, one whole record of application data that the connection's keys
/// open gives one message, from the frame's sender to its receiver, with the frame's time, the
/// record's plaintext and what the dissector made of it; the dissector is that of the server's
/// port, and is handed what it left of the records before and then this record's plaintext. Then
/// the work on the frame is done.
pub proof fn law_in_order_record_becomes_a_message(
    o: OrchestratorModel,
    input: FrameInput,
    base: u32,
    content_type: u8,
    version: Seq<u8>,
    hi: u8,
    lo: u8,
    body: Seq<u8>,
    record: RecordModel,
    outcome: DissectOutcome,
)
    requires
        takeable(o, input.frame, input.packet_data),
        version.len() == 2,
        hi * 256 + lo == body.len(),
        input.packet_data.subrange(
            input.frame.payload_range.start as int,
            input.frame.payload_range.end as int,
        ) == seq![content_type] + version + seq![hi, lo] + body,
        content_type != 0x14,
        input.events == seq![Event::Continue, Event::Dissected(outcome), Event::Continue],
        ({
            let (found, c2s) = o.found(input);
            let stream = found.stream(c2s);
            &&& !found.desynced(c2s)
            &&& stream.base == Some(base)
            &&& input.frame.seq == seq_at(base, stream.next as int)
            &&& stream.ready().len() == 0
            &&& stream.pending.dom().len() == 0
            &&& found.state is Some
            &&& c2s || found.state->0.server_random is Some
            &&& found.state->0.decrypt(o.keylog.current, c2s, content_type, body).1 == Ok::<
                RecordModel,
                ProcessError,
            >(record)
        }),
        record.content_type == 0x17,
        !o.keylog.due(input.now),
    ensures
        ({
            let (found, c2s) = o.found(input);
            let (begun, task) = o.taken_in(input);
            let (done, last) = o.worked_off(input);
            let message = MessageModel {
                src_ip: input.frame.src_ip,
                src_port: input.frame.src_port,
                dst_ip: input.frame.dst_ip,
                dst_port: input.frame.dst_port,
                tls_app_data: record.plaintext,
                fields: match outcome {
                    DissectOutcome::Dissected { fields, .. } => fields@,
                    _ => FieldsModel::empty(),
                },
                timestamp: input.timestamp,
            };
            &&& begun.step(task, Event::Continue).2 == (ActionModel::Dissect {
                port: found.server_endpoint.port,
                buffer: found.tail(c2s) + record.plaintext,
            })
            &&& last.messages == seq![message]
            &&& last.stage is Done
            &&& done.counters.tls_records_seen == (o.counters.tls_records_seen + 1) as u64
            &&& done.counters.tls_records_decrypted == (o.counters.tls_records_decrypted + 1) as u64
        }),
{
    let (found, c2s) = o.found(input);
    let (begun, task) = o.taken_in(input);
    let frame = input.frame;
    lemma_begin_ok(
        o,
        frame,
        input.packet_index,
        input.packet_data,
        input.timestamp,
        input.now,
    );
    law_in_order_payload_is_taken_in(
        o,
        frame,
        input.packet_index,
        input.packet_data,
        input.timestamp,
        input.now,
        base,
    );
    law_frame_marks_its_connection(
        o,
        frame,
        input.packet_index,
        input.packet_data,
        input.timestamp,
        input.now,
    );
    law_frame_changes_no_tail(
        o,
        frame,
        input.packet_index,
        input.packet_data,
        input.timestamp,
        input.now,
    );
    law_frame_has_its_connections_ends(o, frame);
    let whole = seq![content_type] + version + seq![hi, lo] + body;
    let ready = task.connection.stream(c2s).ready();
    assert(ready =~= whole + Seq::empty());
    let taken = law_next_record_is_taken(
        begun,
        task,
        content_type,
        version,
        hi,
        lo,
        body,
        Seq::empty(),
    );
    let seen = OrchestratorModel {
        counters: Counters {
            tls_records_seen: (begun.counters.tls_records_seen + 1) as u64,
            ..begun.counters
        },
        ..begun
    };
    law_tried_records_are_sorted_out(seen, taken, content_type, body);
    let (o1, t1, a1) = begun.step(task, Event::Continue);
    let (o2, t2, a2) = o1.step(t1, Event::Dissected(outcome));
    law_message_says_what_the_record_was(
        o1,
        t1,
        record.plaintext,
        found.tail(c2s) + record.plaintext,
        outcome,
    );
    law_streams_give_only_records(o1, t1, Event::Dissected(outcome));
    assert(t2.connection.stream(c2s).ready().len() == 0);
    let (o3, t3, a3) = o2.step(t2, Event::Continue);
    assert(t3.stage is Done);
    let events = input.events;
    assert(events.drop_first() =~= seq![Event::Dissected(outcome), Event::Continue]);
    assert(events.drop_first().drop_first() =~= seq![Event::Continue]);
    assert(events.drop_first().drop_first().drop_first() =~= Seq::empty());
    reveal_with_fuel(worked, 5);
    assert(worked(begun, task, events) == (o3, t3));
    assert(t3.messages =~= seq![t3.messages[0]]);
}

} // verus!
