//! What holds of every frame, record and connection.

use vstd::prelude::*;
use crate::orchestrator::connections::{
    holds_nothing, spec_conn_key, ConnKey, Endpoint, MetaModel,
};
use crate::orchestrator::model::{
    first_record, lemma_begin_ok, ActionModel, DissectOutcome, Event, Notice, OrchestratorModel,
    StageModel, TaskModel,
};
use crate::lua::FrameFields;
use crate::pcap_input::TcpFrame;
use crate::reassembly::laws::{law_push_reports_its_losses, law_take_keeps_invariant};
use crate::reassembly::{flat, SegmentModel};
use crate::time::elapsed;

verus! {

/// Every record ever seen is accounted for, in exactly one of five ways.
pub proof fn law_records_add_up(o: OrchestratorModel)
    requires
        o.inv(0),
    ensures
        o.counters.tls_records_seen == o.counters.tls_records_decrypted
            + o.counters.tls_records_authfailed + o.counters.tls_records_nokey
            + o.counters.tls_records_no_client_hello + o.counters.tls_records_plaintext_handshake,
{
}

/// A record that decrypts to application data gives exactly one message, whatever comes of its
/// dissection, and it carries the decrypted bytes and the frame's time. No other step gives any.
pub proof fn law_one_message_per_record(o: OrchestratorModel, task: TaskModel, event: Event)
    requires
        task.expects(event),
    ensures
        ({
            let (after, next, action) = o.step(task, event);
            match task.stage {
                StageModel::AwaitDissect { plaintext, .. } => {
                    &&& next.messages.len() == task.messages.len() + 1
                    &&& next.messages.drop_last() == task.messages
                    &&& next.messages.last().tls_app_data == plaintext
                    &&& next.messages.last().timestamp == task.timestamp
                },
                _ => next.messages == task.messages,
            }
        }),
{
    let (after, next, action) = o.step(task, event);
    if task.stage is AwaitDissect {
        assert(next.messages.drop_last() =~= task.messages);
    }
}

/// Whichever way a record travels, its dissector is the one registered for the server's port, and
/// it is handed what the last dissection left over, then the record's plaintext.
pub proof fn law_dissected_on_the_servers_port(o: OrchestratorModel, task: TaskModel, event: Event)
    requires
        task.expects(event),
        o.step(task, event).2 is Dissect,
    ensures
        ({
            let (after, next, action) = o.step(task, event);
            &&& action->Dissect_port == task.connection.server_endpoint.port
            &&& action->Dissect_port == next.connection.server_endpoint.port
            &&& next.stage is AwaitDissect
            &&& next.stage->AwaitDissect_buffer == action->buffer
            &&& action->buffer == task.connection.tail(task.c2s)
                + next.stage->AwaitDissect_plaintext
            &&& next.connection.tail(task.c2s).len() == 0
        }),
{
}

/// A direction that was given up never yields a record again: working off a frame in it is done at
/// once, and no counter moves.
pub proof fn law_desynced_direction_is_silent(o: OrchestratorModel, task: TaskModel)
    requires
        o.task_ok(task),
        task.stage is Next,
        task.connection.desynced(task.c2s),
    ensures
        o.next(task) == (o, task.at(StageModel::Done), ActionModel::Done),
{
    let stream = task.connection.stream(task.c2s);
    assert(holds_nothing(stream));
    assert(flat(stream.contiguous) =~= Seq::empty());
}

/// A direction that was given up stays so, and takes nothing in any more: a frame in it leaves its
/// stream holding nothing.
pub proof fn law_desynced_direction_takes_nothing(
    o: OrchestratorModel,
    frame: TcpFrame,
    packet_index: usize,
    packet_data: Seq<u8>,
    timestamp: nat,
    now: nat,
)
    requires
        o.inv(0),
        ({
            let src = Endpoint { ip: frame.src_ip, port: frame.src_port };
            let dst = Endpoint { ip: frame.dst_ip, port: frame.dst_port };
            let found = o.connection_for(src, dst);
            found.desynced(src == found.client_endpoint)
        }),
    ensures
        ({
            let (after, task) = o.begin(frame, packet_index, packet_data, timestamp, now);
            &&& task.connection.desynced(task.c2s)
            &&& holds_nothing(task.connection.stream(task.c2s))
            &&& after.counters == o.counters
        }),
{
    let src = Endpoint { ip: frame.src_ip, port: frame.src_port };
    let dst = Endpoint { ip: frame.dst_ip, port: frame.dst_port };
    let key = spec_conn_key(src, dst);
    let found = o.connection_for(src, dst);
    if o.connections.contains_key(key) {
        assert(o.connection_ok(key, o.connections[key]));
    }
}

/// A gap that is abandoned gives up its own direction only: the other direction's stream and tail
/// stay as they were.
pub proof fn law_gap_spares_the_other_direction(
    o: OrchestratorModel,
    task: TaskModel,
    packet_index: usize,
    frame: TcpFrame,
    payload: Seq<u8>,
)
    ensures
        ({
            let (after, next) = o.pushed(task, packet_index, frame, payload);
            &&& next.connection.stream(!task.c2s) == task.connection.stream(!task.c2s)
            &&& next.connection.desynced(!task.c2s) == task.connection.desynced(!task.c2s)
            &&& next.connection.tail(!task.c2s) == task.connection.tail(!task.c2s)
            &&& next.connection.state == task.connection.state
        }),
{
}

/// A tail that loses bytes is told of: whenever the bytes dropped off tails go up, the frame's
/// notices say by how much. Working off records loses nothing else.
pub proof fn law_losses_are_told(o: OrchestratorModel, task: TaskModel, event: Event)
    requires
        task.expects(event),
        o.can_step(task),
    ensures
        ({
            let (after, next, action) = o.step(task, event);
            let lost = after.counters.tail_bytes_discarded - o.counters.tail_bytes_discarded;
            &&& lost >= 0
            &&& lost > 0 ==> next.notices == task.notices.push(
                Notice::TailDiscarded { bytes: lost as usize },
            )
            &&& after.counters.gap_abandoned_bytes == o.counters.gap_abandoned_bytes
        }),
{
}

/// A gap that is given up is told of, with the number of bytes lost, and its direction is given up
/// with it. Taking a frame in says nothing else, and loses nothing else.
pub proof fn law_abandoned_gap_is_told(
    o: OrchestratorModel,
    frame: TcpFrame,
    packet_index: usize,
    packet_data: Seq<u8>,
    timestamp: nat,
    now: nat,
)
    requires
        o.inv(0),
        frame.payload_range.start <= frame.payload_range.end <= packet_data.len(),
        packet_data.len() <= usize::MAX,
        o.can_begin(frame),
    ensures
        ({
            let (after, task) = o.begin(frame, packet_index, packet_data, timestamp, now);
            let lost = after.counters.gap_abandoned_bytes - o.counters.gap_abandoned_bytes;
            &&& lost >= 0
            &&& lost == 0 ==> task.notices.len() == 0 && after.counters == o.counters
            &&& lost > 0 ==> {
                &&& task.notices == seq![
                    Notice::GapAbandoned { bytes: lost as usize },
                    Notice::Desynced,
                ]
                &&& task.connection.desynced(task.c2s)
                &&& after.counters.connections_desynced == o.counters.connections_desynced + 1
            }
            &&& after.counters.tail_bytes_discarded == o.counters.tail_bytes_discarded
        }),
{
    lemma_begin_ok(o, frame, packet_index, packet_data, timestamp, now);
    let src = Endpoint { ip: frame.src_ip, port: frame.src_port };
    let dst = Endpoint { ip: frame.dst_ip, port: frame.dst_port };
    let found = o.connection_for(src, dst);
    let c2s = src == found.client_endpoint;
    let payload = packet_data.subrange(
        frame.payload_range.start as int,
        frame.payload_range.end as int,
    );
    let stream = o.flagged(found, c2s, frame, now).stream(c2s);
    let segment = SegmentModel { packet_index, start: frame.payload_range.start, data: payload };
    law_push_reports_its_losses(stream, frame.seq, segment, now);
    let (after, task) = o.begin(frame, packet_index, packet_data, timestamp, now);
    if stream.push(frame.seq, segment, now).1 is GapAbandoned && payload.len() > 0
        && !found.desynced(c2s) {
        assert(task.notices =~= seq![
            Notice::GapAbandoned { bytes: stream.push(frame.seq, segment, now).1->bytes },
            Notice::Desynced,
        ]);
    }
}

/// What a dissection left over waits, however many records and frames go by, until the next
/// dissection in its direction: no step changes the other direction's tail, and none but a
/// dissection's start and end changes this one's.
pub proof fn law_tail_waits_for_the_next_dissection(
    o: OrchestratorModel,
    task: TaskModel,
    event: Event,
)
    requires
        task.expects(event),
    ensures
        ({
            let (after, next, action) = o.step(task, event);
            &&& next.connection.tail(!task.c2s) == task.connection.tail(!task.c2s)
            &&& !(task.stage is AwaitDissect) && !(next.stage is AwaitDissect)
                ==> next.connection.tail(task.c2s) == task.connection.tail(task.c2s)
        }),
{
}

/// Taking a frame in changes no tail and no record-layer state.
pub proof fn law_frame_changes_no_tail(
    o: OrchestratorModel,
    frame: TcpFrame,
    packet_index: usize,
    packet_data: Seq<u8>,
    timestamp: nat,
    now: nat,
)
    ensures
        ({
            let src = Endpoint { ip: frame.src_ip, port: frame.src_port };
            let dst = Endpoint { ip: frame.dst_ip, port: frame.dst_port };
            let found = o.connection_for(src, dst);
            let (after, task) = o.begin(frame, packet_index, packet_data, timestamp, now);
            &&& task.connection.tail_c2s == found.tail_c2s
            &&& task.connection.tail_s2c == found.tail_s2c
            &&& task.connection.state == found.state
        }),
{
}

/// Bytes leave a stream only as whole records of the direction that is worked off.
pub proof fn law_streams_give_only_records(o: OrchestratorModel, task: TaskModel, event: Event)
    requires
        task.expects(event),
    ensures
        ({
            let (after, next, action) = o.step(task, event);
            &&& next.connection.stream(!task.c2s) == task.connection.stream(!task.c2s)
            &&& !(task.stage is Next) ==> next.connection.stream(task.c2s)
                == task.connection.stream(task.c2s)
        }),
{
}

/// What a dissector does not consume comes back in front of the next record: it is kept to the
/// last byte, or to the limit's last bytes, the rest being counted.
pub proof fn law_leftover_is_kept(
    o: OrchestratorModel,
    task: TaskModel,
    plaintext: Seq<u8>,
    buffer: Seq<u8>,
    fields: FrameFields,
    consumed: usize,
)
    requires
        consumed <= buffer.len(),
        o.counters.tail_bytes_discarded + buffer.len() <= u64::MAX,
    ensures
        ({
            let (after, next) = o.dissected(
                task,
                plaintext,
                buffer,
                DissectOutcome::Dissected { fields, consumed },
            );
            let kept = next.connection.tail(task.c2s);
            let lost = after.counters.tail_bytes_discarded - o.counters.tail_bytes_discarded;
            &&& kept.len() <= o.config.max_tail_bytes
            &&& consumed + lost + kept.len() == buffer.len()
            &&& kept == buffer.skip(buffer.len() - kept.len())
            &&& lost > 0 ==> kept.len() == o.config.max_tail_bytes
        }),
{
    let (after, next) = o.dissected(
        task,
        plaintext,
        buffer,
        DissectOutcome::Dissected { fields, consumed },
    );
    let kept = next.connection.tail(task.c2s);
    assert(kept =~= buffer.skip(buffer.len() - kept.len()));
}

/// A dissector that failed keeps the whole buffer for its next try, within the limit.
pub proof fn law_failed_dissection_keeps_the_buffer(
    o: OrchestratorModel,
    task: TaskModel,
    plaintext: Seq<u8>,
    buffer: Seq<u8>,
)
    requires
        buffer.len() <= o.config.max_tail_bytes,
    ensures
        o.dissected(task, plaintext, buffer, DissectOutcome::Failed).1.connection.tail(task.c2s)
            == buffer,
{
}

/// On a port without a dissector nothing is ever kept, so nothing can pile up.
pub proof fn law_no_dissector_keeps_nothing(
    o: OrchestratorModel,
    task: TaskModel,
    plaintext: Seq<u8>,
    buffer: Seq<u8>,
)
    requires
        o.task_ok(task),
        task.stage is AwaitDissect,
    ensures
        ({
            let (after, next) = o.dissected(task, plaintext, buffer, DissectOutcome::NoDissector);
            &&& next.connection.tail(task.c2s).len() == 0
            &&& after.counters == o.counters
            &&& after.logged_ports.contains(task.connection.server_endpoint.port)
            &&& o.logged_ports.contains(task.connection.server_endpoint.port) ==> next.notices
                == task.notices
        }),
{
}

/// A connection leaves the table on its close, and only then: with no idle timeout set, it is
/// there after a frame exactly if it is not closed, and every other connection is left alone.
pub proof fn law_evicted_only_when_closed(o: OrchestratorModel, task: TaskModel)
    requires
        o.task_ok(task),
        o.config.idle_timeout is None,
        o.can_end(),
    ensures
        o.end(task).connections.contains_key(task.key) <==> !task.connection.meta.closed(),
        !task.connection.meta.closed() ==> o.end(task).connections[task.key] == task.connection,
        forall|k: ConnKey|
            k != task.key ==> (o.end(task).connections.contains_key(k)
                <==> o.connections.contains_key(k)) && (o.connections.contains_key(k) ==> o.end(
                task,
            ).connections[k] == o.connections[k]),
        o.end(task).counters.evicted_connections == o.counters.evicted_connections
            + if task.connection.meta.closed() {
            1int
        } else {
            0int
        },
{
}

/// One direction's FIN closes nothing; both, or a RST from either side, do.
pub proof fn law_half_closed_is_open(meta: MetaModel, c2s: bool, now: nat, later: nat)
    requires
        !meta.rst_seen,
        !meta.fin_seen_c2s,
        !meta.fin_seen_s2c,
    ensures
        !meta.seen(c2s, true, false, now).closed(),
        !meta.seen(c2s, true, false, now).seen(c2s, true, false, later).closed(),
        meta.seen(c2s, true, false, now).seen(!c2s, true, false, later).closed(),
        meta.seen(c2s, false, true, now).closed(),
{
}

/// With an idle timeout set, a sweep drops exactly the connections without traffic for that long.
pub proof fn law_sweep_drops_the_idle(o: OrchestratorModel, now: nat, k: ConnKey)
    requires
        o.config.idle_timeout is Some,
        elapsed(o.last_sweep, now) >= o.config.sweep_interval@,
    ensures
        o.swept(now).connections.contains_key(k) <==> o.connections.contains_key(k)
            && !OrchestratorModel::idle(o.connections[k], o.config.idle_timeout->0@, now),
        o.swept(now).connections.contains_key(k) ==> o.swept(now).connections[k]
            == o.connections[k],
{
}

/// A record of a connection whose ClientHello was not seen is never decrypted.
pub proof fn law_no_client_hello_no_decryption(
    o: OrchestratorModel,
    task: TaskModel,
    content_type: u8,
    body: Seq<u8>,
)
    requires
        task.stage is Next,
        task.connection.state is None,
    ensures
        ({
            let (after, next, action) = o.sort_out(task, content_type, body);
            &&& action is Continue
            &&& next.messages == task.messages
            &&& after.counters.tls_records_decrypted == o.counters.tls_records_decrypted
            &&& after.counters.tls_records_nokey == o.counters.tls_records_nokey
            &&& after.counters.tls_records_authfailed == o.counters.tls_records_authfailed
        }),
{
}

/// The records that are never encrypted are never tried: a ChangeCipherSpec leaves the connection,
/// its sequence numbers included, as it was.
pub proof fn law_change_cipher_spec_is_passed_over(
    o: OrchestratorModel,
    task: TaskModel,
    body: Seq<u8>,
)
    ensures
        o.sort_out(task, 0x14, body).1 == task,
{
}

/// Records are worked off in order, and the work on a frame ends: each record taken shortens the
/// stream by its own length, and the work is done exactly when no whole record is left.
pub proof fn law_records_come_off_in_order(o: OrchestratorModel, task: TaskModel)
    requires
        o.task_ok(task),
        task.stage is Next,
    ensures
        ({
            let ready = task.connection.stream(task.c2s).ready();
            let (after, next, action) = o.next(task);
            &&& action is Done <==> first_record(ready) is None
            &&& first_record(ready) matches Some((content_type, body))
                ==> next.connection.stream(task.c2s).ready() == ready.skip(5 + body.len() as int)
            &&& first_record(ready) matches Some((content_type, body)) ==> ready.take(
                5 + body.len() as int,
            ).skip(5) == body
        }),
{
    let stream = task.connection.stream(task.c2s);
    let ready = stream.ready();
    match first_record(ready) {
        None => {},
        Some((content_type, body)) => {
            law_take_keeps_invariant(stream, (5 + body.len()) as int);
            assert(ready.take(5 + body.len() as int).skip(5) =~= body);
        },
    }
}

} // verus!
