//! What holds throughout any run of calls on a stream: the invariant and its limits, the anchor, and
//! that bytes can be traced back to the packets they came in.

use vstd::prelude::*;
use crate::reassembly::laws::{
    acceptable, law_push_keeps_invariant, law_push_reports_its_losses, law_take_keeps_invariant,
    lemma_evict, lemma_push_keeps_base,
};
use crate::reassembly::{
    after_take, first_key, flat, held_bytes, pieces_of, PendingLimits,
    SegmentModel, SourcePiece, StreamModel,
};

verus! {

/// A call that changes a stream.
pub enum StreamCall {
    SetIsn { first_byte_seq: u32 },
    Push { seq: u32, segment: SegmentModel, now: nat },
    Take { n: nat },
}

impl StreamModel {
    /// The stream after a call.
    pub open spec fn called(self, call: StreamCall) -> StreamModel {
        match call {
            StreamCall::SetIsn { first_byte_seq } => self.anchor(first_byte_seq),
            StreamCall::Push { seq, segment, now } => self.push(seq, segment, now).0,
            StreamCall::Take { n } => StreamModel {
                contiguous: after_take(self.contiguous, n as int),
                ..self
            },
        }
    }

    /// What the call requires.
    pub open spec fn callable(self, call: StreamCall) -> bool {
        match call {
            StreamCall::SetIsn { .. } => true,
            StreamCall::Push { segment, .. } => acceptable(self, segment),
            StreamCall::Take { n } => n <= self.ready().len(),
        }
    }

    /// Every segment ready or pending is a part of its packet.
    pub open spec fn sourced(self, packets: Seq<Seq<u8>>) -> bool {
        &&& forall|i: int|
            0 <= i < self.contiguous.len() ==> is_from((#[trigger] self.contiguous[i]), packets)
        &&& forall|k: u64| #[trigger]
            self.pending.contains_key(k) ==> is_from(self.pending[k], packets)
    }
}

/// The stream after a run of calls.
pub open spec fn after_calls(m: StreamModel, calls: Seq<StreamCall>) -> StreamModel
    decreases calls.len(),
{
    if calls.len() == 0 {
        m
    } else {
        after_calls(m.called(calls[0]), calls.drop_first())
    }
}

/// Each call can be made when its turn comes.
pub open spec fn all_callable(m: StreamModel, calls: Seq<StreamCall>) -> bool
    decreases calls.len(),
{
    calls.len() > 0 ==> m.callable(calls[0]) && all_callable(
        m.called(calls[0]),
        calls.drop_first(),
    )
}

/// The segment is what its packet holds at its place.
pub open spec fn is_from(segment: SegmentModel, packets: Seq<Seq<u8>>) -> bool {
    let packet = packets[segment.packet_index as int];
    &&& segment.packet_index < packets.len()
    &&& segment.start + segment.data.len() <= packet.len()
    &&& segment.data == packet.subrange(
        segment.start as int,
        segment.start + segment.data.len(),
    )
}

/// Every segment that the calls push is what its packet holds at its place.
pub open spec fn pushes_from(calls: Seq<StreamCall>, packets: Seq<Seq<u8>>) -> bool {
    forall|i: int|
        0 <= i < calls.len() ==> ((#[trigger] calls[i]) matches StreamCall::Push { segment, .. }
            ==> is_from(segment, packets))
}

/// What the packets hold at the pieces' places, one after the other.
pub open spec fn read_back(pieces: Seq<SourcePiece>, packets: Seq<Seq<u8>>) -> Seq<u8>
    decreases pieces.len(),
{
    if pieces.len() == 0 {
        Seq::empty()
    } else {
        let first = pieces[0];
        packets[first.packet_index as int].subrange(
            first.range.start as int,
            first.range.end as int,
        ) + read_back(pieces.drop_first(), packets)
    }
}

/// The bytes that the pieces cover.
pub open spec fn covered(pieces: Seq<SourcePiece>) -> int
    decreases pieces.len(),
{
    if pieces.len() == 0 {
        0
    } else {
        pieces[0].range.end - pieces[0].range.start + covered(pieces.drop_first())
    }
}

proof fn lemma_called_keeps_invariant(m: StreamModel, call: StreamCall)
    requires
        m.inv(),
        m.callable(call),
    ensures
        m.called(call).inv(),
        m.called(call).limits == m.limits,
        m.base is Some ==> m.called(call).base == m.base,
{
    match call {
        StreamCall::SetIsn { .. } => {},
        StreamCall::Push { seq, segment, now } => {
            law_push_keeps_invariant(m, seq, segment, now);
            law_push_reports_its_losses(m, seq, segment, now);
            lemma_push_keeps_base(m, seq, segment, now);
        },
        StreamCall::Take { n } => law_take_keeps_invariant(m, n as int),
    }
}

proof fn lemma_calls_keep_invariant(m: StreamModel, calls: Seq<StreamCall>)
    requires
        m.inv(),
        all_callable(m, calls),
    ensures
        after_calls(m, calls).inv(),
        after_calls(m, calls).limits == m.limits,
        m.base is Some ==> after_calls(m, calls).base == m.base,
    decreases calls.len(),
{
    if calls.len() > 0 {
        lemma_called_keeps_invariant(m, calls[0]);
        lemma_calls_keep_invariant(m.called(calls[0]), calls.drop_first());
    }
}

proof fn lemma_fresh_is_sound(limits: PendingLimits)
    ensures
        StreamModel::fresh(limits).inv(),
{
    let m = StreamModel::fresh(limits);
    assert(!m.pending.contains_key(first_key(m.pending)));
    assert(m.pending.dom() =~= Set::empty());
}

/// Whatever is called in whatever order, no more bytes and no more segments are held than the
/// limits that the stream was made with allow.
pub proof fn law_limits_hold_throughout(limits: PendingLimits, calls: Seq<StreamCall>)
    requires
        all_callable(StreamModel::fresh(limits), calls),
    ensures
        ({
            let after = after_calls(StreamModel::fresh(limits), calls);
            &&& after.inv()
            &&& after.limits == limits
            &&& held_bytes(after.pending) <= limits.max_bytes
            &&& after.pending.dom().len() <= limits.max_packets
        }),
{
    lemma_fresh_is_sound(limits);
    lemma_calls_keep_invariant(StreamModel::fresh(limits), calls);
}

/// A stream that is anchored stays anchored where it is, whatever is called.
pub proof fn law_anchor_stays_throughout(m: StreamModel, calls: Seq<StreamCall>)
    requires
        m.inv(),
        m.base is Some,
        all_callable(m, calls),
    ensures
        after_calls(m, calls).base == m.base,
{
    lemma_calls_keep_invariant(m, calls);
}

proof fn lemma_trim_is_from(segment: SegmentModel, packets: Seq<Seq<u8>>, n: int)
    requires
        segment.inv(),
        is_from(segment, packets),
        0 <= n <= segment.data.len(),
    ensures
        is_from(segment.trim(n), packets),
{
    let packet = packets[segment.packet_index as int];
    assert(segment.trim(n).data =~= packet.subrange(
        segment.start + n,
        segment.start + segment.data.len(),
    ));
}

proof fn lemma_drain_sourced(m: StreamModel, packets: Seq<Seq<u8>>)
    requires
        m.sourced(packets),
        m.pending.dom().finite(),
        forall|k: u64| #[trigger] m.pending.contains_key(k) ==> m.pending[k].inv(),
    ensures
        m.drain().sourced(packets),
    decreases m.pending.dom().len(),
{
    let k = first_key(m.pending);
    if m.pending.contains_key(k) && k <= m.next {
        let segment = m.pending[k];
        let rest = StreamModel { pending: m.pending.remove(k), ..m };
        if k + segment.data.len() <= m.next {
            lemma_drain_sourced(rest, packets);
        } else {
            lemma_trim_is_from(segment, packets, m.next - k);
            lemma_drain_sourced(rest.deliver(segment.trim(m.next - k)), packets);
        }
    }
}

proof fn lemma_push_sourced(
    m: StreamModel,
    seq: u32,
    segment: SegmentModel,
    now: nat,
    packets: Seq<Seq<u8>>,
)
    requires
        m.inv(),
        acceptable(m, segment),
        m.sourced(packets),
        is_from(segment, packets),
    ensures
        m.push(seq, segment, now).0.sourced(packets),
{
    let rel = m.relative(seq);
    let a = m.anchor(seq);
    if segment.data.len() > 0 && rel + segment.data.len() > m.next {
        if rel <= m.next {
            lemma_trim_is_from(segment, packets, m.next - rel);
            lemma_drain_sourced(a.deliver(segment.trim(m.next - rel)), packets);
        } else {
            let since = match m.since {
                Some(since) => since,
                None => now,
            };
            let held = StreamModel {
                pending: m.pending.insert(rel as u64, segment),
                since: Some(since),
                ..a
            };
            lemma_evict(held);
            assert forall|k: u64| #[trigger] held.evict().pending.contains_key(k) implies is_from(
                held.evict().pending[k],
                packets,
            ) by {
                assert(held.evict().pending.dom().contains(k));
                assert(held.pending.contains_key(k));
            }
        }
    }
}

proof fn lemma_take_sourced(segments: Seq<SegmentModel>, n: int, packets: Seq<Seq<u8>>)
    requires
        0 <= n <= flat(segments).len(),
        forall|i: int| 0 <= i < segments.len() ==> (#[trigger] segments[i]).inv(),
        forall|i: int| 0 <= i < segments.len() ==> is_from(#[trigger] segments[i], packets),
    ensures
        forall|i: int|
            0 <= i < after_take(segments, n).len() ==> is_from(
                #[trigger] after_take(segments, n)[i],
                packets,
            ),
        read_back(pieces_of(segments, n), packets) == flat(segments).take(n),
        covered(pieces_of(segments, n)) == n,
        forall|i: int|
            0 <= i < pieces_of(segments, n).len() ==> (#[trigger] pieces_of(
                segments,
                n,
            )[i]).range.start < pieces_of(segments, n)[i].range.end,
        n == 0 ==> pieces_of(segments, n).len() == 0,
    decreases segments.len(),
{
    let after = after_take(segments, n);
    let pieces = pieces_of(segments, n);
    if segments.len() == 0 || n <= 0 {
        assert(flat(segments).take(n) =~= Seq::empty());
    } else {
        let first = segments[0];
        let rest = segments.drop_first();
        let take = if n < first.data.len() { n } else { first.data.len() as int };
        let packet = packets[first.packet_index as int];
        assert forall|i: int| 0 <= i < rest.len() implies (#[trigger] rest[i]).inv() && is_from(
            rest[i],
            packets,
        ) by {
            assert(rest[i] == segments[i + 1]);
        }
        assert(flat(segments) == first.data + flat(rest));
        lemma_take_sourced(rest, n - take, packets);
        let more = pieces_of(rest, n - take);
        assert(pieces.drop_first() =~= more);
        assert(packet.subrange(first.start as int, first.start + take) =~= first.data.take(take));
        assert(flat(segments).take(n) =~= first.data.take(take) + flat(rest).take(n - take));
        assert forall|i: int| 0 <= i < pieces.len() implies (#[trigger] pieces[i]).range.start
            < pieces[i].range.end by {
            if i > 0 {
                assert(pieces[i] == more[i - 1]);
            }
        }
        if n < first.data.len() {
            lemma_trim_is_from(first, packets, n);
            assert forall|i: int| 0 <= i < after.len() implies is_from(
                #[trigger] after[i],
                packets,
            ) by {
                if i > 0 {
                    assert(after[i] == segments[i]);
                }
            }
        } else {
            assert(after == after_take(rest, n - take));
        }
    }
}

proof fn lemma_calls_sourced(m: StreamModel, calls: Seq<StreamCall>, packets: Seq<Seq<u8>>)
    requires
        m.inv(),
        m.sourced(packets),
        all_callable(m, calls),
        pushes_from(calls, packets),
    ensures
        after_calls(m, calls).sourced(packets),
    decreases calls.len(),
{
    if calls.len() > 0 {
        let rest = calls.drop_first();
        let after = m.called(calls[0]);
        lemma_called_keeps_invariant(m, calls[0]);
        match calls[0] {
            StreamCall::SetIsn { .. } => {},
            StreamCall::Push { seq, segment, now } => lemma_push_sourced(
                m,
                seq,
                segment,
                now,
                packets,
            ),
            StreamCall::Take { n } => lemma_take_sourced(m.contiguous, n as int, packets),
        }
        assert(after.sourced(packets));
        assert forall|i: int| 0 <= i < rest.len() implies ((#[trigger] rest[i]) matches
            StreamCall::Push { segment, .. } ==> is_from(segment, packets)) by {
            assert(rest[i] == calls[i + 1]);
        }
        lemma_calls_sourced(after, rest, packets);
    }
}

/// Bytes can be traced back: whatever was called before, retransmits trimmed and parts taken
/// included, the packets hold at the places of the pieces handed out, read in order, exactly the
/// bytes handed out with them. No piece is empty, and together they cover the bytes.
pub proof fn law_pieces_lead_back(
    limits: PendingLimits,
    calls: Seq<StreamCall>,
    packets: Seq<Seq<u8>>,
    n: int,
)
    requires
        all_callable(StreamModel::fresh(limits), calls),
        pushes_from(calls, packets),
        0 <= n <= after_calls(StreamModel::fresh(limits), calls).ready().len(),
    ensures
        ({
            let m = after_calls(StreamModel::fresh(limits), calls);
            let pieces = pieces_of(m.contiguous, n);
            &&& read_back(pieces, packets) == m.ready().take(n)
            &&& covered(pieces) == n
            &&& forall|i: int|
                0 <= i < pieces.len() ==> (#[trigger] pieces[i]).range.start < pieces[i].range.end
            &&& n == 0 ==> pieces.len() == 0
        }),
{
    let fresh = StreamModel::fresh(limits);
    lemma_fresh_is_sound(limits);
    lemma_calls_keep_invariant(fresh, calls);
    lemma_calls_sourced(fresh, calls, packets);
    lemma_take_sourced(after_calls(fresh, calls).contiguous, n, packets);
}

} // verus!
