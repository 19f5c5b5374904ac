//! What holds of a reassembled stream whatever order its segments arrive in.

use vstd::prelude::*;
use crate::reassembly::{
    after_take, first_key, flat, held_bytes, lemma_first_key, lemma_flat_push, lemma_held_insert,
    lemma_held_remove, placed, PushOutcome, SegmentModel, StreamModel, StreamReassembler,
    HALF_WINDOW, MAX_SEGMENT_LEN, SEQ_SPAN,
};

verus! {

impl StreamModel {
    /// The byte at offset `i` of the stream has been delivered or is held.
    pub open spec fn has(self, i: int) -> bool {
        i < self.next || exists|k: u64| #[trigger]
            self.pending.contains_key(k) && k <= i < k + self.pending[k].data.len()
    }

    /// How many bytes of the stream have been consumed.
    pub open spec fn consumed(self) -> int {
        self.next - self.ready().len()
    }

    /// Every byte that was delivered and not consumed, and every byte held, is the one that
    /// `stream` has at its place.
    pub open spec fn faithful(self, stream: Seq<u8>) -> bool {
        &&& self.ready().len() <= self.next <= stream.len()
        &&& self.ready() == stream.subrange(self.next - self.ready().len(), self.next as int)
        &&& forall|k: u64| #[trigger]
            self.pending.contains_key(k) ==> is_part(self.pending[k].data, stream, k as int)
    }
}

/// `data` is what `stream` holds from offset `at` on.
pub open spec fn is_part(data: Seq<u8>, stream: Seq<u8>, at: int) -> bool {
    0 <= at && at + data.len() <= stream.len() && data == stream.subrange(at, at + data.len())
}

/// The segments pending are well formed.
spec fn sound(m: StreamModel) -> bool {
    &&& m.pending.dom().finite()
    &&& forall|i: int| 0 <= i < m.contiguous.len() ==> (#[trigger] m.contiguous[i]).inv()
    &&& forall|k: u64| #[trigger]
        m.pending.contains_key(k) ==> k + m.pending[k].data.len() <= u64::MAX && m.pending[k].inv()
}

proof fn lemma_drain(m: StreamModel)
    requires
        sound(m),
    ensures
        sound(m.drain()),
        m.drain().base == m.base,
        m.drain().limits == m.limits,
        m.drain().since == m.since,
        m.drain().next >= m.next,
        held_bytes(m.drain().pending) <= held_bytes(m.pending),
        m.drain().pending.dom().len() <= m.pending.dom().len(),
        forall|k: u64| #[trigger] m.drain().pending.contains_key(k) ==> m.drain().next < k,
        forall|i: int| m.drain().has(i) <==> m.has(i),
        m.drain().consumed() == m.consumed(),
    decreases m.pending.dom().len(),
{
    let k = first_key(m.pending);
    if m.pending.dom().len() == 0 {
        assert(m.pending.dom() =~= Set::empty());
        assert(!m.pending.dom().contains(k));
    } else {
        lemma_first_key(m.pending);
        if k <= m.next {
            let segment = m.pending[k];
            let rest = StreamModel { pending: m.pending.remove(k), ..m };
            lemma_held_remove(m.pending, k);
            let after = if k + segment.data.len() <= m.next {
                rest
            } else {
                rest.deliver(segment.trim(m.next - k))
            };
            assert(sound(after));
            lemma_flat_push(rest.contiguous, segment.trim(m.next - k));
            assert(after.consumed() == m.consumed());
            lemma_drain(after);
            assert forall|i: int| m.drain().has(i) <==> m.has(i) by {
                if m.has(i) && i >= m.next {
                    let j = choose|j: u64| #[trigger]
                        m.pending.contains_key(j) && j <= i < j + m.pending[j].data.len();
                    if j != k {
                        assert(after.pending.contains_key(j));
                    }
                    assert(after.has(i));
                }
                if after.has(i) && i >= after.next {
                    let j = choose|j: u64| #[trigger]
                        after.pending.contains_key(j) && j <= i < j
                            + after.pending[j].data.len();
                    assert(m.pending.contains_key(j));
                    assert(m.has(i));
                }
                if m.next <= i < after.next {
                    assert(m.pending.contains_key(k));
                    assert(m.has(i));
                }
                assert(after.has(i) <==> m.has(i));
            }
        }
    }
}

proof fn lemma_deliver_faithful(m: StreamModel, segment: SegmentModel, stream: Seq<u8>)
    requires
        m.faithful(stream),
        is_part(segment.data, stream, m.next as int),
    ensures
        m.deliver(segment).faithful(stream),
{
    lemma_flat_push(m.contiguous, segment);
    let after = m.deliver(segment);
    assert(after.ready() =~= stream.subrange(
        after.next - after.ready().len(),
        after.next as int,
    ));
}

proof fn lemma_trim_part(segment: SegmentModel, stream: Seq<u8>, at: int, n: int)
    requires
        is_part(segment.data, stream, at),
        0 <= n <= segment.data.len(),
    ensures
        is_part(segment.trim(n).data, stream, at + n),
{
    assert(segment.trim(n).data =~= stream.subrange(at + n, at + segment.data.len()));
}

proof fn lemma_drain_faithful(m: StreamModel, stream: Seq<u8>)
    requires
        sound(m),
        m.faithful(stream),
    ensures
        m.drain().faithful(stream),
    decreases m.pending.dom().len(),
{
    let k = first_key(m.pending);
    if m.pending.dom().len() > 0 {
        lemma_first_key(m.pending);
        if k <= m.next {
            let segment = m.pending[k];
            let rest = StreamModel { pending: m.pending.remove(k), ..m };
            assert(rest.faithful(stream));
            if k + segment.data.len() <= m.next {
                lemma_drain_faithful(rest, stream);
            } else {
                lemma_trim_part(segment, stream, k as int, m.next - k);
                lemma_deliver_faithful(rest, segment.trim(m.next - k), stream);
                assert(sound(rest.deliver(segment.trim(m.next - k))));
                lemma_drain_faithful(rest.deliver(segment.trim(m.next - k)), stream);
            }
        }
    } else {
        assert(m.pending.dom() =~= Set::empty());
        assert(!m.pending.dom().contains(k));
    }
}

pub(crate) proof fn lemma_evict(m: StreamModel)
    requires
        m.pending.dom().finite(),
    ensures
        m.evict() == (StreamModel { pending: m.evict().pending, ..m }),
        m.evict().pending.submap_of(m.pending),
        m.evict().pending.dom().finite(),
        held_bytes(m.evict().pending) <= m.limits.max_bytes,
        m.evict().pending.dom().len() <= m.limits.max_packets,
        held_bytes(m.evict().pending) <= held_bytes(m.pending),
    decreases m.pending.dom().len(),
{
    let k = first_key(m.pending);
    if m.pending.dom().len() > 0 {
        lemma_first_key(m.pending);
        lemma_held_remove(m.pending, k);
        if !(held_bytes(m.pending) <= m.limits.max_bytes && m.pending.dom().len()
            <= m.limits.max_packets) {
            lemma_evict(StreamModel { pending: m.pending.remove(k), ..m });
        }
    } else {
        assert(m.pending.dom() =~= Set::empty());
        assert(!m.pending.dom().contains(k));
    }
}

/// What every segment pushed must satisfy: it fits in memory beside what is held already, and its
/// offset in the stream fits in a `u64`.
pub open spec fn acceptable(m: StreamModel, segment: SegmentModel) -> bool {
    &&& segment.data.len() <= MAX_SEGMENT_LEN
    &&& segment.start + segment.data.len() <= usize::MAX
    &&& m.ready().len() + held_bytes(m.pending) + segment.data.len() <= usize::MAX
    &&& m.next + HALF_WINDOW + segment.data.len() <= u64::MAX
}

/// The invariant holds after every push.
pub proof fn law_push_keeps_invariant(m: StreamModel, seq: u32, segment: SegmentModel, now: nat)
    requires
        m.inv(),
        acceptable(m, segment),
    ensures
        m.push(seq, segment, now).0.inv(),
{
    let rel = m.relative(seq);
    let a = m.anchor(seq);
    if segment.data.len() > 0 && rel + segment.data.len() > m.next {
        if rel <= m.next {
            let d = a.deliver(segment.trim(m.next - rel));
            assert(sound(d));
            lemma_drain(d);
            lemma_empty_iff(d.drain());
            lemma_empty_iff(d);
        } else if !(m.pending.contains_key(rel as u64) && m.pending[rel as u64].data.len()
            >= segment.data.len()) {
            let since = match m.since {
                Some(since) => since,
                None => now,
            };
            let held = StreamModel {
                pending: m.pending.insert(rel as u64, segment),
                since: Some(since),
                ..a
            };
            assert(sound(held));
            lemma_evict(held);
            assert forall|k: u64| #[trigger] held.evict().pending.contains_key(k) implies m.next
                < k && k + held.evict().pending[k].data.len() <= u64::MAX
                && held.evict().pending[k].inv() by {
                assert(held.evict().pending.dom().contains(k));
                assert(held.pending.contains_key(k));
            }
            assert(held_bytes(Map::empty()) == 0) by {
                assert(!Map::<u64, SegmentModel>::empty().contains_key(
                    first_key(Map::empty()),
                ));
            }
        }
    }
}

proof fn lemma_empty_iff(m: StreamModel)
    requires
        m.pending.dom().finite(),
    ensures
        m.pending.dom().len() == 0 <==> m.pending =~= Map::empty(),
{
    if m.pending.dom().len() == 0 {
        assert(m.pending.dom() =~= Set::empty());
    }
}

/// Bytes pushed true to the stream stay true to it: whatever the order, the overlaps and the
/// duplicates, what is delivered is the stream, byte for byte, without a hole.
pub proof fn law_push_is_faithful(
    m: StreamModel,
    seq: u32,
    segment: SegmentModel,
    now: nat,
    stream: Seq<u8>,
)
    requires
        m.inv(),
        acceptable(m, segment),
        m.faithful(stream),
        is_part(segment.data, stream, m.relative(seq)),
    ensures
        m.push(seq, segment, now).0.faithful(stream),
{
    let rel = m.relative(seq);
    let a = m.anchor(seq);
    if segment.data.len() > 0 && rel + segment.data.len() > m.next {
        if rel <= m.next {
            lemma_trim_part(segment, stream, rel, m.next - rel);
            assert(a.faithful(stream));
            lemma_deliver_faithful(a, segment.trim(m.next - rel), stream);
            let d = a.deliver(segment.trim(m.next - rel));
            assert(sound(d));
            lemma_drain_faithful(d, stream);
        } else if !(m.pending.contains_key(rel as u64) && m.pending[rel as u64].data.len()
            >= segment.data.len()) {
            let since = match m.since {
                Some(since) => since,
                None => now,
            };
            let held = StreamModel {
                pending: m.pending.insert(rel as u64, segment),
                since: Some(since),
                ..a
            };
            assert(held.faithful(stream));
            lemma_evict(held);
            assert(held.evict().faithful(stream)) by {
                assert forall|k: u64| #[trigger]
                    held.evict().pending.contains_key(k) implies is_part(
                    held.evict().pending[k].data,
                    stream,
                    k as int,
                ) by {
                    assert(held.pending.contains_key(k));
                    assert(held.evict().pending.dom().contains(k));
                }
            }
        }
    }
}

/// Nothing is lost unless it is reported: after a push that abandons no gap, exactly the bytes
/// that were there before and those of the segment are there.
pub proof fn law_push_loses_nothing(m: StreamModel, seq: u32, segment: SegmentModel, now: nat)
    requires
        m.inv(),
        acceptable(m, segment),
        !(m.push(seq, segment, now).1 is GapAbandoned),
    ensures
        forall|i: int|
            m.push(seq, segment, now).0.has(i) <==> m.has(i) || m.relative(seq) <= i
                < m.relative(seq) + segment.data.len(),
{
    let rel = m.relative(seq);
    let a = m.anchor(seq);
    let after = m.push(seq, segment, now).0;
    if segment.data.len() > 0 && rel + segment.data.len() > m.next {
        if rel <= m.next {
            let d = a.deliver(segment.trim(m.next - rel));
            assert(sound(d));
            lemma_drain(d);
            assert forall|i: int|
                after.has(i) <==> m.has(i) || rel <= i < rel + segment.data.len() by {
                assert(after.has(i) <==> d.has(i)) by {
                    assert(after.pending == d.drain().pending);
                    assert(after.has(i) <==> d.drain().has(i));
                }
                if m.has(i) && i >= m.next {
                    let j = choose|j: u64| #[trigger]
                        m.pending.contains_key(j) && j <= i < j + m.pending[j].data.len();
                    assert(d.pending.contains_key(j));
                }
                if d.has(i) && i >= d.next {
                    let j = choose|j: u64| #[trigger]
                        d.pending.contains_key(j) && j <= i < j + d.pending[j].data.len();
                    assert(m.pending.contains_key(j));
                }
            }
        } else if m.pending.contains_key(rel as u64) && m.pending[rel as u64].data.len()
            >= segment.data.len() {
            assert forall|i: int|
                after.has(i) <==> m.has(i) || rel <= i < rel + segment.data.len() by {
                if rel <= i < rel + segment.data.len() {
                    assert(a.pending.contains_key(rel as u64));
                }
                if m.has(i) && i >= m.next {
                    let j = choose|j: u64| #[trigger]
                        m.pending.contains_key(j) && j <= i < j + m.pending[j].data.len();
                    assert(after.pending.contains_key(j));
                }
                if after.has(i) && i >= m.next {
                    let j = choose|j: u64| #[trigger]
                        after.pending.contains_key(j) && j <= i < j
                            + after.pending[j].data.len();
                    assert(m.pending.contains_key(j));
                }
            }
        } else {
            assert forall|i: int|
                after.has(i) <==> m.has(i) || rel <= i < rel + segment.data.len() by {
                if rel <= i < rel + segment.data.len() {
                    assert(after.pending.contains_key(rel as u64));
                }
                if m.has(i) && i >= m.next {
                    let j = choose|j: u64| #[trigger]
                        m.pending.contains_key(j) && j <= i < j + m.pending[j].data.len();
                    assert(after.pending.contains_key(j));
                }
                if after.has(i) && i >= m.next {
                    let j = choose|j: u64| #[trigger]
                        after.pending.contains_key(j) && j <= i < j
                            + after.pending[j].data.len();
                    if j != rel {
                        assert(m.pending.contains_key(j));
                    }
                }
            }
        }
    }
}

/// Once no byte before offset `n` is missing, all of them have been delivered.
pub proof fn law_no_gap_means_delivered(m: StreamModel, n: int)
    requires
        m.inv(),
        forall|i: int| 0 <= i < n ==> m.has(i),
    ensures
        m.next >= n,
{
    if m.next < n {
        assert(m.has(m.next as int));
    }
}

/// A retransmission of a segment that was delivered changes nothing, at any later time, as long as
/// the segment is still in reach.
pub proof fn law_retransmission_changes_nothing(
    m: StreamModel,
    seq: u32,
    segment: SegmentModel,
    now: nat,
    later: nat,
)
    requires
        m.inv(),
        acceptable(m, segment),
        m.push(seq, segment, now).1 is Delivered,
        in_reach(m.push(seq, segment, now).0.next, m.relative(seq)),
    ensures
        m.push(seq, segment, now).0.push(seq, segment, later) == (
            m.push(seq, segment, now).0,
            PushOutcome::DuplicateDiscarded,
        ),
{
    let rel = m.relative(seq);
    let a = m.anchor(seq);
    let d = a.deliver(segment.trim(m.next - rel));
    let after = m.push(seq, segment, now).0;
    assert(sound(d));
    lemma_drain(d);
    let base = a.base->0;
    assert(after.base == Some(base));
    if m.base is Some {
        lemma_placed_fits(base, m.next, seq);
    }
    law_segment_in_reach_is_placed(after, base, rel, seq);
}

/// The byte at the offset where a segment is placed has the segment's sequence number.
proof fn lemma_placed_fits(base: u32, next: nat, seq: u32)
    ensures
        seq == seq_at(base, placed(base, next, seq)),
{
}

/// A push consumes nothing.
pub proof fn law_push_consumes_nothing(m: StreamModel, seq: u32, segment: SegmentModel, now: nat)
    requires
        m.inv(),
        acceptable(m, segment),
    ensures
        m.push(seq, segment, now).0.consumed() == m.consumed(),
{
    let rel = m.relative(seq);
    let a = m.anchor(seq);
    if segment.data.len() > 0 && rel + segment.data.len() > m.next {
        if rel <= m.next {
            let d = a.deliver(segment.trim(m.next - rel));
            assert(sound(d));
            lemma_drain(d);
            lemma_flat_push(a.contiguous, segment.trim(m.next - rel));
        } else {
            let since = match m.since {
                Some(since) => since,
                None => now,
            };
            lemma_evict(
                StreamModel {
                    pending: m.pending.insert(rel as u64, segment),
                    since: Some(since),
                    ..a
                },
            );
        }
    }
}

/// What a push reports lost is exactly what it took away of what it held, its own bytes included,
/// and a push leaves the limits alone.
pub proof fn law_push_reports_its_losses(
    m: StreamModel,
    seq: u32,
    segment: SegmentModel,
    now: nat,
)
    requires
        m.inv(),
        acceptable(m, segment),
    ensures
        m.push(seq, segment, now).0.limits == m.limits,
        m.push(seq, segment, now).1 matches PushOutcome::GapAbandoned { bytes } ==> 0 < bytes
            <= held_bytes(m.pending) + segment.data.len(),
        m.push(seq, segment, now).1 matches PushOutcome::GapAbandoned { bytes } ==> bytes
            + held_bytes(m.push(seq, segment, now).0.pending) == held_bytes(
            m.pending.insert(m.relative(seq) as u64, segment),
        ),
{
    let rel = m.relative(seq);
    let a = m.anchor(seq);
    if segment.data.len() > 0 && rel + segment.data.len() > m.next {
        if rel <= m.next {
            let d = a.deliver(segment.trim(m.next - rel));
            assert(sound(d));
            lemma_drain(d);
        } else {
            let since = match m.since {
                Some(since) => since,
                None => now,
            };
            let held = StreamModel {
                pending: m.pending.insert(rel as u64, segment),
                since: Some(since),
                ..a
            };
            lemma_held_insert(m.pending, rel as u64, segment);
            lemma_held_remove(held.pending, rel as u64);
            lemma_evict(held);
            assert(sound(held));
            assert(held_bytes(Map::empty()) == 0) by {
                assert(!Map::<u64, SegmentModel>::empty().contains_key(first_key(Map::empty())));
            }
            if held_bytes(held.pending) > m.limits.max_bytes || held.pending.dom().len()
                > m.limits.max_packets {
                lemma_first_key(held.pending);
                let k = first_key(held.pending);
                lemma_held_remove(held.pending, k);
                lemma_evict(StreamModel { pending: held.pending.remove(k), ..held });
            }
        }
    }
}

/// A segment with its true offset in the stream, its sequence number, and the clock reading at
/// which it is pushed.
pub struct Arrival {
    pub at: int,
    pub seq: u32,
    pub segment: SegmentModel,
    pub now: nat,
}

/// The sequence number of the byte at offset `at` of a stream whose first byte has `base`.
pub open spec fn seq_at(base: u32, at: int) -> int {
    (base + at) % 0x1_0000_0000
}

/// The stream after `arrivals` are pushed in turn.
pub open spec fn push_all(m: StreamModel, arrivals: Seq<Arrival>) -> StreamModel
    decreases arrivals.len(),
{
    if arrivals.len() == 0 {
        m
    } else {
        let first = arrivals[0];
        push_all(m.push(first.seq, first.segment, first.now).0, arrivals.drop_first())
    }
}

/// Each arrival can be pushed when its turn comes, and no gap is abandoned on the way.
pub open spec fn none_abandoned(m: StreamModel, arrivals: Seq<Arrival>) -> bool
    decreases arrivals.len(),
{
    arrivals.len() > 0 ==> {
        let first = arrivals[0];
        let (after, outcome) = m.push(first.seq, first.segment, first.now);
        &&& acceptable(m, first.segment)
        &&& !(outcome is GapAbandoned)
        &&& none_abandoned(after, arrivals.drop_first())
    }
}

/// A segment that begins at offset `at` can be told from all others by its sequence number: it lies
/// within the first `SEQ_SPAN` bytes while these are not complete, and within `HALF_WINDOW` of the
/// next expected byte later.
pub open spec fn in_reach(next: nat, at: int) -> bool {
    if next < SEQ_SPAN {
        0 <= at < SEQ_SPAN
    } else {
        next - HALF_WINDOW < at <= next + HALF_WINDOW
    }
}

/// Each arrival carries the sequence number of its offset and is in reach when its turn comes.
pub open spec fn all_in_reach(m: StreamModel, base: u32, arrivals: Seq<Arrival>) -> bool
    decreases arrivals.len(),
{
    arrivals.len() > 0 ==> {
        let first = arrivals[0];
        &&& first.seq == seq_at(base, first.at)
        &&& in_reach(m.next, first.at)
        &&& all_in_reach(
            m.push(first.seq, first.segment, first.now).0,
            base,
            arrivals.drop_first(),
        )
    }
}

/// One of `arrivals` brings the byte at offset `i` of the stream.
pub open spec fn brought(arrivals: Seq<Arrival>, i: int) -> bool {
    exists|a: int|
        0 <= a < arrivals.len() && (#[trigger] arrivals[a]).at <= i < arrivals[a].at
            + arrivals[a].segment.data.len()
}

/// Every arrival is a part of `stream`, at its offset.
pub open spec fn all_parts(arrivals: Seq<Arrival>, stream: Seq<u8>) -> bool {
    forall|a: int|
        0 <= a < arrivals.len() ==> is_part(
            (#[trigger] arrivals[a]).segment.data,
            stream,
            arrivals[a].at,
        )
}

/// A segment in reach is placed where it belongs, however often the sequence numbers have wrapped
/// round.
pub proof fn law_segment_in_reach_is_placed(m: StreamModel, base: u32, at: int, seq: u32)
    requires
        m.base == Some(base),
        seq == seq_at(base, at),
        in_reach(m.next, at),
    ensures
        m.relative(seq) == at,
{
}

/// Within the first `SEQ_SPAN` bytes the outcome follows from the distance to the first byte alone.
/// What is complete already changes nothing; what reaches the next expected byte is delivered from
/// there on; nothing else is.
pub proof fn law_outcome_follows_the_distance(
    m: StreamModel,
    base: u32,
    seq: u32,
    segment: SegmentModel,
    now: nat,
)
    requires
        m.inv(),
        acceptable(m, segment),
        m.base == Some(base),
        m.next < SEQ_SPAN,
        segment.data.len() > 0,
    ensures
        ({
            let rel = (seq - base) % SEQ_SPAN as int;
            let (after, outcome) = m.push(seq, segment, now);
            &&& outcome is Delivered <==> rel <= m.next < rel + segment.data.len()
            &&& outcome is Delivered ==> (m.ready() + segment.data.skip(
                m.next - rel,
            )).is_prefix_of(after.ready())
            &&& rel + segment.data.len() <= m.next ==> (after, outcome) == (
                m,
                PushOutcome::DuplicateDiscarded,
            )
            &&& !(outcome is Delivered) ==> after.next == m.next && after.ready() == m.ready()
        }),
{
    let rel = m.relative(seq);
    if rel <= m.next < rel + segment.data.len() {
        let d = m.deliver(segment.trim(m.next - rel));
        lemma_flat_push(m.contiguous, segment.trim(m.next - rel));
        assert(sound(d));
        lemma_drain(d);
        lemma_drain_appends(d);
    } else if rel > m.next {
        let since = match m.since {
            Some(since) => since,
            None => now,
        };
        lemma_evict(
            StreamModel {
                pending: m.pending.insert(rel as u64, segment),
                since: Some(since),
                ..m
            },
        );
    }
}

/// The anchor is the stream's first byte: what begins `d` bytes after it is not delivered before
/// the first `d` bytes are. An anchor that is set already stays.
pub proof fn law_anchor_is_the_first_byte(
    m: StreamModel,
    base: u32,
    d: int,
    seq: u32,
    segment: SegmentModel,
    now: nat,
    other: u32,
)
    requires
        m.inv(),
        acceptable(m, segment),
        m.base == Some(base),
        m.next < d < SEQ_SPAN,
        seq == seq_at(base, d),
    ensures
        !(m.push(seq, segment, now).1 is Delivered),
        m.anchor(other) == m,
        m.push(seq, segment, now).0.base == m.base,
{
    law_segment_in_reach_is_placed(m, base, d, seq);
    lemma_push_keeps_base(m, seq, segment, now);
}

/// In-order data is delivered however long the stream has become: a segment that carries the
/// sequence number of the next expected byte is appended whole to what is ready.
pub proof fn law_in_order_is_delivered(
    m: StreamModel,
    base: u32,
    seq: u32,
    segment: SegmentModel,
    now: nat,
)
    requires
        m.inv(),
        acceptable(m, segment),
        m.base == Some(base),
        seq == seq_at(base, m.next as int),
        segment.data.len() > 0,
    ensures
        m.push(seq, segment, now).1 is Delivered,
        m.push(seq, segment, now).0.next >= m.next + segment.data.len(),
        (m.ready() + segment.data).is_prefix_of(m.push(seq, segment, now).0.ready()),
        m.pending.dom().len() == 0 ==> m.push(seq, segment, now).0.ready() == m.ready()
            + segment.data,
{
    law_segment_in_reach_is_placed(m, base, m.next as int, seq);
    assert(segment.trim(0).data =~= segment.data);
    let d = m.deliver(segment.trim(0));
    lemma_flat_push(m.contiguous, segment.trim(0));
    assert(sound(d));
    lemma_drain(d);
    lemma_drain_appends(d);
}

proof fn lemma_drain_appends(m: StreamModel)
    requires
        sound(m),
    ensures
        m.ready().is_prefix_of(m.drain().ready()),
        m.pending.dom().len() == 0 ==> m.drain() == m,
    decreases m.pending.dom().len(),
{
    let k = first_key(m.pending);
    if m.pending.dom().len() == 0 {
        assert(m.pending.dom() =~= Set::empty());
        assert(!m.pending.dom().contains(k));
    } else {
        lemma_first_key(m.pending);
        if k <= m.next {
            let segment = m.pending[k];
            let rest = StreamModel { pending: m.pending.remove(k), ..m };
            let after = if k + segment.data.len() <= m.next {
                rest
            } else {
                rest.deliver(segment.trim(m.next - k))
            };
            assert(sound(after));
            lemma_flat_push(rest.contiguous, segment.trim(m.next - k));
            lemma_drain_appends(after);
            assert(m.ready().is_prefix_of(after.ready()));
        }
    }
}

/// Reassembly is lossless: whatever the order in which the segments of an anchored stream under
/// `SEQ_SPAN` bytes arrive, overlap and repeat, once they have brought every byte before offset `n`
/// and no gap was abandoned, what is ready is the stream itself, byte for byte from the first one
/// not consumed before to at least offset `n`; and to exactly `n` where the byte at `n` is missing.
pub proof fn law_any_order_is_lossless(
    m: StreamModel,
    base: u32,
    arrivals: Seq<Arrival>,
    stream: Seq<u8>,
    n: int,
)
    requires
        m.inv(),
        m.base == Some(base),
        stream.len() < SEQ_SPAN,
        m.faithful(stream),
        none_abandoned(m, arrivals),
        forall|a: int|
            0 <= a < arrivals.len() ==> (#[trigger] arrivals[a]).seq == seq_at(
                base,
                arrivals[a].at,
            ),
        all_parts(arrivals, stream),
        forall|i: int| 0 <= i < n ==> m.has(i) || brought(arrivals, i),
    ensures
        ({
            let after = push_all(m, arrivals);
            &&& after.inv()
            &&& after.next >= n
            &&& 0 <= n && !m.has(n) && !brought(arrivals, n) ==> after.next == n
            &&& after.ready() == stream.subrange(m.consumed(), after.next as int)
        }),
{
    lemma_short_stream_in_reach(m, base, arrivals, stream);
    law_long_stream_is_lossless(m, base, arrivals, stream, n);
}

proof fn lemma_short_stream_in_reach(
    m: StreamModel,
    base: u32,
    arrivals: Seq<Arrival>,
    stream: Seq<u8>,
)
    requires
        m.inv(),
        m.base == Some(base),
        stream.len() < SEQ_SPAN,
        m.faithful(stream),
        none_abandoned(m, arrivals),
        forall|a: int|
            0 <= a < arrivals.len() ==> (#[trigger] arrivals[a]).seq == seq_at(
                base,
                arrivals[a].at,
            ),
        all_parts(arrivals, stream),
    ensures
        all_in_reach(m, base, arrivals),
    decreases arrivals.len(),
{
    if arrivals.len() > 0 {
        let first = arrivals[0];
        let rest = arrivals.drop_first();
        let after = m.push(first.seq, first.segment, first.now).0;
        law_segment_in_reach_is_placed(m, base, first.at, first.seq);
        law_push_keeps_invariant(m, first.seq, first.segment, first.now);
        law_push_is_faithful(m, first.seq, first.segment, first.now, stream);
        lemma_push_keeps_base(m, first.seq, first.segment, first.now);
        assert forall|a: int| 0 <= a < rest.len() implies (#[trigger] rest[a]).seq == seq_at(
            base,
            rest[a].at,
        ) && is_part(rest[a].segment.data, stream, rest[a].at) by {
            assert(rest[a] == arrivals[a + 1]);
        }
        lemma_short_stream_in_reach(after, base, rest, stream);
    }
}

/// Reassembly is lossless for a stream of any length too, as long as each segment is in reach when
/// it arrives.
pub proof fn law_long_stream_is_lossless(
    m: StreamModel,
    base: u32,
    arrivals: Seq<Arrival>,
    stream: Seq<u8>,
    n: int,
)
    requires
        m.inv(),
        m.base == Some(base),
        m.faithful(stream),
        none_abandoned(m, arrivals),
        all_in_reach(m, base, arrivals),
        all_parts(arrivals, stream),
        forall|i: int| 0 <= i < n ==> m.has(i) || brought(arrivals, i),
    ensures
        ({
            let after = push_all(m, arrivals);
            &&& after.inv()
            &&& after.next >= n
            &&& 0 <= n && !m.has(n) && !brought(arrivals, n) ==> after.next == n
            &&& after.ready() == stream.subrange(m.consumed(), after.next as int)
        }),
{
    lemma_push_all(m, base, arrivals, stream);
    let after = push_all(m, arrivals);
    law_no_gap_means_delivered(after, n);
}

/// Once no gap was abandoned, exactly those bytes are there that were there before or were brought.
proof fn lemma_push_all(m: StreamModel, base: u32, arrivals: Seq<Arrival>, stream: Seq<u8>)
    requires
        m.inv(),
        m.base == Some(base),
        m.faithful(stream),
        none_abandoned(m, arrivals),
        all_in_reach(m, base, arrivals),
        all_parts(arrivals, stream),
    ensures
        ({
            let after = push_all(m, arrivals);
            &&& after.inv()
            &&& after.faithful(stream)
            &&& after.consumed() == m.consumed()
            &&& forall|i: int| after.has(i) <==> m.has(i) || brought(arrivals, i)
        }),
    decreases arrivals.len(),
{
    if arrivals.len() > 0 {
        let first = arrivals[0];
        let rest = arrivals.drop_first();
        let after = m.push(first.seq, first.segment, first.now).0;
        law_segment_in_reach_is_placed(m, base, first.at, first.seq);
        law_push_keeps_invariant(m, first.seq, first.segment, first.now);
        law_push_is_faithful(m, first.seq, first.segment, first.now, stream);
        law_push_loses_nothing(m, first.seq, first.segment, first.now);
        law_push_consumes_nothing(m, first.seq, first.segment, first.now);
        lemma_push_keeps_base(m, first.seq, first.segment, first.now);
        assert forall|a: int| 0 <= a < rest.len() implies is_part(
            (#[trigger] rest[a]).segment.data,
            stream,
            rest[a].at,
        ) by {
            assert(rest[a] == arrivals[a + 1]);
        }
        lemma_push_all(after, base, rest, stream);
        assert(push_all(m, arrivals) == push_all(after, rest));
        assert forall|i: int|
            push_all(m, arrivals).has(i) <==> m.has(i) || brought(arrivals, i) by {
            lemma_brought(arrivals, i);
            assert(push_all(after, rest).has(i) <==> after.has(i) || brought(rest, i));
            assert(after.has(i) <==> m.has(i) || first.at <= i < first.at
                + first.segment.data.len());
        }
    }
}

/// What is brought is brought by the first arrival or by a later one.
proof fn lemma_brought(arrivals: Seq<Arrival>, i: int)
    requires
        arrivals.len() > 0,
    ensures
        brought(arrivals, i) <==> (arrivals[0].at <= i < arrivals[0].at
            + arrivals[0].segment.data.len()) || brought(arrivals.drop_first(), i),
{
    let rest = arrivals.drop_first();
    if brought(arrivals, i) {
        let a = choose|a: int|
            0 <= a < arrivals.len() && (#[trigger] arrivals[a]).at <= i < arrivals[a].at
                + arrivals[a].segment.data.len();
        if a > 0 {
            assert(rest[a - 1] == arrivals[a]);
        }
    }
    if brought(rest, i) {
        let a = choose|a: int|
            0 <= a < rest.len() && (#[trigger] rest[a]).at <= i < rest[a].at
                + rest[a].segment.data.len();
        assert(arrivals[a + 1] == rest[a]);
    }
}

/// The order of arrival makes no difference: two runs of segments that bring the same bytes of a
/// stream under `SEQ_SPAN` bytes, each without a gap abandoned, leave the same bytes ready.
pub proof fn law_order_makes_no_difference(
    m: StreamModel,
    base: u32,
    one: Seq<Arrival>,
    other: Seq<Arrival>,
    stream: Seq<u8>,
)
    requires
        m.inv(),
        m.base == Some(base),
        stream.len() < SEQ_SPAN,
        m.faithful(stream),
        none_abandoned(m, one),
        none_abandoned(m, other),
        forall|a: int| 0 <= a < one.len() ==> (#[trigger] one[a]).seq == seq_at(base, one[a].at),
        forall|a: int|
            0 <= a < other.len() ==> (#[trigger] other[a]).seq == seq_at(base, other[a].at),
        all_parts(one, stream),
        all_parts(other, stream),
        forall|i: int| brought(one, i) <==> brought(other, i),
    ensures
        push_all(m, one).ready() == push_all(m, other).ready(),
        push_all(m, one).next == push_all(m, other).next,
{
    lemma_short_stream_in_reach(m, base, one, stream);
    lemma_short_stream_in_reach(m, base, other, stream);
    lemma_push_all(m, base, one, stream);
    lemma_push_all(m, base, other, stream);
    let a = push_all(m, one);
    let b = push_all(m, other);
    assert(!a.has(a.next as int));
    assert(!b.has(b.next as int));
    assert(a.has(b.next as int) <==> b.has(b.next as int));
    assert(a.has(a.next as int) <==> b.has(a.next as int));
}

pub(crate) proof fn lemma_push_keeps_base(m: StreamModel, seq: u32, segment: SegmentModel, now: nat)
    requires
        m.inv(),
        acceptable(m, segment),
    ensures
        m.base is Some ==> m.push(seq, segment, now).0.base == m.base,
{
    let rel = m.relative(seq);
    let a = m.anchor(seq);
    let since = match m.since {
        Some(since) => since,
        None => now,
    };
    if rel <= m.next && rel + segment.data.len() > m.next {
        let d = a.deliver(segment.trim(m.next - rel));
        assert(sound(d));
        lemma_drain(d);
    }
    lemma_evict(StreamModel { pending: m.pending.insert(rel as u64, segment), since: Some(since), ..a });
}

/// Consuming bytes keeps the invariant, takes exactly those bytes from the front, and holds nothing
/// back.
pub proof fn law_take_keeps_invariant(m: StreamModel, n: int)
    requires
        m.inv(),
        0 <= n <= m.ready().len(),
    ensures
        (StreamModel { contiguous: after_take(m.contiguous, n), ..m }).inv(),
        flat(after_take(m.contiguous, n)) == m.ready().skip(n),
        m.contiguous.len() == 0 ==> after_take(m.contiguous, n).len() == 0,
{
    lemma_after_take(m.contiguous, n);
}

proof fn lemma_after_take(segments: Seq<SegmentModel>, n: int)
    requires
        0 <= n <= flat(segments).len(),
        forall|i: int| 0 <= i < segments.len() ==> (#[trigger] segments[i]).inv(),
    ensures
        forall|i: int|
            0 <= i < after_take(segments, n).len() ==> (#[trigger] after_take(segments, n)[i]).inv(),
        flat(after_take(segments, n)) == flat(segments).skip(n),
    decreases segments.len(),
{
    let after = after_take(segments, n);
    if segments.len() == 0 || n <= 0 {
        assert(flat(segments).skip(n) =~= flat(segments));
    } else if n < segments[0].data.len() {
        assert(after.drop_first() =~= segments.drop_first());
        assert(flat(after) =~= flat(segments).skip(n));
        assert(segments[0].trim(n).inv());
        assert forall|i: int| 0 <= i < after.len() implies (#[trigger] after[i]).inv() by {
            if i > 0 {
                assert(after[i] == segments[i]);
            }
        }
    } else {
        let rest = segments.drop_first();
        assert forall|i: int| 0 <= i < rest.len() implies (#[trigger] rest[i]).inv() by {
            assert(rest[i] == segments[i + 1]);
        }
        lemma_after_take(rest, n - segments[0].data.len());
        assert(flat(after) =~= flat(segments).skip(n));
    }
}

/// The limits on what is held are kept between any two calls.
pub proof fn law_limits_are_kept(r: StreamReassembler)
    requires
        r.wf(),
    ensures
        r@.inv(),
        held_bytes(r@.pending) <= r@.limits.max_bytes,
        r@.pending.dom().len() <= r@.limits.max_packets,
{
    StreamReassembler::lemma_wf(r);
}

/// A gap is waited for as long as its limits allow. The wait counts from the first segment held
/// behind it; once it is longer than the limit, the next segment held has all that is held given
/// up. Until then, and within the other two limits, the segment is held with the rest.
pub proof fn law_gap_is_waited_for(m: StreamModel, seq: u32, segment: SegmentModel, now: nat)
    requires
        m.inv(),
        acceptable(m, segment),
        segment.data.len() > 0,
        m.relative(seq) > m.next,
        !m.pending.contains_key(m.relative(seq) as u64),
    ensures
        ({
            let (after, outcome) = m.push(seq, segment, now);
            let all = m.pending.insert(m.relative(seq) as u64, segment);
            let since = match m.since {
                Some(since) => since,
                None => now,
            };
            &&& after.contiguous == m.contiguous
            &&& after.next == m.next
            &&& m.since is Some && now > since + m.limits.max_age@ ==> outcome
                == (PushOutcome::GapAbandoned { bytes: held_bytes(all) as usize })
                && after.pending == Map::<u64, SegmentModel>::empty() && after.since is None
            &&& now <= since + m.limits.max_age@ && held_bytes(all) <= m.limits.max_bytes
                && all.dom().len() <= m.limits.max_packets ==> outcome is BufferedOutOfOrder
                && after.pending == all && after.since == Some(since)
            &&& now <= since + m.limits.max_age@ && (held_bytes(all) > m.limits.max_bytes
                || all.dom().len() > m.limits.max_packets) ==> outcome is GapAbandoned
        }),
{
    let rel = m.relative(seq);
    let a = m.anchor(seq);
    let since = match m.since {
        Some(since) => since,
        None => now,
    };
    let held = StreamModel {
        pending: m.pending.insert(rel as u64, segment),
        since: Some(since),
        ..a
    };
    assert(sound(held));
    lemma_evict(held);
}

/// Where the limits on what is held are exceeded, the segments nearest to the gap are given up
/// first, and no more of them than it takes: whatever is kept lies behind whatever is given up.
pub proof fn law_lowest_are_given_up_first(m: StreamModel, j: u64, k: u64)
    requires
        m.pending.dom().finite(),
        m.pending.contains_key(j),
        !m.evict().pending.contains_key(j),
        m.evict().pending.contains_key(k),
    ensures
        j < k,
        m.pending.contains_key(k),
        m.evict().pending[k] == m.pending[k],
    decreases m.pending.dom().len(),
{
    let first = first_key(m.pending);
    if m.pending.contains_key(first) && !(held_bytes(m.pending) <= m.limits.max_bytes
        && m.pending.dom().len() <= m.limits.max_packets) {
        let rest = StreamModel { pending: m.pending.remove(first), ..m };
        lemma_first_key(m.pending);
        if j == first {
            lemma_evict_within(rest, k);
            assert(rest.pending.contains_key(k));
        } else {
            law_lowest_are_given_up_first(rest, j, k);
        }
    }
}

proof fn lemma_evict_within(m: StreamModel, k: u64)
    requires
        m.pending.dom().finite(),
        m.evict().pending.contains_key(k),
    ensures
        m.pending.contains_key(k),
        m.evict().pending[k] == m.pending[k],
    decreases m.pending.dom().len(),
{
    let first = first_key(m.pending);
    if m.pending.contains_key(first) && !(held_bytes(m.pending) <= m.limits.max_bytes
        && m.pending.dom().len() <= m.limits.max_packets) {
        lemma_evict_within(StreamModel { pending: m.pending.remove(first), ..m }, k);
    }
}

/// A segment that is held already, whole or as part of a longer one that begins at the same byte,
/// changes nothing; one that is longer than what is held from the same byte on takes its place.
pub proof fn law_longer_segment_takes_the_place(
    m: StreamModel,
    seq: u32,
    segment: SegmentModel,
    now: nat,
)
    requires
        m.inv(),
        acceptable(m, segment),
        segment.data.len() > 0,
        m.base is Some,
        m.relative(seq) > m.next,
        m.pending.contains_key(m.relative(seq) as u64),
    ensures
        ({
            let (after, outcome) = m.push(seq, segment, now);
            let held = m.pending[m.relative(seq) as u64];
            &&& held.data.len() >= segment.data.len() ==> (after, outcome) == (
                m,
                PushOutcome::DuplicateDiscarded,
            )
            &&& held.data.len() < segment.data.len() && outcome is BufferedOutOfOrder
                ==> after.pending == m.pending.insert(m.relative(seq) as u64, segment)
            &&& held.data.len() < segment.data.len() ==> outcome is BufferedOutOfOrder
                || outcome is GapAbandoned
            &&& after.ready() == m.ready()
        }),
{
    let rel = m.relative(seq);
    let since = match m.since {
        Some(since) => since,
        None => now,
    };
    let held = StreamModel {
        pending: m.pending.insert(rel as u64, segment),
        since: Some(since),
        ..m
    };
    assert(sound(held));
    lemma_evict(held);
}

} // verus!
