//! Lossless, out-of-order-aware TCP stream reassembly.
//!
//! Segments that arrive ahead of the next expected byte are held in `pending` and move to
//! `contiguous` as gaps close, so that reordering on the way to the capture loses no data. Only a gap
//! that outlives one of the `PendingLimits` is given up, and that is always reported.
//!
//! Sequence numbers repeat every 2^32 bytes. `placed` says which byte of the stream one stands for,
//! and what becomes of a segment that overtakes the end of the first 2^32 bytes.

pub mod calls;
pub mod laws;

use std::collections::{BTreeMap, VecDeque};
use std::ops::Range;
use vstd::prelude::*;
use vstd::std_specs::btree::{increasing_seq, spec_btree_map_iter};
use vstd::std_specs::cmp::OrdSpec;
use vstd::std_specs::iter::IteratorSpec;
use crate::bytes::{append_bytes, copy_range};
use crate::time::{elapsed, elapsed_between, Clock, Duration, NANOS_PER_SEC};

verus! {

/// Where a run of reassembled bytes came from: a packet of the capture, and a byte range in it.
#[derive(Debug, PartialEq, Eq)]
pub struct SourcePiece {
    pub packet_index: usize,
    pub range: Range<usize>,
}

/// A run of bytes not consumed yet. `start` is where it begins within its packet.
struct Segment {
    packet_index: usize,
    start: usize,
    data: Vec<u8>,
}

/// What a segment holds.
pub struct SegmentModel {
    pub packet_index: usize,
    pub start: usize,
    pub data: Seq<u8>,
}

impl View for Segment {
    type V = SegmentModel;

    closed spec fn view(&self) -> SegmentModel {
        SegmentModel { packet_index: self.packet_index, start: self.start, data: self.data@ }
    }
}

impl SegmentModel {
    /// The segment without its first `n` bytes.
    pub open spec fn trim(self, n: int) -> SegmentModel {
        SegmentModel {
            packet_index: self.packet_index,
            start: (self.start + n) as usize,
            data: self.data.skip(n),
        }
    }

    /// A segment holds at least one byte, and its place in the packet fits in a `usize`.
    pub open spec fn inv(self) -> bool {
        &&& 0 < self.data.len() <= MAX_SEGMENT_LEN
        &&& self.start + self.data.len() <= usize::MAX
    }
}

/// The result of pushing one packet's TCP payload into a `StreamReassembler`.
#[derive(Debug, Clone, Copy, PartialEq, Eq, Structural)]
pub enum PushOutcome {
    /// The bytes, or what was new of them, begin at the next expected sequence number and were
    /// appended to `contiguous`.
    Delivered,
    /// All of the bytes that the sequence number stands for were already there: nothing is lost by
    /// dropping them.
    DuplicateDiscarded,
    /// The bytes begin after the next expected one: they wait in `pending` for the gap to close.
    BufferedOutOfOrder,
    /// `pending` hit one of the `PendingLimits`, and `bytes` bytes of it were given up.
    GapAbandoned { bytes: usize },
}

/// Bounds on how much, and for how long, a `StreamReassembler` holds out-of-order data before it
/// gives up on the gap. Whichever is hit first wins.
#[derive(Clone, Copy, Debug)]
pub struct PendingLimits {
    pub max_bytes: usize,
    pub max_packets: usize,
    pub max_age: Duration,
}

pub const DEFAULT_MAX_PENDING_BYTES: usize = 4 * 1024 * 1024;

pub const DEFAULT_MAX_PENDING_PACKETS: usize = 50;

pub const DEFAULT_MAX_PENDING_AGE_SECS: u64 = 30;

/// Sequence numbers repeat after this many bytes.
pub const SEQ_SPAN: u64 = 0x1_0000_0000;

/// How far from the next expected byte a segment of a stream longer than `SEQ_SPAN` can lie.
pub const HALF_WINDOW: u64 = 0x8000_0000;

/// No slice of bytes is longer than this.
pub const MAX_SEGMENT_LEN: u64 = 0x7fff_ffff_ffff_ffff;

impl Default for PendingLimits {
    fn default() -> (limits: PendingLimits)
        ensures
            limits.max_bytes == DEFAULT_MAX_PENDING_BYTES,
            limits.max_packets == DEFAULT_MAX_PENDING_PACKETS,
            limits.max_age@ == DEFAULT_MAX_PENDING_AGE_SECS * NANOS_PER_SEC,
    {
        PendingLimits {
            max_bytes: DEFAULT_MAX_PENDING_BYTES,
            max_packets: DEFAULT_MAX_PENDING_PACKETS,
            max_age: Duration::from_secs(DEFAULT_MAX_PENDING_AGE_SECS),
        }
    }
}

/// The bytes of a run of segments, one after the other.
pub open spec fn flat(segments: Seq<SegmentModel>) -> Seq<u8>
    decreases segments.len(),
{
    if segments.len() == 0 {
        Seq::empty()
    } else {
        segments[0].data + flat(segments.drop_first())
    }
}

/// The provenance of the first `n` bytes of a run of segments.
pub open spec fn pieces_of(segments: Seq<SegmentModel>, n: int) -> Seq<SourcePiece>
    decreases segments.len(),
{
    if segments.len() == 0 || n <= 0 {
        Seq::empty()
    } else {
        let first = segments[0];
        let take = if n < first.data.len() { n } else { first.data.len() as int };
        seq![
            SourcePiece {
                packet_index: first.packet_index,
                range: (Range { start: first.start, end: (first.start + take) as usize }),
            },
        ] + pieces_of(segments.drop_first(), n - take)
    }
}

/// What is left of a run of segments once its first `n` bytes are consumed.
pub open spec fn after_take(segments: Seq<SegmentModel>, n: int) -> Seq<SegmentModel>
    decreases segments.len(),
{
    if segments.len() == 0 || n <= 0 {
        segments
    } else if n < segments[0].data.len() {
        seq![segments[0].trim(n)] + segments.drop_first()
    } else {
        after_take(segments.drop_first(), n - segments[0].data.len())
    }
}

/// `k` is the lowest key of `m`.
pub open spec fn is_first_key(m: Map<u64, SegmentModel>, k: u64) -> bool {
    m.contains_key(k) && forall|j: u64| m.contains_key(j) ==> k <= j
}

pub open spec fn first_key(m: Map<u64, SegmentModel>) -> u64 {
    choose|k: u64| is_first_key(m, k)
}

/// The number of bytes held in a map of segments.
pub open spec fn held_bytes(m: Map<u64, SegmentModel>) -> nat
    decreases m.dom().len(),
{
    let k = first_key(m);
    if m.dom().finite() && m.contains_key(k) {
        m[k].data.len() + held_bytes(m.remove(k))
    } else {
        0
    }
}

/// Reassembles one direction of a TCP stream.
pub struct StreamReassembler {
    base_seq: Option<u32>,
    next_expected_relative: u64,
    contiguous: VecDeque<Segment>,
    contiguous_len: usize,
    pending: BTreeMap<u64, Segment>,
    pending_len: usize,
    limits: PendingLimits,
    pending_since: Option<Duration>,
    clock: Clock,
}

/// The state of a `StreamReassembler`: sequence numbers count from the stream's first byte, and
/// `since` is the clock reading at which the gap now open appeared.
pub struct StreamModel {
    pub base: Option<u32>,
    pub next: nat,
    pub contiguous: Seq<SegmentModel>,
    pub pending: Map<u64, SegmentModel>,
    pub limits: PendingLimits,
    pub since: Option<nat>,
}

/// Where a segment with sequence number `seq` begins in a stream whose first byte has sequence
/// number `base` and whose next expected byte is at offset `next`. Of the offsets that the number
/// can stand for, which lie `SEQ_SPAN` apart, it is the first one while that many bytes are not
/// delivered yet: the distance counted forward from `base`. Later it is the one nearest to `next`,
/// of two equally near the one ahead.
///
/// So a segment from behind the stream's first `SEQ_SPAN` bytes that arrives before they are
/// complete stands for the bytes at its beginning that have the same numbers. What it brought is
/// then missing, and counts as a gap once the stream gets there.
pub open spec fn placed(base: u32, next: nat, seq: u32) -> int {
    let ahead = (seq - base - next) % SEQ_SPAN as int;
    if next < SEQ_SPAN {
        (seq - base) % SEQ_SPAN as int
    } else if ahead <= HALF_WINDOW {
        next + ahead
    } else {
        next + ahead - SEQ_SPAN
    }
}

impl StreamModel {
    /// A stream of which nothing has been seen.
    pub open spec fn fresh(limits: PendingLimits) -> StreamModel {
        StreamModel {
            base: None,
            next: 0,
            contiguous: Seq::empty(),
            pending: Map::empty(),
            limits,
            since: None,
        }
    }

    /// What holds between any two calls: segments hold bytes, those pending all begin after the
    /// next expected byte and stay within the limits, and the age of the gap is known exactly
    /// while there is one.
    pub open spec fn inv(self) -> bool {
        &&& forall|i: int|
            0 <= i < self.contiguous.len() ==> (#[trigger] self.contiguous[i]).inv()
        &&& self.pending.dom().finite()
        &&& forall|k: u64| #[trigger]
            self.pending.contains_key(k) ==> self.next < k && k + self.pending[k].data.len()
                <= u64::MAX && self.pending[k].inv()
        &&& held_bytes(self.pending) <= self.limits.max_bytes
        &&& self.pending.dom().len() <= self.limits.max_packets
        &&& self.since is None <==> self.pending.dom().len() == 0
    }

    /// The bytes ready to be consumed.
    pub open spec fn ready(self) -> Seq<u8> {
        flat(self.contiguous)
    }

    /// Appends a segment that begins at the next expected byte.
    pub open spec fn deliver(self, segment: SegmentModel) -> StreamModel {
        StreamModel {
            next: self.next + segment.data.len(),
            contiguous: self.contiguous.push(segment),
            ..self
        }
    }

    /// Moves over every pending segment that is reached, lowest first, each without what an
    /// earlier one already brought.
    pub open spec fn drain(self) -> StreamModel
        decreases self.pending.dom().len(),
    {
        let k = first_key(self.pending);
        if !self.pending.dom().finite() || !self.pending.contains_key(k) || k > self.next {
            self
        } else {
            let segment = self.pending[k];
            let rest = StreamModel { pending: self.pending.remove(k), ..self };
            if k + segment.data.len() <= self.next {
                rest.drain()
            } else {
                rest.deliver(segment.trim(self.next - k)).drain()
            }
        }
    }

    /// The clock of the gap stops once nothing is pending.
    pub open spec fn settle(self) -> StreamModel {
        if self.pending.dom().len() == 0 {
            StreamModel { since: None, ..self }
        } else {
            self
        }
    }

    /// Gives up the lowest pending segments until both the byte and the packet limit hold.
    pub open spec fn evict(self) -> StreamModel
        decreases self.pending.dom().len(),
    {
        let k = first_key(self.pending);
        if !self.pending.dom().finite() || !self.pending.contains_key(k) || (held_bytes(
            self.pending,
        ) <= self.limits.max_bytes && self.pending.dom().len() <= self.limits.max_packets) {
            self
        } else {
            StreamModel { pending: self.pending.remove(k), ..self }.evict()
        }
    }

    /// Holds a segment that begins at `rel`, after the next expected byte.
    pub open spec fn buffer(self, rel: u64, segment: SegmentModel, now: nat) -> (
        StreamModel,
        PushOutcome,
    ) {
        if self.pending.contains_key(rel) && self.pending[rel].data.len() >= segment.data.len() {
            (self, PushOutcome::DuplicateDiscarded)
        } else {
            let since = match self.since {
                Some(since) => since,
                None => now,
            };
            let held = StreamModel {
                pending: self.pending.insert(rel, segment),
                since: Some(since),
                ..self
            };
            if elapsed(since, now) > self.limits.max_age@ {
                (
                    StreamModel { pending: Map::empty(), since: None, ..held },
                    PushOutcome::GapAbandoned { bytes: held_bytes(held.pending) as usize },
                )
            } else if held_bytes(held.pending) <= self.limits.max_bytes && held.pending.dom().len()
                <= self.limits.max_packets {
                (held, PushOutcome::BufferedOutOfOrder)
            } else {
                let kept = held.evict();
                (
                    kept.settle(),
                    PushOutcome::GapAbandoned {
                        bytes: (held_bytes(held.pending) - held_bytes(kept.pending)) as usize,
                    },
                )
            }
        }
    }

    /// Takes in a segment that begins at `rel`. What lies before the next expected byte has been
    /// delivered already; only the rest is new.
    pub open spec fn push_relative(self, rel: int, segment: SegmentModel, now: nat) -> (
        StreamModel,
        PushOutcome,
    ) {
        if rel + segment.data.len() <= self.next {
            (self, PushOutcome::DuplicateDiscarded)
        } else if rel <= self.next {
            (
                self.deliver(segment.trim(self.next - rel)).drain().settle(),
                PushOutcome::Delivered,
            )
        } else {
            self.buffer(rel as u64, segment, now)
        }
    }

    /// Where the segment with sequence number `seq` begins, counted from the stream's first byte.
    /// Before any base is known, the first segment is the base.
    pub open spec fn relative(self, seq: u32) -> int {
        match self.base {
            Some(base) => placed(base, self.next, seq),
            None => 0,
        }
    }

    /// Anchors the stream at `seq` unless it is anchored already.
    pub open spec fn anchor(self, seq: u32) -> StreamModel {
        match self.base {
            Some(_) => self,
            None => StreamModel { base: Some(seq), ..self },
        }
    }

    /// Takes in the payload of a packet with sequence number `seq`.
    pub open spec fn push(self, seq: u32, segment: SegmentModel, now: nat) -> (
        StreamModel,
        PushOutcome,
    ) {
        if segment.data.len() == 0 {
            (self, PushOutcome::DuplicateDiscarded)
        } else {
            self.anchor(seq).push_relative(self.relative(seq), segment, now)
        }
    }
}

//--------------------------------------------------------------------------------------------
// Facts about runs and maps of segments.
//--------------------------------------------------------------------------------------------

pub(crate) proof fn lemma_flat_push(segments: Seq<SegmentModel>, last: SegmentModel)
    ensures
        flat(segments.push(last)) == flat(segments) + last.data,
    decreases segments.len(),
{
    if segments.len() == 0 {
        assert(segments.push(last).drop_first() =~= Seq::empty());
        assert(flat(Seq::<SegmentModel>::empty()) =~= Seq::empty());
        assert(flat(segments.push(last)) =~= flat(segments) + last.data);
    } else {
        lemma_flat_push(segments.drop_first(), last);
        assert(segments.push(last).drop_first() =~= segments.drop_first().push(last));
        assert(flat(segments.push(last)) =~= flat(segments) + last.data);
    }
}

/// A non-empty finite map has a lowest key.
pub(crate) proof fn lemma_first_key(m: Map<u64, SegmentModel>)
    requires
        m.dom().finite(),
        m.dom().len() > 0,
    ensures
        is_first_key(m, first_key(m)),
    decreases m.dom().len(),
{
    let k = m.dom().choose();
    let rest = m.remove(k);
    if rest.dom().len() == 0 {
        assert forall|j: u64| m.contains_key(j) implies k <= j by {
            if j != k {
                assert(rest.dom().contains(j));
            }
        }
        assert(is_first_key(m, k));
    } else {
        lemma_first_key(rest);
        let f = first_key(rest);
        let low = if f < k { f } else { k };
        assert forall|j: u64| m.contains_key(j) implies low <= j by {
            if j != k {
                assert(rest.contains_key(j));
            }
        }
        assert(is_first_key(m, low));
    }
}

pub(crate) proof fn lemma_held_remove(m: Map<u64, SegmentModel>, k: u64)
    requires
        m.dom().finite(),
        m.contains_key(k),
    ensures
        held_bytes(m) == m[k].data.len() + held_bytes(m.remove(k)),
    decreases m.dom().len(),
{
    lemma_first_key(m);
    let f = first_key(m);
    if k != f {
        lemma_held_remove(m.remove(f), k);
        let rest = m.remove(k);
        assert(rest.contains_key(f));
        lemma_first_key(rest);
        assert(first_key(rest) == f);
        assert(rest.remove(f) =~= m.remove(f).remove(k));
    }
}

pub(crate) proof fn lemma_held_insert(m: Map<u64, SegmentModel>, k: u64, segment: SegmentModel)
    requires
        m.dom().finite(),
    ensures
        m.contains_key(k) ==> held_bytes(m.insert(k, segment)) + m[k].data.len() == held_bytes(m)
            + segment.data.len(),
        !m.contains_key(k) ==> held_bytes(m.insert(k, segment)) == held_bytes(m)
            + segment.data.len(),
{
    lemma_held_remove(m.insert(k, segment), k);
    if m.contains_key(k) {
        lemma_held_remove(m, k);
        assert(m.insert(k, segment).remove(k) =~= m.remove(k));
    } else {
        assert(m.insert(k, segment).remove(k) =~= m);
    }
}

spec fn models(segments: Seq<Segment>) -> Seq<SegmentModel> {
    segments.map_values(|s: Segment| s@)
}

spec fn model_map(m: Map<u64, Segment>) -> Map<u64, SegmentModel> {
    m.map_values(|s: Segment| s@)
}

impl View for StreamReassembler {
    type V = StreamModel;

    closed spec fn view(&self) -> StreamModel {
        StreamModel {
            base: self.base_seq,
            next: self.next_expected_relative as nat,
            contiguous: models(self.contiguous@),
            pending: model_map(self.pending@),
            limits: self.limits,
            since: match self.pending_since {
                Some(since) => Some(since@),
                None => None,
            },
        }
    }
}

impl StreamReassembler {
    spec fn counted(&self) -> bool {
        &&& self.contiguous_len == flat(self@.contiguous).len()
        &&& self.pending_len == held_bytes(self@.pending)
    }

    /// The reassembler is in a state that its operations reach.
    pub closed spec fn wf(&self) -> bool {
        self.counted() && self@.inv()
    }

    pub(crate) proof fn lemma_wf(r: StreamReassembler)
        requires
            r.wf(),
        ensures
            r@.inv(),
    {
    }

    /// The number of bytes ready to be consumed and waiting for a gap to close.
    pub open spec fn buffered(&self) -> nat {
        self@.ready().len() + held_bytes(self@.pending)
    }

    pub fn new() -> (r: StreamReassembler)
        ensures
            r.wf(),
            r@ == StreamModel::fresh(r@.limits),
            r@.limits.max_bytes == DEFAULT_MAX_PENDING_BYTES,
            r@.limits.max_packets == DEFAULT_MAX_PENDING_PACKETS,
            r@.limits.max_age@ == DEFAULT_MAX_PENDING_AGE_SECS * NANOS_PER_SEC,
    {
        StreamReassembler::with_pending_limits(PendingLimits::default())
    }

    pub fn with_max_pending_bytes(max_pending_bytes: usize) -> (r: StreamReassembler)
        ensures
            r.wf(),
            r@ == StreamModel::fresh(r@.limits),
            r@.limits.max_bytes == max_pending_bytes,
            r@.limits.max_packets == DEFAULT_MAX_PENDING_PACKETS,
            r@.limits.max_age@ == DEFAULT_MAX_PENDING_AGE_SECS * NANOS_PER_SEC,
    {
        let defaults = PendingLimits::default();
        StreamReassembler::with_pending_limits(
            PendingLimits {
                max_bytes: max_pending_bytes,
                max_packets: defaults.max_packets,
                max_age: defaults.max_age,
            },
        )
    }

    pub fn with_pending_limits(limits: PendingLimits) -> (r: StreamReassembler)
        ensures
            r.wf(),
            r@ == StreamModel::fresh(limits),
    {
        let r = StreamReassembler {
            base_seq: None,
            next_expected_relative: 0,
            contiguous: VecDeque::new(),
            contiguous_len: 0,
            pending: BTreeMap::new(),
            pending_len: 0,
            limits,
            pending_since: None,
            clock: Clock::start(),
        };
        proof {
            assert(r@.contiguous =~= Seq::empty());
            assert(r@.pending =~= Map::empty());
            assert(r@.pending.dom() =~= Set::empty());
        }
        r
    }

    /// Anchors the stream at its true start, the sequence number after that of the SYN. Nothing
    /// happens if the stream is anchored already.
    pub fn set_isn(&mut self, first_byte_seq: u32)
        requires
            old(self).wf(),
        ensures
            final(self).wf(),
            final(self)@ == old(self)@.anchor(first_byte_seq),
    {
        if self.base_seq.is_none() {
            self.base_seq = Some(first_byte_seq);
        }
    }

    /// Takes in one packet's TCP payload, at the present reading of this reassembler's clock.
    pub fn push(&mut self, packet_index: usize, seq: u32, range: Range<usize>, payload: &[u8]) -> (
        outcome: PushOutcome)
        requires
            old(self).wf(),
            payload@.len() <= MAX_SEGMENT_LEN,
            range.start + payload@.len() <= usize::MAX,
            old(self).buffered() + payload@.len() <= usize::MAX,
            old(self)@.next + HALF_WINDOW + payload@.len() <= u64::MAX,
        ensures
            final(self).wf(),
            exists|now: nat|
                (final(self)@, outcome) == #[trigger] old(self)@.push(
                    seq,
                    SegmentModel { packet_index, start: range.start, data: payload@ },
                    now,
                ),
    {
        let now = self.clock.now();
        self.push_at(packet_index, seq, range, payload, now)
    }

    /// Takes in one packet's TCP payload at the clock reading `now`. `packet_index` and `range`
    /// say where the bytes stand in the capture; `seq` is the packet's TCP sequence number.
    pub fn push_at(
        &mut self,
        packet_index: usize,
        seq: u32,
        range: Range<usize>,
        payload: &[u8],
        now: Duration,
    ) -> (outcome: PushOutcome)
        requires
            old(self).wf(),
            payload@.len() <= MAX_SEGMENT_LEN,
            range.start + payload@.len() <= usize::MAX,
            old(self).buffered() + payload@.len() <= usize::MAX,
            old(self)@.next + HALF_WINDOW + payload@.len() <= u64::MAX,
        ensures
            final(self).wf(),
            (final(self)@, outcome) == old(self)@.push(
                seq,
                SegmentModel { packet_index, start: range.start, data: payload@ },
                now@,
            ),
    {
        if payload.is_empty() {
            return PushOutcome::DuplicateDiscarded;
        }
        let rel = self.relative_seq(seq);
        self.push_relative(packet_index, range.start, payload, rel, now)
    }

    /// Where `seq` lies, counted from the stream's first byte. A stream that has no anchor yet is
    /// anchored here.
    fn relative_seq(&mut self, seq: u32) -> (rel: u64)
        requires
            old(self).wf(),
            old(self)@.next + HALF_WINDOW <= u64::MAX,
        ensures
            final(self).wf(),
            final(self)@ == old(self)@.anchor(seq),
            rel == old(self)@.relative(seq),
            final(self).next_expected_relative == old(self).next_expected_relative,
            final(self).contiguous_len == old(self).contiguous_len,
            final(self).pending_len == old(self).pending_len,
    {
        match self.base_seq {
            Some(base) => {
                let next: u64 = self.next_expected_relative;
                let forward: u64 = (seq as u64 + SEQ_SPAN - base as u64) % SEQ_SPAN;
                assert(forward == (seq - base) % SEQ_SPAN as int);
                if next < SEQ_SPAN {
                    return forward;
                }
                let ahead: u64 = (forward + SEQ_SPAN - next % SEQ_SPAN) % SEQ_SPAN;
                assert(ahead == (seq - base - next) % SEQ_SPAN as int);
                if ahead <= HALF_WINDOW {
                    next + ahead
                } else {
                    next - (SEQ_SPAN - ahead)
                }
            },
            None => {
                self.base_seq = Some(seq);
                0
            },
        }
    }

    fn push_relative(
        &mut self,
        packet_index: usize,
        start: usize,
        payload: &[u8],
        rel: u64,
        now: Duration,
    ) -> (outcome: PushOutcome)
        requires
            old(self).wf(),
            0 < payload@.len() <= MAX_SEGMENT_LEN,
            start + payload@.len() <= usize::MAX,
            rel + payload@.len() <= u64::MAX,
            old(self).next_expected_relative + payload@.len() <= u64::MAX,
            old(self).contiguous_len + old(self).pending_len + payload@.len() <= usize::MAX,
        ensures
            final(self).wf(),
            (final(self)@, outcome) == old(self)@.push_relative(
                rel as int,
                SegmentModel { packet_index, start, data: payload@ },
                now@,
            ),
    {
        let ghost segment = SegmentModel { packet_index, start, data: payload@ };
        let rel_end: u64 = rel + payload.len() as u64;
        if rel_end <= self.next_expected_relative {
            return PushOutcome::DuplicateDiscarded;
        }
        if rel <= self.next_expected_relative {
            let trim: usize = (self.next_expected_relative - rel) as usize;
            let fresh = Segment {
                packet_index,
                start: start + trim,
                data: copy_range(payload, trim, payload.len()),
            };
            assert(fresh@ == segment.trim(trim as int)) by {
                assert(fresh@.data =~= segment.trim(trim as int).data);
            }
            self.deliver(fresh);
            self.drain_pending();
            PushOutcome::Delivered
        } else {
            let held = Segment {
                packet_index,
                start,
                data: copy_range(payload, 0, payload.len()),
            };
            assert(held@ == segment) by {
                assert(held@.data =~= segment.data);
            }
            self.buffer_pending(rel, held, now)
        }
    }

    /// All of the invariant but what draining is yet to establish.
    spec fn draining(&self) -> bool {
        &&& self.counted()
        &&& self.contiguous_len + self.pending_len <= usize::MAX
        &&& forall|i: int|
            0 <= i < self@.contiguous.len() ==> (#[trigger] self@.contiguous[i]).inv()
        &&& self@.pending.dom().finite()
        &&& forall|k: u64| #[trigger]
            self@.pending.contains_key(k) ==> k + self@.pending[k].data.len() <= u64::MAX
                && self@.pending[k].inv()
        &&& held_bytes(self@.pending) <= self.limits.max_bytes
        &&& self@.pending.dom().len() <= self.limits.max_packets
    }

    fn deliver(&mut self, segment: Segment)
        requires
            old(self).draining(),
            segment@.inv(),
            old(self).next_expected_relative + segment@.data.len() <= u64::MAX,
            old(self).contiguous_len + old(self).pending_len + segment@.data.len() <= usize::MAX,
        ensures
            final(self).draining(),
            final(self)@ == old(self)@.deliver(segment@),
            final(self).contiguous_len == old(self).contiguous_len + segment@.data.len(),
            final(self).pending_len == old(self).pending_len,
    {
        proof {
            lemma_flat_push(self@.contiguous, segment@);
        }
        self.next_expected_relative = self.next_expected_relative + segment.data.len() as u64;
        self.contiguous_len = self.contiguous_len + segment.data.len();
        self.contiguous.push_back(segment);
        assert(self@.contiguous =~= old(self)@.contiguous.push(segment@));
    }

    /// The lowest pending key.
    fn first_pending(&self) -> (first: Option<u64>)
        ensures
            match first {
                Some(k) => is_first_key(self@.pending, k) && k == first_key(self@.pending),
                None => self@.pending.dom().len() == 0 && self@.pending.dom() =~= Set::empty(),
            },
    {
        let entries = self.pending.iter();
        for entry in it: entries
            invariant
                it.index() == 0,
                it.seq() == spec_btree_map_iter(&self.pending).remaining(),
                increasing_seq(it.seq().map_values(|kv: (&u64, &Segment)| *kv.0)),
        {
            let k: u64 = *entry.0;
            proof {
                let all = spec_btree_map_iter(&self.pending).remaining();
                let keys = all.map_values(|kv: (&u64, &Segment)| *kv.0);
                assert(self.pending@.contains_key(*all[0].0));
                assert forall|j: u64| self@.pending.contains_key(j) implies k <= j by {
                    assert(self.pending@.contains_key(j));
                    let i = choose|i: int|
                        0 <= i < all.len() && all[i] == (&j, &self.pending@[j]);
                    assert(keys[0] == k && keys[i] == j);
                    assert(i == 0 || keys[0].cmp_spec(&keys[i]) is Less);
                }
                assert(is_first_key(self@.pending, k));
            }
            return Some(k);
        }
        proof {
            assert(self.pending@.dom() =~= self@.pending.dom());
        }
        None
    }

    /// Removes one pending segment.
    fn remove_pending(&mut self, key: u64) -> (segment: Segment)
        requires
            old(self).draining(),
            old(self)@.pending.contains_key(key),
        ensures
            final(self).draining(),
            final(self)@ == (StreamModel { pending: old(self)@.pending.remove(key), ..old(self)@ }),
            segment@ == old(self)@.pending[key],
            final(self).contiguous_len == old(self).contiguous_len,
            final(self).pending_len + segment@.data.len() == old(self).pending_len,
    {
        proof {
            lemma_held_remove(self@.pending, key);
        }
        match self.pending.remove(&key) {
            Some(segment) => {
                self.pending_len = self.pending_len - segment.data.len();
                assert(self@.pending =~= old(self)@.pending.remove(key));
                segment
            },
            None => {
                assert(false);
                Segment { packet_index: 0, start: 0, data: Vec::new() }
            },
        }
    }

    fn drain_pending(&mut self)
        requires
            old(self).draining(),
            old(self).pending_since is None <==> old(self)@.pending.dom().len() == 0,
        ensures
            final(self).wf(),
            final(self)@ == old(self)@.drain().settle(),
    {
        let mut reached = true;
        while reached
            invariant
                self.draining(),
                self@.drain() == old(self)@.drain(),
                self@.since == old(self)@.since,
                self@.limits == old(self)@.limits,
                old(self).pending_since is None ==> self@.pending.dom().len() == 0,
                !reached ==> self@.drain() == self@,
                !reached ==> forall|k: u64| #[trigger]
                    self@.pending.contains_key(k) ==> self@.next < k,
            decreases self@.pending.dom().len(), reached as int,
        {
            match self.first_pending() {
                Some(key) => {
                    if key > self.next_expected_relative {
                        reached = false;
                    } else {
                        let ghost before = self@;
                        let mut segment = self.remove_pending(key);
                        let rel_end: u64 = key + segment.data.len() as u64;
                        if rel_end > self.next_expected_relative {
                            let trim: usize = (self.next_expected_relative - key) as usize;
                            let fresh = Segment {
                                packet_index: segment.packet_index,
                                start: segment.start + trim,
                                data: segment.data.split_off(trim),
                            };
                            assert(fresh@ == before.pending[key].trim(trim as int)) by {
                                assert(fresh@.data =~= before.pending[key].trim(trim as int).data);
                            }
                            self.deliver(fresh);
                        }
                    }
                },
                None => {
                    reached = false;
                },
            }
        }
        if self.pending.len() == 0 {
            self.pending_since = None;
        }
        proof {
            assert(self.pending@.dom() =~= self@.pending.dom());
        }
    }

    fn buffer_pending(&mut self, rel: u64, segment: Segment, now: Duration) -> (outcome:
        PushOutcome)
        requires
            old(self).wf(),
            segment@.inv(),
            old(self)@.next < rel,
            rel + segment@.data.len() <= u64::MAX,
            old(self).contiguous_len + old(self).pending_len + segment@.data.len() <= usize::MAX,
        ensures
            final(self).wf(),
            (final(self)@, outcome) == old(self)@.buffer(rel, segment@, now@),
    {
        let ghost model = segment@;
        let incoming_len: usize = segment.data.len();
        if let Some(existing) = self.pending.get(&rel) {
            if existing.data.len() >= incoming_len {
                return PushOutcome::DuplicateDiscarded;
            }
            proof {
                lemma_held_remove(self@.pending, rel);
            }
            self.pending_len = self.pending_len - existing.data.len();
        }
        let since = match self.pending_since {
            Some(since) => since,
            None => now,
        };
        proof {
            lemma_held_insert(old(self)@.pending, rel, model);
        }
        self.pending_since = Some(since);
        self.pending.insert(rel, segment);
        self.pending_len = self.pending_len + incoming_len;
        let ghost held = self@;
        proof {
            assert(held.pending =~= old(self)@.pending.insert(rel, model));
            assert(self.pending@.dom() =~= held.pending.dom());
        }
        if elapsed_between(since, now).as_nanos() > self.limits.max_age.as_nanos() {
            let evicted_bytes: usize = self.pending_len;
            self.pending.clear();
            self.pending_len = 0;
            self.pending_since = None;
            proof {
                assert(self@.pending =~= Map::empty());
            }
            return PushOutcome::GapAbandoned { bytes: evicted_bytes };
        }
        if self.pending_len <= self.limits.max_bytes && self.pending.len()
            <= self.limits.max_packets {
            return PushOutcome::BufferedOutOfOrder;
        }
        let mut evicted_bytes: usize = 0;
        while self.pending_len > self.limits.max_bytes || self.pending.len()
            > self.limits.max_packets
            invariant
                self.counted(),
                evicted_bytes + self.pending_len == held_bytes(held.pending),
                held_bytes(held.pending) <= usize::MAX,
                self@.evict() == held.evict(),
                self@ == (StreamModel { pending: self@.pending, ..held }),
                self@.pending.dom().finite(),
                self.pending@.dom() =~= self@.pending.dom(),
                forall|k: u64| #[trigger]
                    self@.pending.contains_key(k) ==> self@.next < k && k
                        + self@.pending[k].data.len() <= u64::MAX && self@.pending[k].inv(),
            decreases self@.pending.dom().len(),
        {
            match self.first_pending() {
                Some(oldest) => {
                    proof {
                        lemma_held_remove(self@.pending, oldest);
                    }
                    let ghost before = self@;
                    match self.pending.remove(&oldest) {
                        Some(removed) => {
                            self.pending_len = self.pending_len - removed.data.len();
                            evicted_bytes = evicted_bytes + removed.data.len();
                        },
                        None => {},
                    }
                    assert(self@.pending =~= before.pending.remove(oldest));
                },
                None => {
                    assert(!self@.pending.contains_key(first_key(self@.pending)));
                    assert(held_bytes(self@.pending) == 0);
                    assert(false);
                },
            }
        }
        if self.pending.len() == 0 {
            self.pending_since = None;
        }
        PushOutcome::GapAbandoned { bytes: evicted_bytes }
    }

    /// The number of bytes delivered since the stream began, consumed or not.
    pub fn delivered_len(&self) -> (n: u64)
        ensures
            n == self@.next,
    {
        self.next_expected_relative
    }

    /// The number of bytes ready to be consumed.
    pub fn contiguous_len(&self) -> (n: usize)
        requires
            self.wf(),
        ensures
            n == self@.ready().len(),
    {
        self.contiguous_len
    }

    /// The number of bytes that wait for a gap to close.
    pub fn pending_len(&self) -> (n: usize)
        requires
            self.wf(),
        ensures
            n == held_bytes(self@.pending),
    {
        self.pending_len
    }

    /// Copies up to `n` bytes from the front without consuming them.
    pub fn peek(&self, n: usize) -> (out: Vec<u8>)
        requires
            self.wf(),
        ensures
            out@ == self@.ready().take(
                if n < self@.ready().len() {
                    n as int
                } else {
                    self@.ready().len() as int
                },
            ),
    {
        let mut out: Vec<u8> = Vec::new();
        let mut i: usize = 0;
        let ghost all = self@.contiguous;
        proof {
            assert(all.skip(0) =~= all);
        }
        while i < self.contiguous.len() && out.len() < n
            invariant
                i <= self.contiguous@.len(),
                all == self@.contiguous,
                all.len() == self.contiguous@.len(),
                out@.len() <= n,
                out@.len() < n ==> out@ + flat(all.skip(i as int)) == flat(all),
                out@.len() == n ==> out@ == flat(all).take(n as int) && n <= flat(all).len(),
            decreases self.contiguous@.len() - i,
        {
            let room: usize = n - out.len();
            let segment = &self.contiguous[i];
            let ghost before = out@;
            let take: usize = if room < segment.data.len() { room } else { segment.data.len() };
            let part = copy_range(segment.data.as_slice(), 0, take);
            proof {
                assert(all[i as int] == segment@);
                assert(all.skip(i as int).drop_first() =~= all.skip(i + 1));
                assert(flat(all.skip(i as int)) == segment.data@ + flat(all.skip(i + 1)));
            }
            append_bytes(&mut out, part.as_slice());
            proof {
                if out@.len() < n {
                    assert(part@ =~= segment.data@);
                    assert(out@ + flat(all.skip(i + 1)) =~= flat(all));
                } else {
                    assert(out@ =~= flat(all).take(n as int));
                }
            }
            i += 1;
        }
        proof {
            if out@.len() < n {
                assert(all.skip(i as int) =~= Seq::empty());
                assert(flat(all.skip(i as int)) =~= Seq::empty());
                assert(out@ =~= flat(all));
                assert(flat(all).take(flat(all).len() as int) =~= flat(all));
            }
        }
        out
    }

    /// Consumes exactly `n` bytes from the front, and returns them with where they came from.
    pub fn take_bytes(&mut self, n: usize) -> (taken: (Vec<u8>, Vec<SourcePiece>))
        requires
            old(self).wf(),
            n <= old(self)@.ready().len(),
        ensures
            final(self).wf(),
            final(self)@ == (StreamModel {
                contiguous: after_take(old(self)@.contiguous, n as int),
                ..old(self)@
            }),
            final(self)@.ready() == old(self)@.ready().skip(n as int),
            taken.0@ == old(self)@.ready().take(n as int),
            taken.1@ == pieces_of(old(self)@.contiguous, n as int),
    {
        let mut out: Vec<u8> = Vec::new();
        let mut pieces: Vec<SourcePiece> = Vec::new();
        let mut remaining: usize = n;
        let ghost all = self@.contiguous;
        proof {
            assert(flat(all).take(n as int) =~= out@ + flat(all).take(n as int));
            assert(pieces_of(all, n as int) =~= pieces@ + pieces_of(all, n as int));
            assert(flat(all).skip(0) =~= flat(all));
        }
        while remaining > 0
            invariant
                self.wf(),
                remaining <= n <= flat(all).len(),
                remaining <= flat(self@.contiguous).len(),
                all == old(self)@.contiguous,
                self@ == (StreamModel { contiguous: self@.contiguous, ..old(self)@ }),
                after_take(self@.contiguous, remaining as int) == after_take(all, n as int),
                out@ + flat(self@.contiguous).take(remaining as int) == flat(all).take(n as int),
                pieces@ + pieces_of(self@.contiguous, remaining as int) == pieces_of(
                    all,
                    n as int,
                ),
                flat(self@.contiguous) == flat(all).skip(n - remaining),
            decreases remaining,
        {
            let ghost cur = self@.contiguous;
            let ghost left = remaining as int;
            match self.contiguous.pop_front() {
                Some(segment) => {
                    let mut segment = segment;
                    let ghost first = segment@;
                    proof {
                        assert(cur[0] == first);
                        assert(models(self.contiguous@) =~= cur.drop_first());
                        assert(flat(cur) == first.data + flat(cur.drop_first()));
                    }
                    let len: usize = segment.data.len();
                    let take: usize = if remaining < len { remaining } else { len };
                    pieces.push(
                        SourcePiece {
                            packet_index: segment.packet_index,
                            range: Range { start: segment.start, end: segment.start + take },
                        },
                    );
                    if take < len {
                        let tail = segment.data.split_off(take);
                        let rest = Segment {
                            packet_index: segment.packet_index,
                            start: segment.start + take,
                            data: tail,
                        };
                        assert(rest@ == first.trim(take as int)) by {
                            assert(rest@.data =~= first.trim(take as int).data);
                        }
                        self.contiguous.push_front(rest);
                        assert(models(self.contiguous@) =~= seq![first.trim(take as int)]
                            + cur.drop_first());
                    }
                    out.append(&mut segment.data);
                    self.contiguous_len = self.contiguous_len - take;
                    remaining -= take;
                    proof {
                        let now = self@.contiguous;
                        if take < len {
                            assert(now.drop_first() =~= cur.drop_first());
                            assert(flat(now) =~= flat(cur).skip(take as int));
                            assert(pieces_of(cur.drop_first(), 0) =~= Seq::empty());
                            assert(pieces_of(now, 0) =~= Seq::empty());
                        } else {
                            assert(flat(now) =~= flat(cur).skip(take as int));
                        }
                        assert(flat(now) =~= flat(all).skip(n - remaining));
                        assert(out@ + flat(now).take(remaining as int) =~= flat(all).take(
                            n as int,
                        ));
                        assert(pieces@ + pieces_of(now, remaining as int) =~= pieces_of(
                            all,
                            n as int,
                        ));
                    }
                },
                None => {
                    assert(cur =~= Seq::empty());
                    assert(false);
                },
            }
        }
        proof {
            assert(out@ =~= flat(all).take(n as int));
            assert(pieces_of(self@.contiguous, 0) =~= Seq::empty());
            assert(pieces@ =~= pieces_of(all, n as int));
        }
        (out, pieces)
    }
}

} // verus!
