use tlscap::reassembly::{PendingLimits, PushOutcome, SourcePiece, StreamReassembler};
use tlscap::time::Duration;


fn push(r: &mut StreamReassembler, seq: u32, payload: &[u8]) -> PushOutcome {
    r.push(0, seq, 0..payload.len(), payload)
}

fn push_at(r: &mut StreamReassembler, seq: u32, payload: &[u8], now: Duration) -> PushOutcome {
    r.push_at(0, seq, 0..payload.len(), payload, now)
}

#[test]
fn in_order_delivery() {
    let mut r = StreamReassembler::new();
    assert_eq!(push(&mut r, 1000, b"hello"), PushOutcome::Delivered);
    assert_eq!(push(&mut r, 1005, b"world"), PushOutcome::Delivered);
    assert_eq!(r.contiguous_len(), 10);
    let (bytes, _) = r.take_bytes(10);
    assert_eq!(bytes, b"helloworld");
}

#[test]
fn two_segment_reorder_recovers_both() {
    let mut r = StreamReassembler::new();
    r.set_isn(1000);
    assert_eq!(
        push(&mut r, 1005, b"world"),
        PushOutcome::BufferedOutOfOrder
    );
    assert_eq!(r.contiguous_len(), 0);
    assert_eq!(r.pending_len(), 5);
    assert_eq!(push(&mut r, 1000, b"hello"), PushOutcome::Delivered);
    assert_eq!(r.contiguous_len(), 10);
    assert_eq!(r.pending_len(), 0);
    let (bytes, _) = r.take_bytes(10);
    assert_eq!(bytes, b"helloworld");
}

#[test]
fn three_segment_reorder_all_orders_recover() {
    let segs: [(u32, &[u8]); 3] = [(1000, b"AAAAA"), (1005, b"BBBBB"), (1010, b"CCCCC")];
    let orders: [[usize; 3]; 6] = [
        [0, 1, 2],
        [0, 2, 1],
        [1, 0, 2],
        [1, 2, 0],
        [2, 0, 1],
        [2, 1, 0],
    ];
    for order in orders {
        let mut r = StreamReassembler::new();
        r.set_isn(1000);
        for &idx in &order {
            let (seq, payload) = segs[idx];
            push(&mut r, seq, payload);
        }
        assert_eq!(
            r.contiguous_len(),
            15,
            "order {:?} failed to fully reassemble",
            order
        );
        let (bytes, _) = r.take_bytes(15);
        assert_eq!(
            bytes, b"AAAAABBBBBCCCCC",
            "order {:?} produced wrong bytes",
            order
        );
    }
}

#[test]
fn exact_duplicate_retransmit_discarded_no_loss() {
    let mut r = StreamReassembler::new();
    assert_eq!(push(&mut r, 1000, b"hello"), PushOutcome::Delivered);
    assert_eq!(
        push(&mut r, 1000, b"hello"),
        PushOutcome::DuplicateDiscarded
    );
    assert_eq!(r.contiguous_len(), 5);
    let (bytes, _) = r.take_bytes(5);
    assert_eq!(bytes, b"hello");
}

#[test]
fn partial_overlap_retransmit_keeps_new_tail() {
    let mut r = StreamReassembler::new();
    assert_eq!(push(&mut r, 1000, b"hello"), PushOutcome::Delivered);
    assert_eq!(push(&mut r, 1003, b"lo world"), PushOutcome::Delivered);
    assert_eq!(r.contiguous_len(), 11);
    let (bytes, _) = r.take_bytes(11);
    assert_eq!(bytes, b"hello world");
}

#[test]
fn multiple_simultaneous_gaps_drain_in_order() {
    let mut r = StreamReassembler::new();
    r.set_isn(1000);
    push(&mut r, 1015, b"DDDDD");
    push(&mut r, 1010, b"CCCCC");
    push(&mut r, 1005, b"BBBBB");
    assert_eq!(r.pending_len(), 15);
    assert_eq!(push(&mut r, 1000, b"AAAAA"), PushOutcome::Delivered);
    assert_eq!(r.pending_len(), 0);
    assert_eq!(r.contiguous_len(), 20);
    let (bytes, _) = r.take_bytes(20);
    assert_eq!(bytes, b"AAAAABBBBBCCCCCDDDDD");
}

#[test]
fn gap_never_fills_triggers_abandonment_when_over_budget() {
    let mut r = StreamReassembler::with_max_pending_bytes(10);
    r.set_isn(1000);
    assert_eq!(
        push(&mut r, 2000, &[b'x'; 6]),
        PushOutcome::BufferedOutOfOrder
    );
    assert_eq!(
        push(&mut r, 3000, &[b'y'; 6]),
        PushOutcome::GapAbandoned { bytes: 6 }
    );
    assert_eq!(r.pending_len(), 6);
}

#[test]
fn gap_abandoned_when_pending_packet_count_exceeds_limit() {
    let mut r = StreamReassembler::with_pending_limits(PendingLimits {
        max_bytes: 10_000_000, // generous -- packet count must be what trips this, not bytes
        max_packets: 5,
        max_age: Duration::from_secs(3600), // generous -- age must not be what trips this
    });
    r.set_isn(1000);
    for i in 0..5u32 {
        assert_eq!(
            push(&mut r, 2000 + i, b"x"),
            PushOutcome::BufferedOutOfOrder,
            "segment {i} must not yet trip any limit -- at most 5 pending so far, at the cap"
        );
    }
    assert_eq!(
        push(&mut r, 2005, b"x"),
        PushOutcome::GapAbandoned { bytes: 1 },
        "the 6th concurrently-pending segment must trip max_packets even though total bytes are tiny"
    );
}

#[test]
fn gap_abandoned_when_pending_age_exceeds_limit() {
    let mut r = StreamReassembler::with_pending_limits(PendingLimits {
        max_bytes: 10_000_000, // generous -- age must be what trips this, not bytes
        max_packets: 10_000,   // generous -- age must be what trips this, not packet count
        max_age: Duration::from_millis(20),
    });
    r.set_isn(1000);
    assert_eq!(
        push_at(&mut r, 2000, b"x", Duration::zero()),
        PushOutcome::BufferedOutOfOrder,
        "one lone out-of-order byte must not immediately trip anything"
    );
    assert_eq!(
        push_at(&mut r, 2001, b"y", Duration::from_millis(40)),
        PushOutcome::GapAbandoned { bytes: 2 },
        "the gap has been open longer than max_age -- must abandon everything at once, \
         regardless of how little data that is"
    );
    assert_eq!(
        r.pending_len(),
        0,
        "age-triggered abandonment gives up on the whole gap, not just a partial trim"
    );
}

#[test]
fn take_bytes_spans_multiple_source_segments_with_provenance() {
    let mut r = StreamReassembler::new();
    r.push(0, 1000, 100..105, b"hello");
    r.push(1, 1005, 200..205, b"world");
    let (bytes, pieces) = r.take_bytes(10);
    assert_eq!(bytes, b"helloworld");
    assert_eq!(pieces.len(), 2);
    assert_eq!(
        pieces[0],
        SourcePiece {
            packet_index: 0,
            range: 100..105
        }
    );
    assert_eq!(
        pieces[1],
        SourcePiece {
            packet_index: 1,
            range: 200..205
        }
    );
}

#[test]
fn take_bytes_partial_consumption_leaves_remainder_with_trimmed_provenance() {
    let mut r = StreamReassembler::new();
    r.push(0, 1000, 100..110, b"helloworld");
    let (bytes, pieces) = r.take_bytes(5);
    assert_eq!(bytes, b"hello");
    assert_eq!(
        pieces,
        vec![SourcePiece {
            packet_index: 0,
            range: 100..105
        }]
    );
    assert_eq!(r.contiguous_len(), 5);
    let (bytes2, pieces2) = r.take_bytes(5);
    assert_eq!(bytes2, b"world");
    assert_eq!(
        pieces2,
        vec![SourcePiece {
            packet_index: 0,
            range: 105..110
        }]
    );
}

#[test]
fn empty_payload_is_noop() {
    let mut r = StreamReassembler::new();
    assert_eq!(push(&mut r, 1000, b""), PushOutcome::DuplicateDiscarded);
    assert_eq!(r.contiguous_len(), 0);
}

#[test]
fn sequence_number_wraparound_handled_via_wrapping_sub() {
    let mut r = StreamReassembler::new();
    let near_max = u32::MAX - 1;
    assert_eq!(push(&mut r, near_max, b"AB"), PushOutcome::Delivered); // consumes seq MAX-1, MAX
    assert_eq!(push(&mut r, 0, b"CD"), PushOutcome::Delivered); // wraps to seq 0
    let (bytes, _) = r.take_bytes(4);
    assert_eq!(bytes, b"ABCD");
}
