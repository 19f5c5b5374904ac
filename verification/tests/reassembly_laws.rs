use tlscap::reassembly::{PendingLimits, PushOutcome, StreamReassembler};
use tlscap::time::Duration;

fn limits(max_bytes: usize, max_packets: usize) -> PendingLimits {
    PendingLimits {
        max_bytes,
        max_packets,
        max_age: Duration::from_secs(10),
    }
}

#[test]
fn overlapping_segments_in_any_order_give_the_stream() {
    let stream: Vec<u8> = (0..60u8).collect();
    let cuts = [
        (0usize, 12usize),
        (8, 30),
        (25, 26),
        (20, 45),
        (44, 60),
        (30, 50),
    ];
    let mut orders: Vec<Vec<usize>> = vec![vec![]];
    for i in 0..cuts.len() {
        let mut next = Vec::new();
        for o in &orders {
            for at in 0..=o.len() {
                let mut with = o.clone();
                with.insert(at, i);
                next.push(with);
            }
        }
        orders = next;
    }
    assert_eq!(orders.len(), 720);
    for order in orders {
        let mut r = StreamReassembler::with_pending_limits(limits(1000, 100));
        r.set_isn(u32::MAX - 20);
        for i in order {
            let (from, to) = cuts[i];
            let seq = (u32::MAX - 20).wrapping_add(from as u32);
            let outcome = r.push_at(i, seq, 0..to - from, &stream[from..to], Duration::zero());
            assert!(!matches!(outcome, PushOutcome::GapAbandoned { .. }));
        }
        assert_eq!(r.contiguous_len(), 60);
        assert_eq!(r.pending_len(), 0);
        assert_eq!(r.peek(7), &stream[..7]);
        assert_eq!(r.peek(1000), stream);
        let (bytes, pieces) = r.take_bytes(60);
        assert_eq!(bytes, stream);
        let total: usize = pieces.iter().map(|p| p.range.len()).sum();
        assert_eq!(total, 60);
    }
}

#[test]
fn the_losses_reported_are_the_bytes_taken_away() {
    let mut r = StreamReassembler::with_pending_limits(limits(10, 100));
    r.set_isn(0);
    let mut brought = 0;
    let mut lost = 0;
    for i in 1..20u32 {
        let payload = vec![0u8; (i % 5 + 1) as usize];
        brought += payload.len();
        if let PushOutcome::GapAbandoned { bytes } =
            r.push_at(0, i * 100, 0..payload.len(), &payload, Duration::zero())
        {
            lost += bytes;
        }
        assert!(r.pending_len() <= 10);
        assert_eq!(r.pending_len(), brought - lost);
    }
    assert!(lost > 0);
}

#[test]
fn a_longer_capture_of_the_same_bytes_replaces_a_shorter_one() {
    let mut r = StreamReassembler::new();
    r.set_isn(0);
    let now = Duration::zero();
    assert_eq!(
        r.push_at(0, 10, 0..2, b"ab", now),
        PushOutcome::BufferedOutOfOrder
    );
    assert_eq!(
        r.push_at(1, 10, 0..2, b"ab", now),
        PushOutcome::DuplicateDiscarded
    );
    assert_eq!(
        r.push_at(2, 10, 0..4, b"abcd", now),
        PushOutcome::BufferedOutOfOrder
    );
    assert_eq!(r.pending_len(), 4);
    assert_eq!(
        r.push_at(3, 0, 0..10, b"0123456789", now),
        PushOutcome::Delivered
    );
    assert_eq!(r.peek(14), b"0123456789abcd");
}

#[test]
fn a_new_gap_has_an_age_of_its_own() {
    let mut r = StreamReassembler::with_pending_limits(limits(1000, 100));
    r.set_isn(0);
    r.push_at(0, 5, 0..1, b"x", Duration::zero());
    r.push_at(0, 0, 0..5, b"01234", Duration::from_secs(9));
    assert_eq!(r.pending_len(), 0);
    assert_eq!(
        r.push_at(0, 50, 0..1, b"y", Duration::from_secs(11)),
        PushOutcome::BufferedOutOfOrder
    );
    assert_eq!(
        r.push_at(0, 60, 0..1, b"z", Duration::from_secs(21)),
        PushOutcome::BufferedOutOfOrder
    );
    assert_eq!(
        r.push_at(0, 70, 0..1, b"z", Duration::from_secs(22)),
        PushOutcome::GapAbandoned { bytes: 3 }
    );
}

#[test]
fn the_first_anchor_stays() {
    let mut r = StreamReassembler::new();
    r.set_isn(100);
    r.set_isn(0);
    assert_eq!(
        r.push_at(0, 100, 0..1, b"x", Duration::zero()),
        PushOutcome::Delivered
    );
}

#[test]
fn in_order_data_is_delivered_after_the_sequence_numbers_wrapped_round() {
    let mut r = StreamReassembler::with_pending_limits(limits(1000, 100));
    let start: u32 = 0x8000_0010;
    r.set_isn(start);
    let chunk = vec![7u8; 1 << 16];
    let mut seq = start;
    for i in 0..1 << 16 {
        assert_eq!(
            r.push_at(i, seq, 0..chunk.len(), &chunk, Duration::zero()),
            PushOutcome::Delivered
        );
        seq = seq.wrapping_add(1 << 16);
        if r.delivered_len() == 3 << 30 {
            assert_eq!(
                r.push_at(i, start, 0..chunk.len(), &chunk, Duration::zero()),
                PushOutcome::DuplicateDiscarded,
                "a retransmission stays one, however old"
            );
        }
        assert_eq!(r.take_bytes(chunk.len()).0.len(), chunk.len());
    }
    assert_eq!(r.delivered_len(), 1 << 32);
    assert_eq!(seq, start);

    assert_eq!(
        r.push_at(65536, start, 0..5, b"hello", Duration::zero()),
        PushOutcome::Delivered
    );
    assert_eq!(r.contiguous_len(), 5);
    assert_eq!(
        r.push_at(65537, start.wrapping_add(10), 0..5, b"later", Duration::zero()),
        PushOutcome::BufferedOutOfOrder
    );
    assert_eq!(
        r.push_at(65538, start.wrapping_sub(3), 0..8, b"xyzhello", Duration::zero()),
        PushOutcome::DuplicateDiscarded
    );
    assert_eq!(
        r.push_at(65539, start.wrapping_add(5), 0..5, b" and ", Duration::zero()),
        PushOutcome::Delivered
    );
    assert_eq!(r.take_bytes(15).0, b"hello and later");
}

#[test]
fn what_begins_before_the_anchor_counts_forward_from_it() {
    let mut r = StreamReassembler::new();
    r.set_isn(1000);
    let payload = [7u8; 20];
    assert_eq!(
        r.push_at(0, 990, 0..20, &payload, Duration::zero()),
        PushOutcome::BufferedOutOfOrder
    );
    assert_eq!((r.contiguous_len(), r.pending_len()), (0, 20));
    assert_eq!(
        r.push_at(1, 1000, 0..5, b"hello", Duration::zero()),
        PushOutcome::Delivered
    );
    assert_eq!(r.take_bytes(5).0, b"hello");
}

#[test]
fn a_segment_far_ahead_waits_for_the_gap_to_close() {
    let mut r = StreamReassembler::new();
    r.set_isn(5);
    for (i, seq) in [0x8000_0005u32, 0x8000_0006, 0xffff_fff0, 4].iter().enumerate() {
        assert_eq!(
            r.push_at(i, *seq, 0..1, b"x", Duration::zero()),
            PushOutcome::BufferedOutOfOrder
        );
    }
    assert_eq!(r.pending_len(), 4);
}

#[test]
fn a_capture_that_starts_with_swapped_segments_loses_nothing_unreported() {
    let mut r = StreamReassembler::with_pending_limits(limits(1000, 1));
    assert_eq!(
        r.push_at(0, 1005, 0..5, b"world", Duration::zero()),
        PushOutcome::Delivered
    );
    assert_eq!(
        r.push_at(1, 1000, 0..5, b"hello", Duration::zero()),
        PushOutcome::BufferedOutOfOrder
    );
    assert_eq!(
        r.push_at(2, 1020, 0..3, b"abc", Duration::zero()),
        PushOutcome::GapAbandoned { bytes: 3 }
    );
    assert_eq!(r.pending_len(), 5);
}

#[test]
fn pieces_lead_back_to_their_bytes() {
    let stream: Vec<u8> = (0..100u8).collect();
    let cuts = [(40usize, 70usize), (0, 25), (20, 45), (60, 100), (10, 90)];
    let mut packets: Vec<Vec<u8>> = Vec::new();
    let mut r = StreamReassembler::new();
    r.set_isn(500);
    let mut taken = Vec::new();
    for (i, (from, to)) in cuts.iter().enumerate() {
        let header = 3 + i;
        let mut packet = vec![0xee; header];
        packet.extend_from_slice(&stream[*from..*to]);
        r.push_at(
            i,
            500 + *from as u32,
            header..packet.len(),
            &packet[header..],
            Duration::zero(),
        );
        packets.push(packet);
        let n = r.contiguous_len().min(17);
        let (bytes, pieces) = r.take_bytes(n);
        let mut read = Vec::new();
        for p in &pieces {
            assert!(!p.range.is_empty());
            read.extend_from_slice(&packets[p.packet_index][p.range.clone()]);
        }
        assert_eq!(read, bytes);
        assert_eq!(bytes.len(), n);
        taken.extend(bytes);
    }
    let (bytes, pieces) = r.take_bytes(r.contiguous_len());
    let read: Vec<u8> = pieces
        .iter()
        .flat_map(|p| packets[p.packet_index][p.range.clone()].to_vec())
        .collect();
    assert_eq!(read, bytes);
    taken.extend(bytes);
    assert_eq!(taken, stream);
    assert!(r.take_bytes(0).1.is_empty());
}
