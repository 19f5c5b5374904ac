use etherparse::{LinuxSllPacketType, PacketBuilder};
use tlscap::net::IpAddr;
use tlscap::pcap_input::{
    correct_epb_timestamp, detect_format, parse_tcp_frame, CaptureFormat, DataLink, OpenError,
};
use tlscap::time::Duration;


fn build_ethernet_ipv4_tcp(
    seq: u32,
    flags: impl Fn(
        etherparse::PacketBuilderStep<etherparse::TcpHeader>,
    ) -> etherparse::PacketBuilderStep<etherparse::TcpHeader>,
    payload: &[u8],
) -> Vec<u8> {
    let builder = PacketBuilder::ethernet2([1, 2, 3, 4, 5, 6], [7, 8, 9, 10, 11, 12])
        .ipv4([10, 0, 0, 1], [10, 0, 0, 2], 64)
        .tcp(9410, 51234, seq, 65535);
    let builder = flags(builder);
    let mut out = Vec::with_capacity(builder.size(payload.len()));
    builder.write(&mut out, payload).unwrap();
    out
}

fn build_linux_sll_ipv4_tcp(seq: u32, payload: &[u8]) -> Vec<u8> {
    let builder =
        PacketBuilder::linux_sll(LinuxSllPacketType::OTHERHOST, 6, [1, 2, 3, 4, 5, 6, 0, 0])
            .ipv4([10, 0, 0, 1], [10, 0, 0, 2], 64)
            .tcp(9410, 51234, seq, 65535);
    let mut out = Vec::with_capacity(builder.size(payload.len()));
    builder.write(&mut out, payload).unwrap();
    out
}

#[test]
fn parses_ethernet_ipv4_tcp_frame() {
    let data = build_ethernet_ipv4_tcp(1000, |b| b, b"hello");
    let frame = parse_tcp_frame(DataLink::ETHERNET, &data).unwrap();
    assert_eq!(frame.src_ip, IpAddr::v4(10, 0, 0, 1));
    assert_eq!(frame.dst_ip, IpAddr::v4(10, 0, 0, 2));
    assert_eq!(frame.src_port, 9410);
    assert_eq!(frame.dst_port, 51234);
    assert_eq!(frame.seq, 1000);
    assert_eq!(&data[frame.payload_range], b"hello");
}

#[test]
fn parses_linux_sll_ipv4_tcp_frame() {
    let data = build_linux_sll_ipv4_tcp(2000, b"world");
    let frame = parse_tcp_frame(DataLink::LINUX_SLL, &data).unwrap();
    assert_eq!(frame.src_ip, IpAddr::v4(10, 0, 0, 1));
    assert_eq!(frame.seq, 2000);
    assert_eq!(&data[frame.payload_range], b"world");
}

#[test]
fn parses_linux_sll2_ipv4_tcp_frame() {
    let data: &[u8] = &[
        0x08, 0x00, 0x00, 0x00, 0x00, 0x00, 0x00, 0x04, 0x00, 0x01,
        0x00, 0x06, 0x0a, 0xfb, 0xb2, 0x1e, 0x49, 0x1c, 0x00, 0x00,
        0x45, 0x00, 0x00, 0x3c, 0xe1, 0xc2, 0x40, 0x00, 0x7b, 0x06,
        0x3a, 0x3d, 0x64, 0x64, 0x67, 0xf9, 0x0a, 0x9b, 0x0c, 0xc4,
        0x94, 0x08, 0x24, 0xc2, 0x6d, 0xa4, 0x0a, 0x1f, 0x00, 0x00,
        0x00, 0x00, 0xa0, 0x02, 0xf5, 0x07, 0xdc, 0xe1, 0x00, 0x00,
        0x02, 0x04, 0x21, 0x0c, 0x04, 0x02, 0x08, 0x0a, 0x77, 0xed,
        0xce, 0x86, 0x00, 0x00, 0x00, 0x00, 0x01, 0x03, 0x03, 0x07,
    ];
    let frame = parse_tcp_frame(DataLink::LINUX_SLL2, data).unwrap();
    assert_eq!(frame.src_ip, IpAddr::v4(100, 100, 103, 249));
    assert_eq!(frame.dst_ip, IpAddr::v4(10, 155, 12, 196));
    assert_eq!(frame.src_port, 37896);
    assert_eq!(frame.dst_port, 9410);
    assert_eq!(frame.seq, 0x6da40a1f);
    assert!(
        frame.flags.syn,
        "this real packet is a SYN (flags byte 0x02 = SYN only)"
    );
}

#[test]
fn parses_bsd_loopback_null_ipv4_tcp_frame() {
    let data: &[u8] = &[
        0x02, 0x00, 0x00, 0x00,
        0x45, 0x00, 0x00, 0x40, 0x00, 0x00, 0x40, 0x00, 0x40, 0x06,
        0x00, 0x00, 0x7f, 0x00, 0x00, 0x01, 0x7f, 0x00, 0x00, 0x01,
        0xd6, 0x9c, 0x24, 0xc2, 0x9d, 0x97, 0x66, 0xf9, 0x00, 0x00,
        0x00, 0x00, 0xb0, 0x02, 0xff, 0xff, 0xfe, 0x34, 0x00, 0x00,
        0x02, 0x04, 0x3f, 0xd8, 0x01, 0x03, 0x03, 0x06, 0x01, 0x01,
        0x08, 0x0a, 0x2c, 0x32, 0x81, 0xce, 0x00, 0x00, 0x00, 0x00,
        0x04, 0x02, 0x00, 0x00,
    ];
    let frame = parse_tcp_frame(DataLink::NULL, data).unwrap();
    assert_eq!(frame.src_ip, IpAddr::v4(127, 0, 0, 1));
    assert_eq!(frame.dst_ip, IpAddr::v4(127, 0, 0, 1));
    assert_eq!(frame.src_port, 54940);
    assert_eq!(frame.dst_port, 9410);
    assert_eq!(frame.seq, 0x9d9766f9);
    assert!(
        frame.flags.syn,
        "this real packet is a SYN (flags byte 0x02 = SYN only)"
    );
}

#[test]
fn parses_bsd_loop_ipv4_tcp_frame_identically_to_null() {
    let data: &[u8] = &[
        0x00, 0x00, 0x00, 0x02,
        0x45, 0x00, 0x00, 0x40, 0x00, 0x00, 0x40, 0x00, 0x40, 0x06,
        0x00, 0x00, 0x7f, 0x00, 0x00, 0x01, 0x7f, 0x00, 0x00, 0x01,
        0xd6, 0x9c, 0x24, 0xc2, 0x9d, 0x97, 0x66, 0xf9, 0x00, 0x00,
        0x00, 0x00, 0xb0, 0x02, 0xff, 0xff, 0xfe, 0x34, 0x00, 0x00,
        0x02, 0x04, 0x3f, 0xd8, 0x01, 0x03, 0x03, 0x06, 0x01, 0x01,
        0x08, 0x0a, 0x2c, 0x32, 0x81, 0xce, 0x00, 0x00, 0x00, 0x00,
        0x04, 0x02, 0x00, 0x00,
    ];
    let frame = parse_tcp_frame(DataLink::LOOP, data).unwrap();
    assert_eq!(frame.src_ip, IpAddr::v4(127, 0, 0, 1));
    assert_eq!(frame.src_port, 54940);
    assert_eq!(frame.dst_port, 9410);
}

#[test]
fn extracts_fin_and_rst_flags() {
    let data = build_ethernet_ipv4_tcp(1, |b| b.fin(), b"");
    let frame = parse_tcp_frame(DataLink::ETHERNET, &data).unwrap();
    assert!(frame.flags.fin);
    assert!(!frame.flags.rst);

    let data = build_ethernet_ipv4_tcp(1, |b| b.rst(), b"");
    let frame = parse_tcp_frame(DataLink::ETHERNET, &data).unwrap();
    assert!(frame.flags.rst);
    assert!(!frame.flags.fin);

    let data = build_ethernet_ipv4_tcp(1, |b| b.syn(), b"");
    let frame = parse_tcp_frame(DataLink::ETHERNET, &data).unwrap();
    assert!(frame.flags.syn);
}

#[test]
fn extracts_ack_number_and_psh_flag() {
    let data = build_ethernet_ipv4_tcp(1, |b| b.ack(987654321).psh(), b"");
    let frame = parse_tcp_frame(DataLink::ETHERNET, &data).unwrap();
    assert!(frame.flags.ack);
    assert!(frame.flags.psh);
    assert_eq!(frame.ack_number, 987654321);

    let data = build_ethernet_ipv4_tcp(1, |b| b, b"");
    let frame = parse_tcp_frame(DataLink::ETHERNET, &data).unwrap();
    assert!(!frame.flags.psh);
}

#[test]
fn non_tcp_frame_is_rejected_not_panicking() {
    assert!(parse_tcp_frame(DataLink::ETHERNET, &[0u8; 4]).is_err());
}

#[test]
fn open_detects_classic_pcap_magic() {
    let mut bytes = vec![0xD4u8, 0xC3, 0xB2, 0xA1];
    bytes.extend_from_slice(&2u16.to_le_bytes());
    bytes.extend_from_slice(&4u16.to_le_bytes());
    bytes.extend_from_slice(&0i32.to_le_bytes());
    bytes.extend_from_slice(&0u32.to_le_bytes());
    bytes.extend_from_slice(&65535u32.to_le_bytes());
    bytes.extend_from_slice(&1u32.to_le_bytes());

    assert!(matches!(detect_format(&bytes), Ok(CaptureFormat::Pcap)));
}

#[test]
fn open_rejects_unknown_magic() {
    let bytes = vec![0x00u8, 0x01, 0x02, 0x03, 0x04, 0x05, 0x06, 0x07];
    assert!(matches!(
        detect_format(&bytes),
        Err(OpenError::UnknownMagic)
    ));
}

#[test]
fn corrects_microsecond_resolution_timestamp() {
    let mis_scaled = Duration::from_nanos(1_500_000);
    let corrected = correct_epb_timestamp(mis_scaled, Some(6));
    assert_eq!(corrected, Duration::new(1, 500_000_000));
}

#[test]
fn absent_if_tsresol_defaults_to_microseconds_per_pcapng_spec() {
    let mis_scaled = Duration::from_nanos(1_500_000);
    assert_eq!(
        correct_epb_timestamp(mis_scaled, None),
        Duration::new(1, 500_000_000)
    );
}

#[test]
fn nanosecond_resolution_is_a_no_op() {
    let d = Duration::new(1, 500_000_000);
    assert_eq!(correct_epb_timestamp(d, Some(9)), d);
}

#[test]
fn corrects_second_resolution_timestamp() {
    let mis_scaled = Duration::from_nanos(5);
    assert_eq!(
        correct_epb_timestamp(mis_scaled, Some(0)),
        Duration::new(5, 0)
    );
}

#[test]
fn corrects_power_of_two_resolution_timestamp() {
    let ticks = 1u128 << 20;
    let mis_scaled = Duration::from_nanos(ticks as u64);
    assert_eq!(
        correct_epb_timestamp(mis_scaled, Some(0x80 | 20)),
        Duration::new(1, 0)
    );
}

#[test]
fn a_fixed_link_header_only_shifts_the_payload() {
    let ethernet = build_ethernet_ipv4_tcp(77, |b| b.ack(5), b"payload");
    let packet = &ethernet[14..];
    let bare = parse_tcp_frame(DataLink::RAW, packet).unwrap();
    for (link, len) in [
        (DataLink::LINUX_SLL, 16),
        (DataLink::LINUX_SLL2, 20),
        (DataLink::NULL, 4),
        (DataLink::LOOP, 4),
    ] {
        for filler in [0u8, 0x45, 0xff] {
            let mut data = vec![filler; len];
            data.extend_from_slice(packet);
            let frame = parse_tcp_frame(link, &data).unwrap();
            assert_eq!(frame.payload_range.start, bare.payload_range.start + len);
            assert_eq!(frame.payload_range.end, bare.payload_range.end + len);
            assert_eq!(&data[frame.payload_range.clone()], b"payload");
            assert_eq!((frame.src_ip, frame.dst_ip), (bare.src_ip, bare.dst_ip));
            assert_eq!((frame.seq, frame.flags), (bare.seq, bare.flags));
            assert!(parse_tcp_frame(link, &data[..len - 1]).is_err());
            assert!(parse_tcp_frame(link, &data[..len + 10]).is_err());
        }
    }
    assert!(parse_tcp_frame(DataLink::Unknown(105), packet).is_err());
}
