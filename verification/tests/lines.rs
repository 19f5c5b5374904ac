use tlscap::ek_output::{EkWriter, NdjsonWriter};
use tlscap::lua::tree::FieldValue;
use tlscap::lua::FrameFields;
use tlscap::net::IpAddr;
use tlscap::orchestrator::{DecodedMessage, PacketEvent};
use tlscap::time::Duration;

fn text(s: &str) -> FieldValue {
    FieldValue::Str(s.to_string())
}

fn fields(entries: Vec<(&str, FieldValue)>) -> FrameFields {
    let mut f = FrameFields::default();
    for (name, value) in entries {
        f.entries.push((name.to_string(), value));
    }
    f
}

fn message(fields: FrameFields) -> DecodedMessage {
    DecodedMessage {
        src_ip: IpAddr::v4(10, 0, 0, 1),
        dst_ip: IpAddr::V6(1),
        src_port: 1,
        dst_port: 2,
        tls_app_data: vec![0xde, 0xad],
        fields,
        timestamp: Duration::from_micros(1_500_999),
    }
}

fn names(list: &[&str]) -> Vec<String> {
    list.iter().map(|s| s.to_string()).collect()
}

fn ndjson(w: &NdjsonWriter, msg: &DecodedMessage) -> String {
    let mut out = vec![];
    let n = w.write_tls_record(&mut out, msg);
    assert_eq!(n, out.len());
    String::from_utf8(out).unwrap()
}

#[test]
fn a_whole_ek_message_reads_as_expected() {
    let w = EkWriter::new(
        names(&[
            "ip.src",
            "ip.dst",
            "tcp.srcport",
            "tcp.dstport",
            "tls.app_data",
            "absent",
            "p.n",
            "p.deep",
        ]),
        "packets".to_string(),
    );
    let msg = message(fields(vec![
        ("p.n", FieldValue::UInt(7)),
        (
            "p",
            FieldValue::Tree(fields(vec![
                ("p.deep", FieldValue::Bytes(vec![1, 255])),
                ("p.n", text("x\u{1}\"y\\")),
            ])),
        ),
    ]));
    let mut out = b"before ".to_vec();
    let n = w.write_message(&mut out, &msg);
    assert_eq!(n, out.len() - 7);
    assert_eq!(
        String::from_utf8(out).unwrap(),
        "before {\"index\":{\"_index\":\"packets-1970-01-01\"}}\n\
         {\"timestamp\":\"1500\",\"layers\":{\"ip_src\":[\"10.0.0.1\"],\"ip_dst\":[\"::1\"],\
         \"tcp_srcport\":[\"1\"],\"tcp_dstport\":[\"2\"],\"tls_app_data\":[\"dead\"],\
         \"p_n\":[\"7\",\"x\\u0001\\\"y\\\\\"],\"p_deep\":[\"01ff\"]}}\n"
    );
}

#[test]
fn a_whole_ndjson_record_reads_as_expected() {
    let w = NdjsonWriter::new(
        names(&["p.x", "q", "tls.app_data", "tcp.srcport", "ip.src", "p.y"]),
        None,
        names(&["kv"]),
    );
    let kv = |name: &str, value: &str| {
        FieldValue::Tree(fields(vec![
            ("p.kv.name", text("early")),
            ("p.kv.name", text(name)),
            ("p.kv.value", text(value)),
            ("p.kv.number", FieldValue::UInt(1)),
        ]))
    };
    let msg = message(fields(vec![
        (
            "p",
            FieldValue::Tree(fields(vec![
                ("p.kv", kv("a", "1")),
                ("p.kv", kv("b", "2\n")),
                ("p.a.b", FieldValue::UInt(5)),
                ("other", FieldValue::Bytes(vec![0])),
            ])),
        ),
        ("q", FieldValue::UInt(3)),
        ("unselected", FieldValue::UInt(4)),
    ]));
    assert_eq!(
        ndjson(&w, &msg),
        "{\"kind\":\"tls_record\",\"tstamp\":1500999,\"ip\":{\"src\":\"10.0.0.1\",\"dst\":\"::1\"},\
         \"tcp\":{\"srcport\":1,\"dstport\":2},\"tls\":{\"app_data\":\"dead\"},\
         \"p\":[{\"kv\":{\"a\":\"1\",\"b\":\"2\\n\"},\"a_b\":5,\"other\":\"00\"}],\"q\":3}\n"
    );
}

#[test]
fn an_exploded_group_gives_a_line_for_each_occurrence() {
    let w = NdjsonWriter::new(names(&["p", "q"]), Some("p".to_string()), vec![]);
    let msg = message(fields(vec![
        ("p", FieldValue::UInt(1)),
        ("q", text("same")),
        ("p", FieldValue::Tree(fields(vec![("p.v", text("two\r\n"))]))),
    ]));
    assert_eq!(
        ndjson(&w, &msg),
        "{\"kind\":\"tls_record\",\"tstamp\":1500999,\"p\":1,\"q\":\"same\"}\n\
         {\"kind\":\"tls_record\",\"tstamp\":1500999,\"p\":{\"v\":\"two\\r\\n\"},\"q\":\"same\"}\n"
    );
    let other = NdjsonWriter::new(names(&["q"]), Some("absent".to_string()), vec![]);
    assert_eq!(
        ndjson(&other, &msg),
        "{\"kind\":\"tls_record\",\"tstamp\":1500999,\"q\":\"same\"}\n"
    );
}

#[test]
fn a_packet_event_without_groups_is_bare() {
    let w = NdjsonWriter::new(vec![], None, vec![]);
    let evt = PacketEvent {
        src_ip: IpAddr::V4(0),
        dst_ip: IpAddr::V4(0),
        src_port: 0,
        dst_port: 0,
        seq: 0,
        ack: 0,
        flags: vec![],
        payload_len: 0,
        timestamp: Duration::zero(),
    };
    let mut out = vec![];
    assert_eq!(w.write_packet_event(&mut out, &evt), out.len());
    assert_eq!(
        String::from_utf8(out).unwrap(),
        "{\"kind\":\"packet\",\"tstamp\":0}\n"
    );
}

#[test]
fn text_beyond_ascii_is_written_as_it_is() {
    let w = NdjsonWriter::new(names(&["t"]), None, vec![]);
    let msg = message(fields(vec![("t", text("grüße \u{1f600}\t"))]));
    let line = ndjson(&w, &msg);
    assert!(line.contains("\"t\":\"grüße \u{1f600}\\t\""));
    assert_eq!(line.matches('\n').count(), 1);
}
