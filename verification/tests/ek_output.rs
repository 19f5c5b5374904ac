use tlscap::ek_output::{civil_from_days, EkWriter, NdjsonWriter};
use tlscap::lua::tree::FieldValue;
use tlscap::lua::FrameFields;
use tlscap::net::IpAddr;
use tlscap::orchestrator::{DecodedMessage, PacketEvent};
use tlscap::time::Duration;


fn sample_message() -> DecodedMessage {
    let mut fields = FrameFields::default();
    fields.entries.push((
        "example.type_name".to_string(),
        FieldValue::Str("HEARTBEAT_REQUEST".to_string()),
    ));
    fields.entries.push((
        "example.field.kv".to_string(),
        FieldValue::Str("timestamp=123".to_string()),
    ));
    fields.entries.push((
        "example.field.kv".to_string(),
        FieldValue::Str("echoField=abc".to_string()),
    ));
    fields.protocol = Some("EXAMPLE".to_string());

    DecodedMessage {
        src_ip: IpAddr::v4(10, 0, 0, 1),
        dst_ip: IpAddr::v4(10, 0, 0, 2),
        src_port: 51234,
        dst_port: 9410,
        tls_app_data: vec![0xAA, 0xBB],
        fields,
        timestamp: Duration::from_millis(1_783_600_000_123),
    }
}

#[test]
fn writes_two_line_ndjson_with_expected_shape() {
    let writer = EkWriter::new(
        vec![
            "ip.src".into(),
            "ip.dst".into(),
            "example.type_name".into(),
            "example.field.kv".into(),
        ],
        "packets".into(),
    );
    let mut out = Vec::new();
    writer.write_message(&mut out, &sample_message());
    let text = String::from_utf8(out).unwrap();
    let lines: Vec<&str> = text.lines().collect();
    assert_eq!(lines.len(), 2);
    assert!(lines[0].starts_with(r#"{"index":{"_index":"packets-"#));
    assert!(lines[0].ends_with("\"}}"));
    assert!(lines[1].starts_with(r#"{"timestamp":"1783600000123","layers":{"#));
}

#[test]
fn dot_to_underscore_and_array_wrapping() {
    let writer = EkWriter::new(
        vec!["ip.src".into(), "example.type_name".into()],
        "packets".into(),
    );
    let mut out = Vec::new();
    writer.write_message(&mut out, &sample_message());
    let text = String::from_utf8(out).unwrap();
    assert!(text.contains(r#""ip_src":["10.0.0.1"]"#));
    assert!(text.contains(r#""example_type_name":["HEARTBEAT_REQUEST"]"#));
}

#[test]
fn repeated_field_becomes_multi_element_array_in_encounter_order() {
    let writer = EkWriter::new(vec!["example.field.kv".into()], "packets".into());
    let mut out = Vec::new();
    writer.write_message(&mut out, &sample_message());
    let text = String::from_utf8(out).unwrap();
    assert!(text.contains(r#""example_field_kv":["timestamp=123","echoField=abc"]"#));
}

#[test]
fn unfired_field_key_is_omitted_entirely_not_empty_array() {
    let writer = EkWriter::new(
        vec!["ip.src".into(), "example.sequence_id".into()],
        "packets".into(),
    );
    let mut out = Vec::new();
    writer.write_message(&mut out, &sample_message());
    let text = String::from_utf8(out).unwrap();
    assert!(
        !text.contains("example_sequence_id"),
        "a field that never fired must not appear as a key at all"
    );
}

#[test]
fn values_are_json_escaped() {
    let mut fields = FrameFields::default();
    fields.entries.push((
        "example.field.kv".to_string(),
        FieldValue::Str("name=\"quoted\"\nvalue".to_string()),
    ));
    let msg = DecodedMessage {
        src_ip: IpAddr::v4(0, 0, 0, 0),
        dst_ip: IpAddr::v4(0, 0, 0, 0),
        src_port: 0,
        dst_port: 0,
        tls_app_data: Vec::new(),
        fields,
        timestamp: Duration::zero(),
    };
    let writer = EkWriter::new(vec!["example.field.kv".into()], "packets".into());
    let mut out = Vec::new();
    writer.write_message(&mut out, &msg);
    let text = String::from_utf8(out).unwrap();
    let data_line = text.lines().nth(1).unwrap();
    assert!(data_line.contains(r#"\"quoted\""#));
    assert!(data_line.contains(r"\n"));
}

#[test]
fn civil_date_matches_known_epoch_days() {
    assert_eq!(civil_from_days(0), (1970, 1, 1));
    let epoch = 1_783_670_400i64; // 2026-07-09T00:00:00Z... approx, see next assert for the real check
    let days = epoch / 86400;
    let (y, m, d) = civil_from_days(days);
    assert_eq!(y, 2026);
    assert_eq!(m, 7);
    assert!((1..=31).contains(&d));
}

#[test]
fn ndjson_writes_one_line_no_index_action() {
    let writer = NdjsonWriter::new(vec!["ip.src".into(), "ip.dst".into()], None, vec![]);
    let mut out = Vec::new();
    writer
        .write_tls_record(&mut out, &sample_message());
    let text = String::from_utf8(out).unwrap();
    assert_eq!(
        text.lines().count(),
        1,
        "ndjson is one JSON object per line, no index-action line"
    );
    assert!(!text.contains("\"index\""));
    assert!(text.starts_with(r#"{"kind":"tls_record","tstamp":1783600000123000"#));
}

#[test]
fn ndjson_envelope_fields_are_scalar_not_arrays() {
    let writer = NdjsonWriter::new(
        vec![
            "ip.src".into(),
            "ip.dst".into(),
            "tcp.srcport".into(),
            "tcp.dstport".into(),
            "tls.app_data".into(),
        ],
        None,
        vec![],
    );
    let mut out = Vec::new();
    writer
        .write_tls_record(&mut out, &sample_message());
    let text = String::from_utf8(out).unwrap();
    assert!(text.contains(r#""ip":{"src":"10.0.0.1","dst":"10.0.0.2"}"#));
    assert!(text.contains(r#""tcp":{"srcport":51234,"dstport":9410}"#));
    assert!(text.contains(r#""tls":{"app_data":"aabb"}"#));
}

#[test]
fn ndjson_timestamp_is_microsecond_resolution() {
    let writer = NdjsonWriter::new(vec![], None, vec![]);
    let msg = DecodedMessage {
        timestamp: Duration::from_micros(1_783_600_000_123_456),
        ..sample_message()
    };
    let mut out = Vec::new();
    writer.write_tls_record(&mut out, &msg);
    let text = String::from_utf8(out).unwrap();
    assert!(
        text.starts_with(r#"{"kind":"tls_record","tstamp":1783600000123456"#),
        "sub-millisecond precision must survive, unlike -T ek's millis: {text}"
    );
}

#[test]
fn ndjson_nested_subtree_strips_enclosing_prefix_and_stays_type_aware() {
    let mut field_tree = FrameFields::default();
    field_tree
        .entries
        .push(("myproto.field.number".to_string(), FieldValue::UInt(2)));
    field_tree.entries.push((
        "myproto.field.name".to_string(),
        FieldValue::Str("echoField".to_string()),
    ));
    field_tree.entries.push((
        "myproto.field.value".to_string(),
        FieldValue::Str("1783648538342".to_string()),
    ));

    let mut message_tree = FrameFields::default();
    message_tree.entries.push((
        "myproto.type_name".to_string(),
        FieldValue::Str("HEARTBEAT_REQUEST".to_string()),
    ));
    message_tree.entries.push((
        "myproto.sequence_id".to_string(),
        FieldValue::UInt(40977388),
    ));
    message_tree.entries.push((
        "myproto.field".to_string(),
        FieldValue::Tree(field_tree),
    ));

    let mut fields = FrameFields::default();
    fields.entries.push((
        "myproto".to_string(),
        FieldValue::Tree(message_tree),
    ));

    let msg = DecodedMessage {
        src_ip: IpAddr::v4(10, 0, 0, 1),
        dst_ip: IpAddr::v4(10, 0, 0, 2),
        src_port: 51234,
        dst_port: 9410,
        tls_app_data: Vec::new(),
        fields,
        timestamp: Duration::zero(),
    };

    let writer = NdjsonWriter::new(vec!["myproto".into()], None, vec![]);
    let mut out = Vec::new();
    writer.write_tls_record(&mut out, &msg);
    let text = String::from_utf8(out).unwrap();
    assert!(text.contains(
        r#""myproto":[{"type_name":"HEARTBEAT_REQUEST","sequence_id":40977388,"field":[{"number":2,"name":"echoField","value":"1783648538342"}]}]"#
    ));
}

#[test]
fn ndjson_leaf_field_occurring_twice_stays_an_array() {
    let mut message_tree = FrameFields::default();
    message_tree
        .entries
        .push(("myproto.type_id".to_string(), FieldValue::UInt(1)));
    message_tree
        .entries
        .push(("myproto.type_id".to_string(), FieldValue::UInt(2)));

    let mut fields = FrameFields::default();
    fields.entries.push((
        "myproto".to_string(),
        FieldValue::Tree(message_tree),
    ));

    let msg = DecodedMessage {
        src_ip: IpAddr::v4(10, 0, 0, 1),
        dst_ip: IpAddr::v4(10, 0, 0, 2),
        src_port: 51234,
        dst_port: 9410,
        tls_app_data: Vec::new(),
        fields,
        timestamp: Duration::zero(),
    };

    let writer = NdjsonWriter::new(vec!["myproto".into()], None, vec![]);
    let mut out = Vec::new();
    writer.write_tls_record(&mut out, &msg);
    let text = String::from_utf8(out).unwrap();
    assert!(text.contains(r#""myproto":[{"type_id":[1,2]}]"#));
}

#[test]
fn ndjson_packet_event_has_kind_packet_canonical_flags_and_no_tls_or_app_data() {
    let writer = NdjsonWriter::new(
        vec![
            "ip.src".into(),
            "ip.dst".into(),
            "tcp.srcport".into(),
            "tcp.dstport".into(),
        ],
        None,
        vec![],
    );
    let evt = PacketEvent {
        src_ip: IpAddr::v4(10, 0, 0, 1),
        dst_ip: IpAddr::v4(10, 0, 0, 2),
        src_port: 51234,
        dst_port: 9410,
        seq: 1001,
        ack: 5001,
        flags: vec!["ack", "psh"],
        payload_len: 128,
        timestamp: Duration::from_millis(999),
    };
    let mut out = Vec::new();
    writer.write_packet_event(&mut out, &evt);
    let text = String::from_utf8(out).unwrap();
    assert_eq!(text.lines().count(), 1);
    assert!(text.starts_with(r#"{"kind":"packet","tstamp":999000"#));
    assert!(text.contains(
        r#""tcp":{"srcport":51234,"dstport":9410,"seq":1001,"ack":5001,"flags":["ack","psh"],"payload_len":128}"#
    ));
    assert!(
        !text.contains("\"tls\""),
        "a packet event never has tls/myproto data"
    );
    assert!(!text.contains("\"myproto\""));
}

fn myproto_message_tree(sequence_id: u64) -> FieldValue {
    let mut message_tree = FrameFields::default();
    message_tree.entries.push((
        "myproto.type_name".to_string(),
        FieldValue::Str("HEARTBEAT_REQUEST".to_string()),
    ));
    message_tree.entries.push((
        "myproto.sequence_id".to_string(),
        FieldValue::UInt(sequence_id),
    ));
    FieldValue::Tree(message_tree)
}

#[test]
fn ndjson_explode_splits_repeated_top_level_group_into_multiple_lines() {
    let mut fields = FrameFields::default();
    fields
        .entries
        .push(("myproto".to_string(), myproto_message_tree(1)));
    fields
        .entries
        .push(("myproto".to_string(), myproto_message_tree(2)));

    let msg = DecodedMessage {
        src_ip: IpAddr::v4(10, 0, 0, 1),
        dst_ip: IpAddr::v4(10, 0, 0, 2),
        src_port: 51234,
        dst_port: 9410,
        tls_app_data: vec![0xAA],
        fields,
        timestamp: Duration::zero(),
    };

    let writer = NdjsonWriter::new(
        vec!["ip.src".into(), "tls.app_data".into(), "myproto".into()],
        Some("myproto".to_string()),
        vec![],
    );
    let mut out = Vec::new();
    writer.write_tls_record(&mut out, &msg);
    let text = String::from_utf8(out).unwrap();
    let lines: Vec<&str> = text.lines().collect();
    assert_eq!(lines.len(), 2, "one line per exploded occurrence: {text}");
    assert!(
        lines[0].contains(r#""myproto":{"type_name":"HEARTBEAT_REQUEST","sequence_id":1}"#)
    );
    assert!(
        lines[1].contains(r#""myproto":{"type_name":"HEARTBEAT_REQUEST","sequence_id":2}"#)
    );
    for line in &lines {
        assert!(line.contains(r#""ip":{"src":"10.0.0.1""#));
        assert!(line.contains(r#""tls":{"app_data":"aa"}"#));
    }
}

#[test]
fn ndjson_explode_with_zero_occurrences_emits_one_line_without_the_field() {
    let msg = DecodedMessage {
        src_ip: IpAddr::v4(10, 0, 0, 1),
        dst_ip: IpAddr::v4(10, 0, 0, 2),
        src_port: 51234,
        dst_port: 9410,
        tls_app_data: vec![0xAA],
        fields: FrameFields::default(),
        timestamp: Duration::zero(),
    };

    let writer = NdjsonWriter::new(
        vec!["tls.app_data".into(), "myproto".into()],
        Some("myproto".to_string()),
        vec![],
    );
    let mut out = Vec::new();
    writer.write_tls_record(&mut out, &msg);
    let text = String::from_utf8(out).unwrap();
    assert_eq!(text.lines().count(), 1);
    assert!(text.contains(r#""tls":{"app_data":"aa"}"#));
    assert!(!text.contains("\"myproto\""));
}

#[test]
fn ndjson_map_collapses_name_value_pairs_into_a_json_map() {
    let mut field1 = FrameFields::default();
    field1
        .entries
        .push(("field.number".to_string(), FieldValue::UInt(1)));
    field1.entries.push((
        "field.name".to_string(),
        FieldValue::Str("timestamp".to_string()),
    ));
    field1.entries.push((
        "field.value".to_string(),
        FieldValue::Str("123".to_string()),
    ));

    let mut field2 = FrameFields::default();
    field2
        .entries
        .push(("field.number".to_string(), FieldValue::UInt(2)));
    field2.entries.push((
        "field.name".to_string(),
        FieldValue::Str("echoField".to_string()),
    ));
    field2.entries.push((
        "field.value".to_string(),
        FieldValue::Str("abc".to_string()),
    ));

    let mut fields = FrameFields::default();
    fields.entries.push((
        "field".to_string(),
        FieldValue::Tree(field1),
    ));
    fields.entries.push((
        "field".to_string(),
        FieldValue::Tree(field2),
    ));

    let msg = DecodedMessage {
        src_ip: IpAddr::v4(10, 0, 0, 1),
        dst_ip: IpAddr::v4(10, 0, 0, 2),
        src_port: 51234,
        dst_port: 9410,
        tls_app_data: Vec::new(),
        fields,
        timestamp: Duration::zero(),
    };

    let writer = NdjsonWriter::new(vec!["field".into()], None, vec!["field".to_string()]);
    let mut out = Vec::new();
    writer.write_tls_record(&mut out, &msg);
    let text = String::from_utf8(out).unwrap();
    assert!(text.contains(r#""field":{"timestamp":"123","echoField":"abc"}"#));
}

#[test]
fn ndjson_map_skips_entries_missing_name() {
    let mut named = FrameFields::default();
    named.entries.push((
        "field.name".to_string(),
        FieldValue::Str("echoField".to_string()),
    ));
    named.entries.push((
        "field.value".to_string(),
        FieldValue::Str("abc".to_string()),
    ));

    let mut nameless = FrameFields::default();
    nameless
        .entries
        .push(("field.number".to_string(), FieldValue::UInt(66)));
    nameless.entries.push((
        "field.value".to_string(),
        FieldValue::Str("unrecognized".to_string()),
    ));

    let mut fields = FrameFields::default();
    fields.entries.push((
        "field".to_string(),
        FieldValue::Tree(named),
    ));
    fields.entries.push((
        "field".to_string(),
        FieldValue::Tree(nameless),
    ));

    let msg = DecodedMessage {
        src_ip: IpAddr::v4(10, 0, 0, 1),
        dst_ip: IpAddr::v4(10, 0, 0, 2),
        src_port: 51234,
        dst_port: 9410,
        tls_app_data: Vec::new(),
        fields,
        timestamp: Duration::zero(),
    };

    let writer = NdjsonWriter::new(vec!["field".into()], None, vec!["field".to_string()]);
    let mut out = Vec::new();
    writer.write_tls_record(&mut out, &msg);
    let text = String::from_utf8(out).unwrap();
    assert!(text.contains(r#""field":{"echoField":"abc"}"#));
    assert!(!text.contains("unrecognized"));
    assert!(!text.contains("null"));
}

fn map_of(occurrences: Vec<Vec<(&str, FieldValue)>>) -> String {
    let mut fields = FrameFields::default();
    for occurrence in occurrences {
        let mut level = FrameFields::default();
        for (name, value) in occurrence {
            level.entries.push((format!("field.{name}"), value));
        }
        fields
            .entries
            .push(("field".to_string(), FieldValue::Tree(level)));
    }
    let mut msg = sample_message();
    msg.fields = fields;
    let writer = NdjsonWriter::new(vec!["field".into()], None, vec!["field".to_string()]);
    let mut out = Vec::new();
    writer.write_tls_record(&mut out, &msg);
    let text = String::from_utf8(out).unwrap();
    let at = text.find("\"field\":").unwrap();
    text[at + 8..].trim_end().trim_end_matches('}').to_string()
}

#[test]
fn a_map_takes_values_of_any_kind() {
    let named = |name: &str| ("name", FieldValue::Str(name.to_string()));
    assert_eq!(
        map_of(vec![
            vec![named("n"), ("value", FieldValue::UInt(5))],
            vec![("value", FieldValue::Bytes(vec![0xab, 1])), named("b")],
            vec![named("s"), ("value", FieldValue::Str("t".to_string()))],
        ]),
        r#"{"n":5,"b":"ab01","s":"t""#
    );
    // The last leaf counts, of whatever kind; a subtree is none.
    assert_eq!(
        map_of(vec![vec![
            named("n"),
            ("value", FieldValue::Str("old".to_string())),
            ("value", FieldValue::UInt(6)),
            ("value", FieldValue::Tree(FrameFields::default())),
        ]]),
        r#"{"n":6"#
    );
    // Nothing to set, or nothing to set it under.
    assert_eq!(map_of(vec![vec![named("alone")]]), "{");
    assert_eq!(map_of(vec![vec![("value", FieldValue::UInt(1))]]), "{");
}

#[test]
fn a_name_nobody_knows_is_told_from_a_field_that_did_not_occur() {
    let msg = sample_message();
    let w = EkWriter::new(vec![], "packets".into());
    assert_eq!(w.values_for("no.such.field", &msg), None);
    assert_eq!(
        w.values_for("ip.src", &msg),
        Some(vec!["10.0.0.1".to_string()])
    );
    assert_eq!(
        w.values_for("example.field.kv", &msg),
        Some(vec![
            "timestamp=123".to_string(),
            "echoField=abc".to_string()
        ])
    );

    let w = EkWriter::with_known_fields(
        vec![],
        "packets".into(),
        vec!["example.rare".to_string()],
    );
    assert_eq!(w.values_for("example.rare", &msg), Some(vec![]));
    assert_eq!(w.values_for("no.such.field", &msg), None);
}
