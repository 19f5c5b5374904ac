use std::rc::Rc;

use tlscap::ek_output::civil_from_days;
use tlscap::lua::dissector_table::{find_table, Registry};
use tlscap::lua::pinfo::Cols;
use tlscap::lua::tree::{AddArg, AddError, FieldDef, FieldKind, FieldValue, TreeItem, UInt64};
use tlscap::lua::tvb::{Tvb, TvbError};
use tlscap::lua::{consumed_bytes, DissectorReturn, FrameFields};
use tlscap::pcap_input::{detect_format, OpenError, ParseError};

fn field(name: &str, kind: FieldKind) -> AddArg {
    AddArg::Field(FieldDef {
        name: name.to_string(),
        kind,
    })
}

fn added(args: Vec<AddArg>, little_endian: bool) -> FieldValue {
    let mut fields = FrameFields::default();
    TreeItem::new()
        .add(&mut fields, &args, little_endian)
        .unwrap();
    assert_eq!(fields.entries.len(), 1);
    fields.entries[0].1.duplicate()
}

fn range(bytes: &[u8]) -> AddArg {
    AddArg::Range(Tvb::new(bytes.to_vec()).slice(0, None).unwrap())
}

#[test]
fn a_value_comes_from_the_range_or_from_what_is_given() {
    let uint = || field("f", FieldKind::UInt);
    assert_eq!(added(vec![uint()], false), FieldValue::UInt(0));
    assert_eq!(
        added(vec![uint(), range(&[1, 2])], false),
        FieldValue::UInt(0x0102)
    );
    assert_eq!(
        added(vec![uint(), range(&[1, 2])], true),
        FieldValue::UInt(0x0201)
    );
    assert_eq!(
        added(vec![uint(), range(&[0; 9])], false),
        FieldValue::UInt(0)
    );
    assert_eq!(
        added(vec![uint(), range(&[1, 2]), AddArg::Integer(-1)], false),
        FieldValue::UInt(u64::MAX)
    );
    assert_eq!(
        added(vec![uint(), range(&[1, 2]), AddArg::Other], true),
        FieldValue::UInt(0x0102)
    );
    assert_eq!(
        added(vec![uint(), AddArg::Text("t".to_string())], false),
        FieldValue::Str("t".to_string())
    );
    assert_eq!(
        added(vec![uint(), AddArg::Number(7), AddArg::UInt64(UInt64(8))], false),
        FieldValue::UInt(8)
    );
    assert_eq!(
        added(vec![field("s", FieldKind::Str), range(b"a\xff")], true),
        FieldValue::Str("a\u{fffd}".to_string())
    );
    assert_eq!(
        added(vec![field("b", FieldKind::Bytes), range(b"ab")], false),
        FieldValue::Bytes(b"ab".to_vec())
    );
}

#[test]
fn adding_nothing_is_an_error_and_adding_anything_else_changes_nothing() {
    let mut fields = FrameFields::default();
    let item = TreeItem::new();
    assert_eq!(
        item.add(&mut fields, &[], false).err(),
        Some(AddError::MissingArgument)
    );
    assert_eq!(
        AddError::MissingArgument.message(),
        "TreeItem:add: missing field/proto argument"
    );
    let same = item.add(&mut fields, &[AddArg::Integer(1)], false).unwrap();
    assert!(same.path.is_empty());
    assert_eq!(fields, FrameFields::default());
}

#[test]
fn complaints_are_noted_where_the_handle_stands() {
    let mut fields = FrameFields::default();
    let top = TreeItem::new();
    let inner = top
        .add(&mut fields, &[AddArg::Proto("p".to_string())], false)
        .unwrap();
    inner.add_expert_info(&mut fields, Some("bad".to_string()));
    top.add_expert_info(&mut fields, None);
    assert_eq!(fields.malformed, vec![String::new()]);
    match &fields.entries[0].1 {
        FieldValue::Tree(child) => assert_eq!(child.malformed, vec!["bad".to_string()]),
        _ => panic!("a subtree was opened"),
    }
}

#[test]
fn slices_out_of_bounds_say_so() {
    let tvb = Tvb {
        data: Rc::new(vec![1, 2, 3, 4]),
    };
    let text = |offset, length| tvb.slice(offset, length).err().unwrap().message();
    assert_eq!(
        text(2, Some(3)),
        "Tvb/TvbRange: range 2..5 out of bounds (len 4)"
    );
    assert_eq!(
        text(9, None),
        "Tvb/TvbRange: range 9..9 out of bounds (len 4)"
    );
    assert_eq!(
        text(-1, None),
        "Tvb/TvbRange: range 18446744073709551615..18446744073709551615 out of bounds (len 4)"
    );
    assert_eq!(
        text(0, Some(-1)),
        "Tvb/TvbRange: range 0..18446744073709551615 out of bounds (len 4)"
    );
    assert!(tvb.slice(-1, Some(1)).is_err());
    assert_eq!(tvb.slice(4, None).unwrap().len(), 0);
    let window = tvb.slice(1, Some(2)).unwrap();
    assert_eq!(window.slice(1, None).unwrap().bytes(), &[3]);
    assert_eq!(
        window.slice(1, Some(2)).err(),
        Some(TvbError::OutOfBounds {
            offset: 1,
            length: 2,
            available: 2
        })
    );
    assert_eq!(
        tvb.slice(0, Some(0)).unwrap().uint_be().unwrap_err().message(),
        "TvbRange: cannot parse 0-byte range as an integer"
    );
}

#[test]
fn a_dissector_without_a_claim_has_consumed_everything() {
    assert_eq!(consumed_bytes(DissectorReturn::Integer(3), 10), 3);
    assert_eq!(consumed_bytes(DissectorReturn::Integer(0), 10), 0);
    assert_eq!(consumed_bytes(DissectorReturn::Integer(11), 10), 10);
    assert_eq!(consumed_bytes(DissectorReturn::Integer(-1), 10), 10);
    assert_eq!(consumed_bytes(DissectorReturn::NonNegativeNumber(4), 10), 4);
    assert_eq!(
        consumed_bytes(DissectorReturn::NonNegativeNumber(u64::MAX), 10),
        10
    );
    assert_eq!(consumed_bytes(DissectorReturn::Other, 10), 10);
}

#[test]
fn only_the_tls_table_can_be_had() {
    assert_eq!(find_table("tls.port"), Ok(()));
    assert_eq!(find_table("ssl.port"), Ok(()));
    assert_eq!(
        find_table("tcp.port"),
        Err("DissectorTable.get: unsupported table \"tcp.port\" (tlscap only supports tls.port/ssl.port in v1)".to_string())
    );
}

#[test]
fn capture_errors_say_what_is_wrong() {
    assert_eq!(
        detect_format(&[0x0a, 0x0d, 0x0d]).unwrap_err().message(),
        "could not read enough bytes to detect the capture format"
    );
    assert_eq!(
        detect_format(b"GIF8").unwrap_err().message(),
        "unrecognized capture format (not classic pcap or pcapng magic)"
    );
    assert_eq!(
        OpenError::Pcap("bad block".to_string()).message(),
        "pcap/pcapng parse error: bad block"
    );
    assert!(ParseError::NotTcp.message().starts_with("not a TCP/IP frame"));
}

#[test]
fn dates_reach_as_far_as_days_can_be_counted() {
    assert_eq!(civil_from_days(-1), (1969, 12, 31));
    assert_eq!(civil_from_days(-719468), (0, 3, 1));
    assert_eq!(civil_from_days(11016), (2000, 2, 29));
    assert_eq!(civil_from_days(47540), (2100, 2, 28));
    assert_eq!(civil_from_days(47541), (2100, 3, 1));
    let (year, _, _) = civil_from_days(i64::MIN);
    assert!(year < -25_000_000_000_000_000);
}

#[test]
fn a_later_dissector_takes_the_port_over_and_leaves_others_alone() {
    let mut registry = Registry::new();
    assert!(!registry.has_dissector_for_port(4242));
    assert!(registry.get(4242).is_none());
    registry.add(4242, "first");
    registry.add(5555, "other");
    registry.add(4242, "second");
    assert_eq!(registry.get(4242), Some(&"second"));
    assert_eq!(registry.get(5555), Some(&"other"));
    assert!(registry.has_dissector_for_port(5555));
    assert!(!registry.has_dissector_for_port(9999));
}

#[test]
fn columns_show_what_was_set_last() {
    let mut fields = FrameFields::default();
    assert_eq!(Cols.protocol(&fields), "");
    assert_eq!(Cols.info(&fields), "");
    Cols.set_protocol(&mut fields, "A".to_string());
    Cols.set_protocol(&mut fields, "B".to_string());
    Cols.set_info(&mut fields, "i".to_string());
    assert_eq!(Cols.protocol(&fields), "B");
    assert_eq!(fields.info.as_deref(), Some("i"));
    assert!(fields.entries.is_empty());
}

type Dissector = fn(Vec<u8>) -> FrameFields;

fn fixture(bytes: Vec<u8>) -> FrameFields {
    let tvb = Tvb::new(bytes);
    let mut fields = FrameFields::default();
    let range = AddArg::Range(tvb.slice(0, Some(1)).unwrap());
    TreeItem::new()
        .add(&mut fields, &[field("fixture.kind", FieldKind::UInt), range], false)
        .unwrap();
    fields
}

fn fixture2(bytes: Vec<u8>) -> FrameFields {
    let text = String::from_utf8(bytes).unwrap();
    let mut fields = FrameFields::default();
    TreeItem::new()
        .add(
            &mut fields,
            &[field("fixture2.msg", FieldKind::Str), AddArg::Text(text)],
            false,
        )
        .unwrap();
    fields
}

#[test]
fn loads_plugin_and_registers_port() {
    let mut registry: Registry<Dissector> = Registry::new();
    registry.add(4242, fixture);
    assert!(registry.has_dissector_for_port(4242));
    assert!(!registry.has_dissector_for_port(9999));
}

#[test]
fn unregistered_port_returns_none() {
    let mut registry: Registry<Dissector> = Registry::new();
    registry.add(4242, fixture);
    assert!(registry.get(9999).is_none());
}

#[test]
fn two_plugins_on_different_ports_coexist() {
    let mut registry: Registry<Dissector> = Registry::new();
    registry.add(4242, fixture);
    assert_eq!(find_table("tls.port"), Ok(()));
    registry.add(5555, fixture2);

    assert!(registry.has_dissector_for_port(4242));
    assert!(registry.has_dissector_for_port(5555));

    let r1 = registry.get(4242).unwrap()(vec![1, b'W', b'X', b'Y', b'Z', 0, 0]);
    assert_eq!(r1.values_for("fixture.kind"), vec![FieldValue::UInt(1)]);

    let r2 = registry.get(5555).unwrap()(b"hi".to_vec());
    assert_eq!(
        r2.entries,
        vec![(
            "fixture2.msg".to_string(),
            FieldValue::Str("hi".to_string())
        )]
    );
}
