use tlscap::lua::tree::{AddArg, AddError, FieldDef, FieldKind, FieldValue, TreeItem, UInt64};
use tlscap::lua::tvb::{Tvb, TvbError};
use tlscap::lua::{consumed_bytes, DissectorReturn, FrameFields};

fn field(name: &str, kind: FieldKind) -> AddArg {
    AddArg::Field(FieldDef {
        name: name.to_string(),
        kind,
    })
}

fn range(tvb: &Tvb, offset: i64, length: i64) -> AddArg {
    AddArg::Range(tvb.slice(offset, Some(length)).unwrap())
}

#[test]
fn dissects_and_records_fields_in_order() {
    let plaintext = vec![7u8, b'A', b'B', b'C', b'D', 0x02, 0x01];
    let tvb = Tvb::new(plaintext);
    let mut result = FrameFields::default();
    let tree = TreeItem::new();
    let subtree = tree
        .add(
            &mut result,
            &[
                AddArg::Proto("fixture".to_string()),
                AddArg::Range(tvb.slice(0, None).unwrap()),
                AddArg::Text("Fixture Message".to_string()),
            ],
            false,
        )
        .unwrap();
    subtree
        .add(
            &mut result,
            &[field("fixture.kind", FieldKind::UInt), range(&tvb, 0, 1)],
            false,
        )
        .unwrap();
    subtree
        .add(
            &mut result,
            &[
                field("fixture.name", FieldKind::Str),
                AddArg::Text("ABCD".to_string()),
            ],
            false,
        )
        .unwrap();
    subtree
        .add(
            &mut result,
            &[field("fixture.marker", FieldKind::UInt), range(&tvb, 5, 2)],
            true,
        )
        .unwrap();
    result.protocol = Some("FIXTURE".to_string());
    result.info = Some("hello".to_string());
    let consumed = consumed_bytes(DissectorReturn::Integer(tvb.len() as i64), tvb.len());

    assert_eq!(result.entries.len(), 1);
    assert_eq!(result.entries[0].0, "fixture");
    assert!(matches!(result.entries[0].1, FieldValue::Tree(_)));
    assert_eq!(result.values_for("fixture.kind"), vec![FieldValue::UInt(7)]);
    assert_eq!(
        result.values_for("fixture.name"),
        vec![FieldValue::Str("ABCD".to_string())]
    );
    assert_eq!(
        result.values_for("fixture.marker"),
        vec![FieldValue::UInt(0x0102)]
    );
    assert_eq!(result.protocol.as_deref(), Some("FIXTURE"));
    assert_eq!(result.info.as_deref(), Some("hello"));
    assert_eq!(
        consumed, 7,
        "dissector's returned byte count should be reported back"
    );
}

#[test]
fn partial_consumption_is_reported_for_cross_record_tail_buffering() {
    let plaintext = vec![1u8, 2, 3, 4, 5];
    let consumed = consumed_bytes(DissectorReturn::Integer(3), plaintext.len());
    assert_eq!(consumed, 3);
}

#[test]
fn tvbrange_supports_further_sub_slicing() {
    let plaintext = vec![0xAA, 0xBB, 10, 20, 30, 40, 0xCC];
    let tvb = Tvb::new(plaintext);
    let body = tvb.slice(2, Some(4)).unwrap();
    let nested_range = body.slice(1, Some(1)).unwrap();
    let mut result = FrameFields::default();
    TreeItem::new()
        .add(
            &mut result,
            &[
                field("nested.val", FieldKind::UInt),
                AddArg::Range(nested_range),
            ],
            false,
        )
        .unwrap();
    assert_eq!(
        result.entries,
        vec![("nested.val".to_string(), FieldValue::UInt(20))]
    );
}

#[test]
fn subtree_creation_genuinely_nests() {
    let tvb = Tvb::new(vec![10, 20]);
    let mut result = FrameFields::default();
    let tree = TreeItem::new();
    tree.add(
        &mut result,
        &[field("outer.a", FieldKind::UInt), range(&tvb, 0, 1)],
        false,
    )
    .unwrap();
    let sub = tree
        .add(
            &mut result,
            &[
                AddArg::Proto("outer".to_string()),
                range(&tvb, 1, 1),
                AddArg::Text("Outer Subtree".to_string()),
            ],
            false,
        )
        .unwrap();
    sub.add(
        &mut result,
        &[field("outer.b", FieldKind::UInt), range(&tvb, 1, 1)],
        false,
    )
    .unwrap();

    assert_eq!(result.entries.len(), 2);
    assert_eq!(
        result.entries[0],
        ("outer.a".to_string(), FieldValue::UInt(10))
    );
    assert_eq!(result.entries[1].0, "outer");
    let FieldValue::Tree(child) = &result.entries[1].1 else {
        panic!("expected a nested Tree entry");
    };
    assert_eq!(
        child.entries,
        vec![("outer.b".to_string(), FieldValue::UInt(20))]
    );

    assert_eq!(result.values_for("outer.a"), vec![FieldValue::UInt(10)]);
    assert_eq!(result.values_for("outer.b"), vec![FieldValue::UInt(20)]);
}

#[test]
fn repeated_subtree_creation_produces_multiple_tree_entries() {
    let tvb = Tvb::new(vec![10, 20, 30]);
    let mut result = FrameFields::default();
    let tree = TreeItem::new();
    for offset in 0..tvb.len() as i64 {
        let sub = tree
            .add(
                &mut result,
                &[
                    AddArg::Proto("msg".to_string()),
                    range(&tvb, offset, 1),
                    AddArg::Text("Message".to_string()),
                ],
                false,
            )
            .unwrap();
        sub.add(
            &mut result,
            &[field("msg.val", FieldKind::UInt), range(&tvb, offset, 1)],
            false,
        )
        .unwrap();
    }

    assert_eq!(result.entries.len(), 3, "one Tree entry per loop iteration");
    for (name, value) in &result.entries {
        assert_eq!(name, "msg");
        assert!(matches!(value, FieldValue::Tree(_)));
    }
    assert_eq!(
        result.values_for("msg.val"),
        vec![
            FieldValue::UInt(10),
            FieldValue::UInt(20),
            FieldValue::UInt(30)
        ]
    );
}

#[test]
fn a_handle_stays_good_while_its_siblings_grow() {
    let mut fields = FrameFields::default();
    let tree = TreeItem::new();
    let first = tree
        .add(&mut fields, &[AddArg::Proto("a".to_string())], false)
        .unwrap();
    let second = first
        .add(&mut fields, &[AddArg::Proto("b".to_string())], false)
        .unwrap();
    tree.add(
        &mut fields,
        &[field("top", FieldKind::UInt), AddArg::Integer(1)],
        false,
    )
    .unwrap();
    second
        .add(
            &mut fields,
            &[field("deep", FieldKind::UInt), AddArg::Integer(2)],
            false,
        )
        .unwrap();
    second.add_expert_info(&mut fields, Some("odd length".to_string()));
    tree.add_expert_info(&mut fields, None);

    assert_eq!(fields.values_for("deep"), vec![FieldValue::UInt(2)]);
    assert_eq!(fields.malformed, vec![String::new()]);
    let FieldValue::Tree(a) = &fields.entries[0].1 else {
        panic!("the first entry is a subtree");
    };
    let FieldValue::Tree(b) = &a.entries[0].1 else {
        panic!("its first entry is a subtree");
    };
    assert_eq!(b.malformed, vec!["odd length".to_string()]);
}

fn recorded(args: Vec<AddArg>, kind: FieldKind, little_endian: bool) -> FieldValue {
    let mut fields = FrameFields::default();
    let mut all = vec![field("f", kind)];
    all.extend(args);
    TreeItem::new()
        .add(&mut fields, &all, little_endian)
        .unwrap();
    fields.entries.pop().unwrap().1
}

#[test]
fn a_field_takes_its_value_from_the_arguments_by_their_shape() {
    let tvb = Tvb::new(vec![0x01, 0x02, 0xff, b'h', b'i']);
    assert_eq!(
        recorded(vec![range(&tvb, 0, 2)], FieldKind::UInt, false),
        FieldValue::UInt(0x0102)
    );
    assert_eq!(
        recorded(vec![range(&tvb, 0, 2)], FieldKind::UInt, true),
        FieldValue::UInt(0x0201)
    );
    assert_eq!(
        recorded(vec![range(&tvb, 3, 2)], FieldKind::Str, false),
        FieldValue::Str("hi".to_string())
    );
    assert_eq!(
        recorded(vec![range(&tvb, 2, 1)], FieldKind::Str, false),
        FieldValue::Str("\u{fffd}".to_string())
    );
    assert_eq!(
        recorded(vec![range(&tvb, 0, 2)], FieldKind::Bytes, false),
        FieldValue::Bytes(vec![1, 2])
    );
    assert_eq!(
        recorded(
            vec![range(&tvb, 0, 2), AddArg::Integer(9)],
            FieldKind::UInt,
            false
        ),
        FieldValue::UInt(9)
    );
    assert_eq!(
        recorded(
            vec![range(&tvb, 0, 2), AddArg::Other],
            FieldKind::UInt,
            true
        ),
        FieldValue::UInt(0x0102)
    );
    assert_eq!(
        recorded(vec![AddArg::Integer(-1)], FieldKind::UInt, false),
        FieldValue::UInt(u64::MAX)
    );
    assert_eq!(
        recorded(vec![AddArg::UInt64(UInt64(77))], FieldKind::UInt, false),
        FieldValue::UInt(77)
    );
    assert_eq!(
        recorded(vec![AddArg::Number(5)], FieldKind::UInt, false),
        FieldValue::UInt(5)
    );
    assert_eq!(
        recorded(
            vec![
                range(&tvb, 0, 1),
                AddArg::Other,
                AddArg::Text("last".to_string())
            ],
            FieldKind::Str,
            false
        ),
        FieldValue::Str("last".to_string())
    );
    assert_eq!(
        recorded(vec![], FieldKind::UInt, false),
        FieldValue::UInt(0)
    );
    assert_eq!(
        recorded(vec![range(&tvb, 0, 0)], FieldKind::UInt, false),
        FieldValue::UInt(0)
    );
}

#[test]
fn add_without_arguments_fails_and_other_shapes_change_nothing() {
    let mut fields = FrameFields::default();
    let tree = TreeItem::new();
    let refused = tree.add(&mut fields, &[], false);
    assert!(matches!(refused, Err(AddError::MissingArgument)));
    assert_eq!(
        AddError::MissingArgument.message(),
        "TreeItem:add: missing field/proto argument"
    );
    tree.add(&mut fields, &[AddArg::OtherUserData], false)
        .unwrap();
    assert!(fields.entries.is_empty());
}

#[test]
fn ranges_out_of_bounds_are_refused() {
    let tvb = Tvb::new(vec![1, 2, 3]);
    let err = tvb.slice(1, Some(3)).err().unwrap();
    assert_eq!(
        err,
        TvbError::OutOfBounds {
            offset: 1,
            length: 3,
            available: 3
        }
    );
    assert_eq!(
        err.message(),
        "Tvb/TvbRange: range 1..4 out of bounds (len 3)"
    );
    assert!(tvb.slice(-1, Some(1)).is_err());
    assert!(tvb.slice(0, Some(-1)).is_err());
    assert!(tvb.slice(4, None).is_err());
    assert_eq!(tvb.slice(3, None).unwrap().len(), 0);
    assert_eq!(tvb.slice(1, None).unwrap().bytes(), &[2, 3]);
}

#[test]
fn integers_of_one_to_eight_bytes_are_read_in_both_orders() {
    let tvb = Tvb::new(vec![1, 2, 3, 4, 5, 6, 7, 8, 9]);
    let eight = tvb.slice(0, Some(8)).unwrap();
    assert_eq!(eight.uint_be(), Ok(0x0102_0304_0506_0708));
    assert_eq!(eight.uint_le(), Ok(0x0807_0605_0403_0201));
    let nine = tvb.slice(0, None).unwrap();
    assert_eq!(nine.uint_be(), Err(TvbError::NotAnInteger { len: 9 }));
    assert_eq!(
        TvbError::NotAnInteger { len: 9 }.message(),
        "TvbRange: cannot parse 9-byte range as an integer"
    );
    assert!(tvb.slice(0, Some(0)).unwrap().uint_le().is_err());
}

#[test]
fn a_dissector_cannot_consume_more_than_it_was_handed() {
    assert_eq!(consumed_bytes(DissectorReturn::Integer(9), 5), 5);
    assert_eq!(consumed_bytes(DissectorReturn::Integer(-1), 5), 5);
    assert_eq!(consumed_bytes(DissectorReturn::NonNegativeNumber(2), 5), 2);
    assert_eq!(consumed_bytes(DissectorReturn::Other, 5), 5);
    assert_eq!(consumed_bytes(DissectorReturn::Integer(0), 5), 0);
}

#[test]
fn values_have_a_text_form() {
    assert_eq!(FieldValue::UInt(42).to_output_string(), "42");
    assert_eq!(FieldValue::Str("x".to_string()).to_output_string(), "x");
    assert_eq!(
        FieldValue::Bytes(vec![0x0f, 0xa0]).to_output_string(),
        "0fa0"
    );
    assert_eq!(
        FieldValue::Tree(FrameFields::default()).to_output_string(),
        ""
    );
}
