use rasterix::error::CodegenError;
use rasterix::ir::{IRElement, IRLayout, IRSubItem, StringKind};
use rasterix::transformer::{to_ir, to_ir_item_structure};
use rasterix::xml_model::{
    Category, CompoundItem, CompoundableItem, Element, Enum, ExtendedItem, Field, Item,
    ItemStructure, PartGroup, RepetitiveItem, SimpleItem, Spare, Value, EPB, EPBContent,
};

#[test]
fn test_validation_fails_on_mismatch() {
    let simple = SimpleItem {
        bytes: 2,
        elements: vec![Element::Field(Field {
            name: "test".into(),
            bits: 8,
            field_type: "numeric".into(),
        })],
    };
    let layout = to_ir_item_structure(ItemStructure::Fixed(simple)).unwrap();
    let result = layout.validate("test");
    assert!(result.is_err());
    assert!(matches!(result.unwrap_err(), CodegenError::BitCountMismatch { .. }));
}

#[test]
fn test_validation_passes_on_match() {
    let simple = SimpleItem {
        bytes: 2,
        elements: vec![
            Element::Field(Field { name: "a".into(), bits: 8, field_type: "numeric".into() }),
            Element::Field(Field { name: "b".into(), bits: 8, field_type: "string".into() }),
        ],
    };
    let layout = to_ir_item_structure(ItemStructure::Fixed(simple)).unwrap();
    assert!(layout.validate("test").is_ok());
}

#[test]
fn test_invalid_field_type_returns_error() {
    let simple = SimpleItem {
        bytes: 1,
        elements: vec![Element::Field(Field {
            name: "bad_field".into(),
            bits: 8,
            field_type: "boolean".into(),
        })],
    };
    let result = to_ir_item_structure(ItemStructure::Fixed(simple));
    assert!(result.is_err());
    assert!(matches!(result.unwrap_err(), CodegenError::InvalidFieldType { .. }));
}

#[test]
fn test_invalid_counter_returns_error() {
    let rep = RepetitiveItem {
        bytes: 1,
        counter: "not_a_number".into(),
        elements: vec![],
    };
    let result = to_ir_item_structure(ItemStructure::Repetitive(rep));
    assert!(result.is_err());
    assert!(matches!(result.unwrap_err(), CodegenError::InvalidCounter { .. }));
}

#[test]
fn test_counter_width_out_of_range_returns_error() {
    // A zero-bit counter can never carry a length, and anything wider than
    // 64 bits would overflow the u64 the generated read/write uses.
    for counter in ["0", "65"] {
        let rep = RepetitiveItem {
            bytes: 1,
            counter: counter.into(),
            elements: vec![],
        };
        let result = to_ir_item_structure(ItemStructure::Repetitive(rep));
        assert!(
            matches!(result, Err(CodegenError::CounterWidthOutOfRange { .. })),
            "counter=\"{counter}\" should have been rejected"
        );
    }
}

#[test]
fn test_invalid_enum_value_returns_error() {
    let simple = SimpleItem {
        bytes: 1,
        elements: vec![Element::Enum(Enum {
            name: "test_enum".into(),
            bits: 8,
            values: vec![Value {
                name: "variant".into(),
                value: "999".into(),
            }],
        })],
    };
    let result = to_ir_item_structure(ItemStructure::Fixed(simple));
    assert!(result.is_err());
    assert!(matches!(result.unwrap_err(), CodegenError::InvalidEnumValue { .. }));
}

// ── Further cases ──────────────────────────────────────────────────────

fn field(name: &str, bits: usize, field_type: &str) -> Element {
    Element::Field(Field { name: name.into(), bits, field_type: field_type.into() })
}

fn fixed_item(id: u16, frn: u8, bytes: usize, elements: Vec<Element>) -> Item {
    Item { id, frn, data: ItemStructure::Fixed(SimpleItem { bytes, elements }) }
}

#[test]
fn to_ir_lowers_a_valid_category() {
    let cat = Category {
        id: 48,
        items: vec![
            fixed_item(10, 1, 2, vec![field("sac", 8, "numeric"), field("sic", 8, "numeric")]),
            fixed_item(240, 2, 6, vec![field("aircraft_id", 48, "string")]),
            Item {
                id: 20,
                frn: 3,
                data: ItemStructure::Fixed(SimpleItem {
                    bytes: 1,
                    elements: vec![
                        Element::EPB(EPB {
                            content: EPBContent::Enum(Enum {
                                name: "typ".into(),
                                bits: 3,
                                values: vec![
                                    Value { name: "a".into(), value: "0".into() },
                                    Value { name: "b".into(), value: "+7".into() },
                                ],
                            }),
                        }),
                        Element::Spare(Spare { bits: 4 }),
                    ],
                }),
            },
        ],
    };
    let ir = to_ir(cat).unwrap();
    assert_eq!(ir.category.id, 48);
    assert_eq!(ir.category.items.len(), 3);
    assert_eq!(ir.category.items[1].id, 240);
    assert_eq!(ir.category.items[1].frn, 2);
    match &ir.category.items[1].layout {
        IRLayout::Fixed { bytes, elements } => {
            assert_eq!(*bytes, 6);
            match &elements[0] {
                IRElement::Field { name, bits, string } => {
                    assert_eq!(name, "aircraft_id");
                    assert_eq!(*bits, 48);
                    assert_eq!(*string, Some(StringKind::Icao));
                }
                other => panic!("unexpected element {other:?}"),
            }
        }
        other => panic!("unexpected layout {other:?}"),
    }
    match &ir.category.items[2].layout {
        IRLayout::Fixed { elements, .. } => match &elements[0] {
            IRElement::EPB { content } => match &**content {
                IRElement::Enum { values, .. } => {
                    assert_eq!(values, &vec![("a".to_string(), 0u8), ("b".to_string(), 7u8)]);
                }
                other => panic!("unexpected element {other:?}"),
            },
            other => panic!("unexpected element {other:?}"),
        },
        other => panic!("unexpected layout {other:?}"),
    }
}

#[test]
fn string_and_numeric_are_the_field_types() {
    let simple = SimpleItem {
        bytes: 2,
        elements: vec![field("b", 8, "string"), field("c", 8, "numeric")],
    };
    match to_ir_item_structure(ItemStructure::Fixed(simple)).unwrap() {
        IRLayout::Fixed { elements, .. } => {
            let kinds: Vec<Option<StringKind>> = elements
                .iter()
                .map(|e| match e {
                    IRElement::Field { string, .. } => *string,
                    _ => panic!("not a field"),
                })
                .collect();
            assert_eq!(kinds, vec![Some(StringKind::Icao), None]);
        }
        other => panic!("unexpected layout {other:?}"),
    }
    for other in ["ascii", "icao", "String", ""] {
        let cat = Category {
            id: 1,
            items: vec![Item {
                id: 10,
                frn: 1,
                data: ItemStructure::Fixed(SimpleItem {
                    bytes: 1,
                    elements: vec![Element::EPB(EPB {
                        content: EPBContent::Field(Field {
                            name: "f".into(),
                            bits: 7,
                            field_type: other.into(),
                        }),
                    })],
                }),
            }],
        };
        match to_ir(cat) {
            Err(CodegenError::InvalidFieldType { field_name, field_type }) => {
                assert_eq!(field_name, "f");
                assert_eq!(field_type, other);
            }
            result => panic!("type {other:?} gave {result:?}"),
        }
    }
}

#[test]
fn duplicate_field_names_are_refused() {
    let cat = Category {
        id: 48,
        items: vec![fixed_item(10, 1, 2, vec![field("a", 8, "numeric"), field("a", 8, "numeric")])],
    };
    match to_ir(cat) {
        Err(CodegenError::DuplicateFieldName { context, name }) => {
            assert_eq!(context, "I010");
            assert_eq!(name, "a");
        }
        other => panic!("unexpected result {other:?}"),
    }
    // An enum and a field share the namespace of their item; spares have no name.
    let simple = SimpleItem {
        bytes: 2,
        elements: vec![
            Element::Spare(Spare { bits: 1 }),
            field("x", 3, "numeric"),
            Element::Spare(Spare { bits: 1 }),
            Element::Enum(Enum { name: "y".into(), bits: 3, values: vec![] }),
            Element::EPB(EPB {
                content: EPBContent::Field(Field { name: "x".into(), bits: 7, field_type: "numeric".into() }),
            }),
        ],
    };
    let layout = to_ir_item_structure(ItemStructure::Fixed(simple)).unwrap();
    match layout.validate("I002") {
        Err(CodegenError::DuplicateFieldName { name, .. }) => assert_eq!(name, "x"),
        other => panic!("unexpected result {other:?}"),
    }
}

#[test]
fn duplicate_names_across_part_groups_are_refused() {
    let ext = ExtendedItem {
        bytes: 2,
        part_groups: vec![
            PartGroup { index: 1, elements: vec![field("a", 7, "numeric")] },
            PartGroup { index: 2, elements: vec![field("b", 3, "numeric"), field("a", 4, "numeric")] },
        ],
    };
    let layout = to_ir_item_structure(ItemStructure::Extended(ext)).unwrap();
    match layout.validate("I020") {
        Err(CodegenError::DuplicateFieldName { context, name }) => {
            assert_eq!(context, "I020");
            assert_eq!(name, "a");
        }
        other => panic!("unexpected result {other:?}"),
    }
}

#[test]
fn bit_counts_are_checked_before_names() {
    let simple = SimpleItem { bytes: 3, elements: vec![field("a", 8, "numeric"), field("a", 8, "numeric")] };
    let layout = to_ir_item_structure(ItemStructure::Fixed(simple)).unwrap();
    assert!(matches!(layout.validate("I001"), Err(CodegenError::BitCountMismatch { .. })));
}

#[test]
fn compound_sub_items_have_their_own_names() {
    let comp = CompoundItem {
        items: vec![
            CompoundableItem::Fixed(SimpleItem { bytes: 1, elements: vec![field("a", 8, "numeric")] }),
            CompoundableItem::Fixed(SimpleItem { bytes: 1, elements: vec![field("a", 8, "numeric")] }),
        ],
    };
    let layout = to_ir_item_structure(ItemStructure::Compound(comp)).unwrap();
    assert!(layout.validate("I100").is_ok());
}

#[test]
fn to_ir_reports_the_first_bad_field() {
    let cat = Category {
        id: 1,
        items: vec![
            fixed_item(10, 1, 1, vec![field("ok", 8, "numeric")]),
            fixed_item(20, 2, 2, vec![field("first", 8, "bool"), field("second", 8, "float")]),
        ],
    };
    match to_ir(cat) {
        Err(CodegenError::InvalidFieldType { field_name, field_type }) => {
            assert_eq!(field_name, "first");
            assert_eq!(field_type, "bool");
        }
        other => panic!("unexpected result {other:?}"),
    }
}

#[test]
fn transform_errors_come_before_layout_faults() {
    let cat = Category {
        id: 1,
        items: vec![
            fixed_item(10, 1, 3, vec![field("short", 8, "numeric")]),
            fixed_item(20, 2, 1, vec![field("bad", 8, "boolean")]),
        ],
    };
    assert!(matches!(to_ir(cat), Err(CodegenError::InvalidFieldType { .. })));
}

#[test]
fn to_ir_reports_bit_count_in_item_context() {
    let cat = Category {
        id: 48,
        items: vec![
            fixed_item(10, 1, 2, vec![field("sac", 8, "numeric"), field("sic", 8, "numeric")]),
            fixed_item(48, 2, 2, vec![field("x", 8, "numeric")]),
        ],
    };
    match to_ir(cat) {
        Err(CodegenError::BitCountMismatch { context, bytes, expected_bits, actual_bits }) => {
            assert_eq!(context, "I048");
            assert_eq!(bytes, 2);
            assert_eq!(expected_bits, 16);
            assert_eq!(actual_bits, 8);
        }
        other => panic!("unexpected result {other:?}"),
    }
}

#[test]
fn item_context_pads_to_three_digits() {
    let cat = Category { id: 1, items: vec![fixed_item(7, 1, 1, vec![])] };
    match to_ir(cat) {
        Err(CodegenError::BitCountMismatch { context, actual_bits, .. }) => {
            assert_eq!(context, "I007");
            assert_eq!(actual_bits, 0);
        }
        other => panic!("unexpected result {other:?}"),
    }
    let cat = Category { id: 1, items: vec![fixed_item(1234, 1, 1, vec![])] };
    match to_ir(cat) {
        Err(CodegenError::BitCountMismatch { context, .. }) => assert_eq!(context, "I1234"),
        other => panic!("unexpected result {other:?}"),
    }
}

#[test]
fn epb_counts_its_presence_bit() {
    let simple = SimpleItem {
        bytes: 1,
        elements: vec![
            Element::EPB(EPB {
                content: EPBContent::Field(Field {
                    name: "v".into(),
                    bits: 7,
                    field_type: "numeric".into(),
                }),
            }),
        ],
    };
    let layout = to_ir_item_structure(ItemStructure::Explicit(simple)).unwrap();
    assert!(layout.validate("I001").is_ok());
}

fn group(index: usize, bits: usize) -> PartGroup {
    PartGroup { index, elements: vec![field(&format!("f{index}"), bits, "numeric")] }
}

#[test]
fn extended_byte_count_must_match_groups() {
    let ext = ExtendedItem { bytes: 3, part_groups: vec![group(1, 7), group(2, 7)] };
    let layout = to_ir_item_structure(ItemStructure::Extended(ext)).unwrap();
    match layout.validate("I020") {
        Err(CodegenError::ExtendedByteMismatch { context, declared, actual_groups }) => {
            assert_eq!(context, "I020");
            assert_eq!(declared, 3);
            assert_eq!(actual_groups, 2);
        }
        other => panic!("unexpected result {other:?}"),
    }
}

#[test]
fn extended_groups_need_seven_bits() {
    let ext = ExtendedItem { bytes: 3, part_groups: vec![group(1, 7), group(2, 6), group(3, 8)] };
    let layout = to_ir_item_structure(ItemStructure::Extended(ext)).unwrap();
    match layout.validate("I020") {
        Err(CodegenError::PartGroupBitMismatch { context, index, actual }) => {
            assert_eq!(context, "I020");
            assert_eq!(index, 2);
            assert_eq!(actual, 6);
        }
        other => panic!("unexpected result {other:?}"),
    }
    let ext = ExtendedItem { bytes: 2, part_groups: vec![group(1, 7), group(2, 7)] };
    let layout = to_ir_item_structure(ItemStructure::Extended(ext)).unwrap();
    assert!(layout.validate("I020").is_ok());
}

#[test]
fn repetitive_counters() {
    let rep = RepetitiveItem { bytes: 1, counter: "fx".into(), elements: vec![field("v", 8, "numeric")] };
    match to_ir_item_structure(ItemStructure::Repetitive(rep)).unwrap() {
        IRLayout::Repetitive { bytes, counter_bits, elements } => {
            assert_eq!(bytes, 1);
            assert_eq!(counter_bits, None);
            assert_eq!(elements.len(), 1);
        }
        other => panic!("unexpected layout {other:?}"),
    }
    let rep = RepetitiveItem { bytes: 2, counter: "64".into(), elements: vec![field("v", 16, "numeric")] };
    match to_ir_item_structure(ItemStructure::Repetitive(rep)).unwrap() {
        IRLayout::Repetitive { counter_bits, .. } => assert_eq!(counter_bits, Some(64)),
        other => panic!("unexpected layout {other:?}"),
    }
    let rep = RepetitiveItem { bytes: 1, counter: "+1".into(), elements: vec![] };
    match to_ir_item_structure(ItemStructure::Repetitive(rep)).unwrap() {
        IRLayout::Repetitive { counter_bits, .. } => assert_eq!(counter_bits, Some(1)),
        other => panic!("unexpected layout {other:?}"),
    }
    let rep = RepetitiveItem { bytes: 1, counter: "FX".into(), elements: vec![] };
    match to_ir_item_structure(ItemStructure::Repetitive(rep)) {
        Err(CodegenError::InvalidCounter { value, .. }) => assert_eq!(value, "FX"),
        other => panic!("unexpected result {other:?}"),
    }
    let rep = RepetitiveItem { bytes: 1, counter: "65".into(), elements: vec![] };
    match to_ir_item_structure(ItemStructure::Repetitive(rep)) {
        Err(CodegenError::CounterWidthOutOfRange { bits }) => assert_eq!(bits, 65),
        other => panic!("unexpected result {other:?}"),
    }
}

#[test]
fn counter_is_checked_before_elements() {
    let rep = RepetitiveItem { bytes: 1, counter: "x".into(), elements: vec![field("v", 8, "bad")] };
    assert!(matches!(
        to_ir_item_structure(ItemStructure::Repetitive(rep)),
        Err(CodegenError::InvalidCounter { .. })
    ));
}

#[test]
fn enum_value_error_names_the_first_bad_value() {
    let simple = SimpleItem {
        bytes: 1,
        elements: vec![Element::Enum(Enum {
            name: "e".into(),
            bits: 8,
            values: vec![
                Value { name: "ok".into(), value: "255".into() },
                Value { name: "neg".into(), value: "-1".into() },
                Value { name: "big".into(), value: "256".into() },
            ],
        })],
    };
    match to_ir_item_structure(ItemStructure::Fixed(simple)) {
        Err(CodegenError::InvalidEnumValue { variant, value, .. }) => {
            assert_eq!(variant, "neg");
            assert_eq!(value, "-1");
        }
        other => panic!("unexpected result {other:?}"),
    }
}

#[test]
fn compound_skips_spare_slots_and_numbers_positions() {
    let comp = CompoundItem {
        items: vec![
            CompoundableItem::Fixed(SimpleItem { bytes: 1, elements: vec![field("a", 8, "numeric")] }),
            CompoundableItem::Spare(Spare { bits: 0 }),
            CompoundableItem::Repetitive(RepetitiveItem {
                bytes: 1,
                counter: "8".into(),
                elements: vec![field("b", 8, "numeric")],
            }),
        ],
    };
    let layout = to_ir_item_structure(ItemStructure::Compound(comp)).unwrap();
    match &layout {
        IRLayout::Compound { sub_items } => {
            let indexes: Vec<usize> = sub_items.iter().map(|s| s.index).collect();
            assert_eq!(indexes, vec![1, 3]);
        }
        other => panic!("unexpected layout {other:?}"),
    }
    assert!(layout.validate("I100").is_ok());
}

#[test]
fn compound_sub_items_are_validated() {
    let comp = CompoundItem {
        items: vec![
            CompoundableItem::Fixed(SimpleItem { bytes: 1, elements: vec![field("a", 8, "numeric")] }),
            CompoundableItem::Explicit(SimpleItem { bytes: 2, elements: vec![field("b", 9, "numeric")] }),
        ],
    };
    let cat = Category {
        id: 62,
        items: vec![Item { id: 380, frn: 4, data: ItemStructure::Compound(comp) }],
    };
    match to_ir(cat) {
        Err(CodegenError::BitCountMismatch { context, bytes, expected_bits, actual_bits }) => {
            assert_eq!(context, "I380");
            assert_eq!(bytes, 2);
            assert_eq!(expected_bits, 16);
            assert_eq!(actual_bits, 9);
        }
        other => panic!("unexpected result {other:?}"),
    }
}

#[test]
fn nested_compound_layout_is_refused() {
    let inner = IRLayout::Compound { sub_items: vec![] };
    let outer = IRLayout::Compound { sub_items: vec![IRSubItem { index: 1, layout: inner }] };
    assert!(matches!(outer.validate("I001"), Err(CodegenError::NestedCompound)));
}

#[test]
fn huge_declared_sizes_report_saturated_counts() {
    let layout = IRLayout::Fixed {
        bytes: usize::MAX,
        elements: vec![IRElement::Spare { bits: usize::MAX }, IRElement::Spare { bits: usize::MAX }],
    };
    match layout.validate("I001") {
        Err(CodegenError::BitCountMismatch { expected_bits, actual_bits, .. }) => {
            assert_eq!(expected_bits, usize::MAX);
            assert_eq!(actual_bits, usize::MAX);
        }
        other => panic!("unexpected result {other:?}"),
    }
}

#[test]
fn repetitive_layout_checks_the_counter_first() {
    let rep = RepetitiveItem { bytes: 1, counter: "".into(), elements: vec![field("v", 8, "bad")] };
    match rasterix::transformer::repetitive_layout(rep) {
        Err(CodegenError::InvalidCounter { value, .. }) => assert_eq!(value, ""),
        other => panic!("unexpected result {other:?}"),
    }
    let rep = RepetitiveItem { bytes: 1, counter: "8".into(), elements: vec![field("v", 8, "bad")] };
    assert!(matches!(
        rasterix::transformer::repetitive_layout(rep),
        Err(CodegenError::InvalidFieldType { .. })
    ));
}
