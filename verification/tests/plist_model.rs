use touchhle::text::trim_nuls;
use touchhle::keyed_archive::{geometry_for, keyed_archive_from_tables, payload_to_scalar};
use touchhle::nib_format::{NibObject, NibPayload, NibValue};
use touchhle::plist_model::{ArchivedObject, Dict, Field, Geometry, Scalar};

#[test]
fn insert_appends_new_keys_in_order() {
    let mut d: Dict<Scalar> = Dict::new();
    d.insert("b".to_string(), Scalar::Integer(1));
    d.insert("a".to_string(), Scalar::Integer(2));
    let e = d.entries();
    assert_eq!(e.len(), 2);
    assert_eq!(e[0], ("b".to_string(), Scalar::Integer(1)));
    assert_eq!(e[1], ("a".to_string(), Scalar::Integer(2)));
}

#[test]
fn insert_replaces_in_place() {
    let mut d: Dict<Scalar> = Dict::new();
    d.insert("x".to_string(), Scalar::Boolean(true));
    d.insert("y".to_string(), Scalar::Boolean(false));
    d.insert("x".to_string(), Scalar::Uid(7));
    let e = d.into_entries();
    assert_eq!(
        e,
        vec![("x".to_string(), Scalar::Uid(7)), ("y".to_string(), Scalar::Boolean(false))]
    );
}

#[test]
fn payloads_become_plist_values() {
    assert_eq!(payload_to_scalar(&NibPayload::Int8(-1)), Scalar::Integer(-1));
    assert_eq!(payload_to_scalar(&NibPayload::Int16(300)), Scalar::Integer(300));
    assert_eq!(payload_to_scalar(&NibPayload::Int32(-70000)), Scalar::Integer(-70000));
    assert_eq!(payload_to_scalar(&NibPayload::Int64(1 << 40)), Scalar::Integer(1 << 40));
    assert_eq!(payload_to_scalar(&NibPayload::True), Scalar::Boolean(true));
    assert_eq!(payload_to_scalar(&NibPayload::False), Scalar::Boolean(false));
    assert_eq!(payload_to_scalar(&NibPayload::Float(0.5f32.to_bits())), Scalar::Float(0.5f32.to_bits()));
    assert_eq!(payload_to_scalar(&NibPayload::Double(0.25f64.to_bits())), Scalar::Double(0.25f64.to_bits()));
    assert_eq!(payload_to_scalar(&NibPayload::Data(vec![1, 2])), Scalar::Data(vec![1, 2]));
    assert_eq!(payload_to_scalar(&NibPayload::Nil), Scalar::Uid(0));
    assert_eq!(payload_to_scalar(&NibPayload::ObjectRef(4)), Scalar::Uid(4));
}

#[test]
fn geometry_needs_the_right_key_and_length() {
    let rect: Vec<u8> = (0u8..16).collect();
    let key = "UIFrame".to_string();
    assert_eq!(
        geometry_for(&key, &NibPayload::Data(rect.clone())),
        Some(Geometry::Rect(0x0302_0100, 0x0706_0504, 0x0B0A_0908, 0x0F0E_0D0C))
    );
    assert_eq!(geometry_for(&"UIFrameX".to_string(), &NibPayload::Data(rect.clone())).is_some(), true);
    assert_eq!(
        geometry_for(&"UIAutoresizeToFitContentFrame".to_string(), &NibPayload::Data(rect.clone())).is_some(),
        true
    );
    assert_eq!(geometry_for(&"UIFrame".to_string(), &NibPayload::Data(rect[..8].to_vec())), None);
    assert_eq!(geometry_for(&"UITag".to_string(), &NibPayload::Data(rect.clone())), None);
    let pair: Vec<u8> = vec![1, 0, 0, 0, 2, 0, 0, 0];
    for k in ["UICenter", "UIContentOffset", "UIContentSize", "UIScrollViewContentSize", "UIMinimumSize", "UIMaximumSize"] {
        assert_eq!(geometry_for(&k.to_string(), &NibPayload::Data(pair.clone())), Some(Geometry::Pair(1, 2)));
    }
    assert_eq!(geometry_for(&"UICenter".to_string(), &NibPayload::ObjectRef(1)), None);
}

fn value(key_index: u32, payload: NibPayload) -> NibValue {
    NibValue { key_index, value_type: 0, payload }
}

#[test]
fn dictionary_class_array_key_and_single_keys() {
    // A mutable dictionary whose elements use the empty key, and a plain
    // object whose repeated key keeps its own name.
    let keys = vec!["UINibEncoderEmptyKey".to_string(), "UISubviews".to_string(), "UITag".to_string()];
    let classes = vec!["NSMutableDictionary".to_string(), "UIView".to_string()];
    let objects = vec![
        NibObject { class_index: 1, values_index: 0, values_count: 3 },
        NibObject { class_index: 0, values_index: 3, values_count: 2 },
    ];
    let values = vec![
        value(1, NibPayload::ObjectRef(1)),
        value(2, NibPayload::Int8(4)),
        value(1, NibPayload::ObjectRef(0)),
        value(0, NibPayload::True),
        value(0, NibPayload::False),
    ];
    let archive = keyed_archive_from_tables(&keys, &classes, &objects, &values);
    assert_eq!(archive.objects.len(), 5);
    match &archive.objects[1] {
        ArchivedObject::Dictionary(d) => {
            assert_eq!(
                *d.entries(),
                vec![
                    ("$class".to_string(), Field::Scalar(Scalar::Uid(3))),
                    ("UITag".to_string(), Field::Scalar(Scalar::Integer(4))),
                    ("UISubviews".to_string(), Field::Array(vec![Scalar::Uid(2), Scalar::Uid(1)])),
                ]
            );
        },
        other => panic!("object is {:?}", other),
    }
    match &archive.objects[2] {
        ArchivedObject::Dictionary(d) => {
            assert_eq!(
                *d.entries(),
                vec![
                    ("$class".to_string(), Field::Scalar(Scalar::Uid(4))),
                    ("NS.objects".to_string(), Field::Array(vec![Scalar::Boolean(true), Scalar::Boolean(false)])),
                ]
            );
        },
        other => panic!("object is {:?}", other),
    }
    // $top is the root object's fields; repeated keys are overwritten there.
    assert_eq!(
        *archive.top.entries(),
        vec![("UISubviews".to_string(), Scalar::Uid(1)), ("UITag".to_string(), Scalar::Integer(4))]
    );
}

#[test]
fn class_key_field_overrides_class_reference() {
    // A field stored under `$class` replaces the class reference.
    let keys = vec!["$class".to_string()];
    let classes = vec!["UIView".to_string()];
    let objects = vec![NibObject { class_index: 0, values_index: 0, values_count: 1 }];
    let values = vec![value(0, NibPayload::Int8(1))];
    let archive = keyed_archive_from_tables(&keys, &classes, &objects, &values);
    match &archive.objects[1] {
        ArchivedObject::Dictionary(d) => {
            assert_eq!(*d.entries(), vec![("$class".to_string(), Field::Scalar(Scalar::Integer(1)))]);
        },
        other => panic!("object is {:?}", other),
    }
}

#[test]
fn trailing_nuls_are_trimmed() {
    assert_eq!(trim_nuls(&"ab\0\0".to_string()), "ab");
    assert_eq!(trim_nuls(&"a\0b".to_string()), "a\0b");
    assert_eq!(trim_nuls(&"\0\0".to_string()), "");
    assert_eq!(trim_nuls(&"é\0".to_string()), "é");
}
