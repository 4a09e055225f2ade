use touchhle::nib_archive::{nib_archive_is_well_formed, parse_nib_archive};
use touchhle::nib_format::{
    is_nib_archive, parse_class_names, parse_header, parse_keys, parse_objects, parse_values,
    NibObject, NibPayload,
};
use touchhle::plist_model::{ArchivedObject, Field, Geometry, Scalar};

fn varint(mut v: u32, out: &mut Vec<u8>) {
    loop {
        let b = (v & 0x7f) as u8;
        v >>= 7;
        if v == 0 {
            out.push(b | 0x80);
            break;
        }
        out.push(b);
    }
}

fn put_u32(v: u32, out: &mut Vec<u8>) {
    out.extend_from_slice(&v.to_le_bytes());
}

struct Archive {
    keys: Vec<Vec<u8>>,
    classes: Vec<(Vec<u8>, u32)>,
    objects: Vec<(u32, u32, u32)>,
    values: Vec<(u32, u8, Vec<u8>)>,
}

fn build(a: &Archive) -> Vec<u8> {
    let mut objects = Vec::new();
    for &(c, vi, vc) in &a.objects {
        varint(c, &mut objects);
        varint(vi, &mut objects);
        varint(vc, &mut objects);
    }
    let mut keys = Vec::new();
    for k in &a.keys {
        varint(k.len() as u32, &mut keys);
        keys.extend_from_slice(k);
    }
    let mut values = Vec::new();
    for (k, ty, payload) in &a.values {
        varint(*k, &mut values);
        values.push(*ty);
        values.extend_from_slice(payload);
    }
    let mut classes = Vec::new();
    for (name, fallbacks) in &a.classes {
        varint(name.len() as u32, &mut classes);
        varint(*fallbacks, &mut classes);
        for _ in 0..*fallbacks {
            put_u32(0, &mut classes);
        }
        classes.extend_from_slice(name);
    }
    let object_offset = 50u32;
    let key_offset = object_offset + objects.len() as u32;
    let value_offset = key_offset + keys.len() as u32;
    let class_offset = value_offset + values.len() as u32;
    let mut out = b"NIBArchive".to_vec();
    put_u32(1, &mut out);
    put_u32(9, &mut out);
    put_u32(a.objects.len() as u32, &mut out);
    put_u32(object_offset, &mut out);
    put_u32(a.keys.len() as u32, &mut out);
    put_u32(key_offset, &mut out);
    put_u32(a.values.len() as u32, &mut out);
    put_u32(value_offset, &mut out);
    put_u32(a.classes.len() as u32, &mut out);
    put_u32(class_offset, &mut out);
    assert_eq!(out.len(), 50);
    out.extend_from_slice(&objects);
    out.extend_from_slice(&keys);
    out.extend_from_slice(&values);
    out.extend_from_slice(&classes);
    out
}

fn sample() -> Archive {
    let keys: Vec<Vec<u8>> = vec![
        b"UINibObjectsKey".to_vec(),      // 0
        b"NS.bytes".to_vec(),             // 1
        b"UINibEncoderEmptyKey\0".to_vec(), // 2, stored with a trailing NUL
        b"UIBounds".to_vec(),             // 3
        b"UICenter".to_vec(),             // 4
        b"UITag".to_vec(),                // 5
        b"UIContentSize".to_vec(),        // 6
        b"UIAlpha".to_vec(),              // 7
        b"UIScale".to_vec(),              // 8
        b"UIHidden".to_vec(),             // 9
        b"UIOpaque".to_vec(),             // 10
        b"UIInt16".to_vec(),              // 11
        b"UIInt32".to_vec(),              // 12
        b"UIInt64".to_vec(),              // 13
        b"UINil".to_vec(),                // 14
        b"UIUnknown".to_vec(),            // 15
        b"UIData".to_vec(),               // 16
    ];
    let classes = vec![
        (b"UIProxyObject".to_vec(), 0),
        (b"NSString".to_vec(), 0),
        (b"NSArray".to_vec(), 0),
        (b"UIView\0".to_vec(), 2),
        (b"NSData".to_vec(), 0),
    ];
    let mut rect = Vec::new();
    for f in [1.0f32, 2.0, 30.0, 40.0] {
        rect.extend_from_slice(&f.to_bits().to_le_bytes());
    }
    let mut center = Vec::new();
    for f in [5.5f32, 6.5] {
        center.extend_from_slice(&f.to_bits().to_le_bytes());
    }
    let mut size = Vec::new();
    for f in [320.0f32, 480.0] {
        size.extend_from_slice(&f.to_bits().to_le_bytes());
    }
    let mut data_payload = Vec::new();
    varint(1, &mut data_payload);
    data_payload.push(9);
    let mut hello = Vec::new();
    varint(7, &mut hello);
    hello.extend_from_slice(b"hello\0\0");
    let mut rect_payload = Vec::new();
    varint(16, &mut rect_payload);
    rect_payload.extend_from_slice(&rect);
    let mut center_payload = Vec::new();
    varint(8, &mut center_payload);
    center_payload.extend_from_slice(&center);
    let mut size_payload = Vec::new();
    varint(8, &mut size_payload);
    size_payload.extend_from_slice(&size);
    let mut bytes_payload = Vec::new();
    varint(3, &mut bytes_payload);
    bytes_payload.extend_from_slice(&[1, 2, 3]);
    let values = vec![
        // object 0 (root): 0..11
        (0, 0x0A, 2u32.to_le_bytes().to_vec()),
        (7, 0x07, 1.5f64.to_bits().to_le_bytes().to_vec()),
        (8, 0x06, 2.5f32.to_bits().to_le_bytes().to_vec()),
        (9, 0x04, vec![]),
        (10, 0x05, vec![]),
        (11, 0x01, (-2i16).to_le_bytes().to_vec()),
        (12, 0x02, 70000i32.to_le_bytes().to_vec()),
        (13, 0x03, (-5i64).to_le_bytes().to_vec()),
        (14, 0x09, vec![]),
        (15, 0x0B, vec![]),
        (16, 0x08, data_payload),
        // object 1 (NSString): 11..12
        (1, 0x08, hello),
        // object 2 (NSArray): 12..14
        (2, 0x0A, 1u32.to_le_bytes().to_vec()),
        (2, 0x0A, 3u32.to_le_bytes().to_vec()),
        // object 3 (UIView): 14..19
        (3, 0x08, rect_payload),
        (4, 0x08, center_payload),
        (5, 0x00, vec![0xFD]),
        (6, 0x08, size_payload),
        (0, 0x0A, 99u32.to_le_bytes().to_vec()),
        // object 4 (NSData): 19..20
        (2, 0x08, bytes_payload),
    ];
    let objects = vec![(0, 0, 11), (1, 11, 1), (2, 12, 2), (3, 14, 5), (4, 19, 1)];
    Archive { keys, classes, objects, values }
}

fn text(s: &str) -> String {
    s.to_string()
}

fn field<'a>(entries: &'a [(String, Field)], key: &str) -> &'a Field {
    &entries.iter().find(|(k, _)| k == key).unwrap().1
}

#[test]
fn recognises_the_magic() {
    let data = build(&sample());
    assert!(is_nib_archive(&data));
    assert!(!is_nib_archive(b"NIBArchive"));
    assert!(is_nib_archive(b"NIBArchive!"));
    assert!(!is_nib_archive(b"NIBArchivf!"));
    assert!(!is_nib_archive(b""));
}

#[test]
fn reads_the_tables() {
    let data = build(&sample());
    assert!(nib_archive_is_well_formed(&data));
    let header = parse_header(&data);
    assert_eq!(header.object_count, 5);
    assert_eq!(header.object_offset, 50);
    assert_eq!(header.key_count, 17);
    assert_eq!(header.value_count, 20);
    assert_eq!(header.class_count, 5);
    let keys = parse_keys(&data, &header);
    assert_eq!(keys[0], "UINibObjectsKey");
    // One trailing NUL is stripped from names.
    assert_eq!(keys[2], "UINibEncoderEmptyKey");
    let classes = parse_class_names(&data, &header);
    assert_eq!(classes, vec![text("UIProxyObject"), text("NSString"), text("NSArray"), text("UIView"), text("NSData")]);
    let objects = parse_objects(&data, &header);
    assert_eq!(objects[3], NibObject { class_index: 3, values_index: 14, values_count: 5 });
    let values = parse_values(&data, &header);
    assert_eq!(values.len(), 20);
    assert_eq!(values[0].payload, NibPayload::ObjectRef(2));
    assert_eq!(values[5].payload, NibPayload::Int16(-2));
    assert_eq!(values[6].payload, NibPayload::Int32(70000));
    assert_eq!(values[7].payload, NibPayload::Int64(-5));
    assert_eq!(values[9].payload, NibPayload::Nil);
    assert_eq!(values[9].value_type, 0x0B);
    assert_eq!(values[16].payload, NibPayload::Int8(-3));
    assert_eq!(values[10].payload, NibPayload::Data(vec![9]));
}

#[test]
fn converts_to_keyed_archive() {
    let data = build(&sample());
    let archive = parse_nib_archive(&data);
    assert_eq!(archive.archiver, "NSKeyedArchiver");
    assert_eq!(archive.version, 100000);
    let objs = &archive.objects;
    assert_eq!(objs.len(), 12);
    assert_eq!(objs[0], ArchivedObject::String(text("$null")));
    // The string object keeps the text of its bytes, without trailing NULs.
    assert_eq!(objs[2], ArchivedObject::String(text("hello")));
    assert_eq!(objs[5], ArchivedObject::Data(vec![1, 2, 3]));
    // Root object: its class description is appended first, at index 6.
    match &objs[1] {
        ArchivedObject::Dictionary(d) => {
            let e = d.entries();
            assert_eq!(e[0].0, "$class");
            assert_eq!(e[0].1, Field::Scalar(Scalar::Uid(6)));
            assert_eq!(*field(e, "UINibObjectsKey"), Field::Scalar(Scalar::Uid(3)));
        },
        other => panic!("root is {:?}", other),
    }
    match &objs[6] {
        ArchivedObject::Dictionary(d) => {
            let e = d.entries();
            assert_eq!(e.len(), 2);
            assert_eq!(e[0], (text("$classname"), Field::Scalar(Scalar::String(text("UIProxyObject")))));
            assert_eq!(
                e[1],
                (
                    text("$classes"),
                    Field::Array(vec![Scalar::String(text("UIProxyObject")), Scalar::String(text("NSObject"))])
                )
            );
        },
        other => panic!("class is {:?}", other),
    }
    // The array's repeated empty key becomes NS.objects.
    match &objs[3] {
        ArchivedObject::Dictionary(d) => {
            let e = d.entries();
            assert_eq!(e.len(), 2);
            assert_eq!(e[0].1, Field::Scalar(Scalar::Uid(7)));
            assert_eq!(e[1], (text("NS.objects"), Field::Array(vec![Scalar::Uid(2), Scalar::Uid(4)])));
        },
        other => panic!("array is {:?}", other),
    }
    // The view: class at 8, geometry strings at 9, 10, 11.
    match &objs[4] {
        ArchivedObject::Dictionary(d) => {
            let e = d.entries();
            assert_eq!(e[0].1, Field::Scalar(Scalar::Uid(8)));
            assert_eq!(*field(e, "UIBounds"), Field::Scalar(Scalar::Uid(9)));
            assert_eq!(*field(e, "UICenter"), Field::Scalar(Scalar::Uid(10)));
            assert_eq!(*field(e, "UITag"), Field::Scalar(Scalar::Integer(-3)));
            assert_eq!(*field(e, "UIContentSize"), Field::Scalar(Scalar::Uid(11)));
            // A reference past the last object reads as $null.
            assert_eq!(*field(e, "UINibObjectsKey"), Field::Scalar(Scalar::Uid(0)));
        },
        other => panic!("view is {:?}", other),
    }
    assert_eq!(
        objs[9],
        ArchivedObject::Geometry(Geometry::Rect(
            1.0f32.to_bits(),
            2.0f32.to_bits(),
            30.0f32.to_bits(),
            40.0f32.to_bits()
        ))
    );
    assert_eq!(objs[10], ArchivedObject::Geometry(Geometry::Pair(5.5f32.to_bits(), 6.5f32.to_bits())));
    assert_eq!(objs[11], ArchivedObject::Geometry(Geometry::Pair(320.0f32.to_bits(), 480.0f32.to_bits())));
    match &objs[7] {
        ArchivedObject::Dictionary(d) => {
            assert_eq!(d.entries()[0].1, Field::Scalar(Scalar::String(text("NSArray"))));
        },
        other => panic!("class is {:?}", other),
    }
}

#[test]
fn top_holds_the_root_fields() {
    let data = build(&sample());
    let archive = parse_nib_archive(&data);
    let top = archive.top.entries();
    let expected = vec![
        (text("UINibObjectsKey"), Scalar::Uid(3)),
        (text("UIAlpha"), Scalar::Double(1.5f64.to_bits())),
        (text("UIScale"), Scalar::Float(2.5f32.to_bits())),
        (text("UIHidden"), Scalar::Boolean(true)),
        (text("UIOpaque"), Scalar::Boolean(false)),
        (text("UIInt16"), Scalar::Integer(-2)),
        (text("UIInt32"), Scalar::Integer(70000)),
        (text("UIInt64"), Scalar::Integer(-5)),
        (text("UINil"), Scalar::Uid(0)),
        (text("UIUnknown"), Scalar::Uid(0)),
        (text("UIData"), Scalar::Data(vec![9])),
    ];
    assert_eq!(*top, expected);
}

#[test]
fn rejects_malformed_archives() {
    let data = build(&sample());
    // Too short for the header.
    assert!(!nib_archive_is_well_formed(&data[..40]));
    // Tables cut off.
    assert!(!nib_archive_is_well_formed(&data[..data.len() - 1]));
    // Wrong magic.
    let mut bad = data.clone();
    bad[0] = b'X';
    assert!(!nib_archive_is_well_formed(&bad));
    // An object naming a class that does not exist.
    let mut a = sample();
    a.objects[1].0 = 5;
    assert!(!nib_archive_is_well_formed(&build(&a)));
    // An object whose values run past the value table.
    let mut a = sample();
    a.objects[4].2 = 2;
    assert!(!nib_archive_is_well_formed(&build(&a)));
    // A value stored under a key that does not exist.
    let mut a = sample();
    a.values[3].0 = 17;
    assert!(!nib_archive_is_well_formed(&build(&a)));
    // No root object.
    let a = Archive { keys: vec![], classes: vec![], objects: vec![], values: vec![] };
    assert!(!nib_archive_is_well_formed(&build(&a)));
}

#[test]
fn data_under_non_geometry_key_stays_data() {
    let mut a = sample();
    // Sixteen bytes under UICenter (a point key) are not a rectangle.
    let mut payload = Vec::new();
    varint(16, &mut payload);
    payload.extend_from_slice(&[0u8; 16]);
    a.values[15].2 = payload;
    let archive = parse_nib_archive(&build(&a));
    match &archive.objects[4] {
        ArchivedObject::Dictionary(d) => {
            assert_eq!(*field(d.entries(), "UICenter"), Field::Scalar(Scalar::Data(vec![0u8; 16])));
        },
        other => panic!("view is {:?}", other),
    }
    assert_eq!(archive.objects.len(), 11);
}

#[test]
fn last_bytes_value_wins_for_strings() {
    let mut a = sample();
    let mut second = Vec::new();
    varint(3, &mut second);
    second.extend_from_slice(b"bye");
    a.values.push((1, 0x08, second));
    a.values.push((2, 0x08, vec![0x82, b'o', b'k']));
    a.values.push((5, 0x04, vec![]));
    a.objects[1] = (1, 20, 3);
    let archive = parse_nib_archive(&build(&a));
    assert_eq!(archive.objects[2], ArchivedObject::String(text("ok")));
    // A data object with no bytes value is empty.
    let mut a = sample();
    a.objects[4] = (4, 3, 1);
    let archive = parse_nib_archive(&build(&a));
    assert_eq!(archive.objects[5], ArchivedObject::Data(vec![]));
}

#[test]
fn names_are_decoded_with_replacement() {
    let mut a = sample();
    a.keys[16] = b"UI\xFFData".to_vec();
    let data = build(&a);
    let header = parse_header(&data);
    let keys = parse_keys(&data, &header);
    assert_eq!(keys[16], "UI\u{FFFD}Data");
    let archive = parse_nib_archive(&data);
    assert_eq!(archive.top.entries()[10].0, "UI\u{FFFD}Data");
}

#[test]
fn string_object_text_is_decoded_with_replacement() {
    let mut a = sample();
    let mut payload = Vec::new();
    varint(4, &mut payload);
    payload.extend_from_slice(&[b'h', 0xC3, b'i', 0]);
    a.values[11].2 = payload;
    let archive = parse_nib_archive(&build(&a));
    assert_eq!(archive.objects[2], ArchivedObject::String(text("h\u{FFFD}i")));
}

#[test]
fn every_uid_points_into_objects() {
    let mut a = sample();
    // Also out-of-range references, which read as $null.
    a.values[12].2 = 1000u32.to_le_bytes().to_vec();
    let archive = parse_nib_archive(&build(&a));
    let len = archive.objects.len() as u64;
    let below = |s: &Scalar| match s {
        Scalar::Uid(u) => *u < len,
        _ => true,
    };
    for (_, s) in archive.top.entries() {
        assert!(below(s));
    }
    for o in &archive.objects {
        if let ArchivedObject::Dictionary(d) = o {
            for (_, f) in d.entries() {
                match f {
                    Field::Scalar(s) => assert!(below(s)),
                    Field::Array(items) => assert!(items.iter().all(|s| below(s))),
                }
            }
        }
    }
}
