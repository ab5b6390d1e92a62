//! Encoding, decoding, setting and reading messages.
use std::sync::{Arc, OnceLock};

use proto_reflect::any::AnyError;
use proto_reflect::decode::DecodeOptions;
use proto_reflect::descriptor::{
    DescriptorPool, EnumDescriptor, EnumIndex, EnumType, EnumValueDescriptor, ExtensionDescriptor,
    FieldDescriptor, FieldKind, FieldPresence, Identity, MessageDescriptor, MessageIndex,
    OneofDescriptor, ScalarType, SingularKind,
};
use proto_reflect::map::MapValue;
use proto_reflect::message::{ReflectError, ValueRef};
use proto_reflect::shape::{validate_value_shape, value_shape};
use proto_reflect::value::{DynamicMessage, MapKey, Value};
use proto_reflect::wire::{DecodeError, EncodeError};

const ALL: MessageIndex = MessageIndex(0);

fn scalar(s: ScalarType) -> FieldKind {
    FieldKind::Singular(SingularKind::Scalar(s))
}

fn field(number: u32, name: &str, kind: FieldKind, presence: FieldPresence) -> FieldDescriptor {
    FieldDescriptor {
        identity: Identity::new(),
        number,
        name: name.to_string(),
        json_name: name.to_string(),
        kind,
        presence,
        oneof_index: None,
        delimited: false,
        packed: false,
        enum_type: None,
        debug_redact: false,
    }
}

fn value(name: &str, number: i32) -> EnumValueDescriptor {
    EnumValueDescriptor {
        name: name.to_string(),
        number,
    }
}

/// `t.All`, `google.protobuf.Any` and an extension of `t.All`.
fn descriptors(package: &str) -> (Vec<MessageDescriptor>, Vec<EnumDescriptor>, Vec<ExtensionDescriptor>)
{
    let explicit = FieldPresence::Explicit;
    let implicit = FieldPresence::Implicit;
    let open = SingularKind::Enum(EnumIndex(0));
    let closed = SingularKind::Enum(EnumIndex(1));
    let own = SingularKind::Message(ALL);
    let int32 = SingularKind::Scalar(ScalarType::Int32);
    let text = SingularKind::Scalar(ScalarType::String);
    let mut fields = vec![
        field(1, "num", FieldKind::Singular(int32), implicit),
        field(2, "text", FieldKind::Singular(text), implicit),
        field(3, "child", FieldKind::Singular(own), explicit),
        field(4, "items", FieldKind::List(int32), explicit),
        field(5, "tags", FieldKind::List(text), explicit),
        field(
            6,
            "counts",
            FieldKind::Mapping {
                key: ScalarType::String,
                value: int32,
            },
            explicit,
        ),
        field(7, "kind", FieldKind::Singular(open), implicit),
        field(8, "color", FieldKind::Singular(closed), explicit),
        field(9, "colors", FieldKind::List(closed), explicit),
        field(
            10,
            "palette",
            FieldKind::Mapping {
                key: ScalarType::Int32,
                value: closed,
            },
            explicit,
        ),
        field(11, "pick_num", FieldKind::Singular(int32), explicit),
        field(12, "pick_text", FieldKind::Singular(text), explicit),
        field(13, "pick_msg", FieldKind::Singular(own), explicit),
        field(14, "group", FieldKind::Singular(own), explicit),
        field(15, "ratio", scalar(ScalarType::Double), implicit),
        field(16, "small", scalar(ScalarType::Float), implicit),
        field(17, "raw", scalar(ScalarType::Bytes), implicit),
        field(18, "secret", FieldKind::Singular(text), explicit),
        field(19, "s32", scalar(ScalarType::Sint32), explicit),
        field(20, "s64", scalar(ScalarType::Sint64), explicit),
        field(21, "f32", scalar(ScalarType::Fixed32), explicit),
        field(22, "f64", scalar(ScalarType::Fixed64), explicit),
        field(23, "sf32", scalar(ScalarType::Sfixed32), explicit),
        field(24, "sf64", scalar(ScalarType::Sfixed64), explicit),
        field(25, "u64", scalar(ScalarType::Uint64), explicit),
        field(26, "flag", scalar(ScalarType::Bool), explicit),
        field(27, "children", FieldKind::List(own), explicit),
        field(
            28,
            "family",
            FieldKind::Mapping {
                key: ScalarType::Bool,
                value: own,
            },
            explicit,
        ),
        field(29, "u32", scalar(ScalarType::Uint32), explicit),
        field(30, "i64", scalar(ScalarType::Int64), explicit),
    ];
    fields[3].packed = true;
    fields[8].packed = true;
    for i in [10, 11, 12] {
        fields[i].oneof_index = Some(0);
    }
    fields[13].delimited = true;
    fields[17].debug_redact = true;
    let all = MessageDescriptor {
        full_name: format!("{package}.All"),
        fields,
        oneofs: vec![OneofDescriptor {
            name: "pick".to_string(),
            field_indices: vec![10, 11, 12],
        }],
        extension_ranges: vec![(100, 200)],
    };
    let any_fields = vec![
        field(1, "type_url", FieldKind::Singular(text), implicit),
        field(2, "value", scalar(ScalarType::Bytes), implicit),
    ];
    let any = MessageDescriptor {
        full_name: "google.protobuf.Any".to_string(),
        fields: any_fields,
        oneofs: vec![],
        extension_ranges: vec![],
    };
    let enums = vec![
        EnumDescriptor {
            full_name: "t.Kind".to_string(),
            enum_type: EnumType::Open,
            values: vec![value("KIND_NONE", 0), value("KIND_ONE", 1)],
        },
        EnumDescriptor {
            full_name: "t.Color".to_string(),
            enum_type: EnumType::Closed,
            values: vec![value("RED", 1), value("BLUE", 2), value("BELOW", -1)],
        },
    ];
    let extensions = vec![ExtensionDescriptor {
        full_name: "t.ext".to_string(),
        extendee: ALL,
        field: field(100, "ext", FieldKind::Singular(text), explicit),
    }];
    (vec![all, any], enums, extensions)
}

fn pool_named(package: &str) -> Arc<DescriptorPool> {
    let (messages, enums, extensions) = descriptors(package);
    Arc::new(DescriptorPool::link(messages, enums, extensions).expect("the schema links"))
}

/// The one pool of the tests that need no other.
fn pool() -> Arc<DescriptorPool> {
    static POOL: OnceLock<Arc<DescriptorPool>> = OnceLock::new();
    Arc::clone(POOL.get_or_init(|| pool_named("t")))
}

fn empty() -> DynamicMessage {
    DynamicMessage::new(pool(), ALL)
}

fn decode(bytes: &[u8]) -> Result<DynamicMessage, DecodeError> {
    DynamicMessage::decode(pool(), ALL, bytes)
}

fn set(m: &mut DynamicMessage, number: u32, v: Value) {
    let p = Arc::clone(m.pool());
    let fd = p.field_or_extension(m.message_index(), number).unwrap();
    m.try_set(fd, v).expect("the value fits");
}

fn has(m: &DynamicMessage, number: u32) -> bool {
    let p = Arc::clone(m.pool());
    m.has(p.field_or_extension(m.message_index(), number).unwrap())
}

fn string(s: &str) -> Value {
    Value::String(s.to_string())
}

// ── Encoding ────────────────────────────────────────────────────────────────

#[test]
fn checked_encode_size_boundary() {
    let max = buffa::MAX_MESSAGE_BYTES as usize;
    assert_eq!(DynamicMessage::checked_encode_size(max), Ok(max));
    assert_eq!(
        DynamicMessage::checked_encode_size(max + 1),
        Err(EncodeError::MessageTooLarge)
    );
    // Past u32::MAX the adapter saturates rather than wrapping.
    assert_eq!(
        DynamicMessage::checked_encode_size(u32::MAX as usize + 1),
        Err(EncodeError::MessageTooLarge)
    );
}

#[test]
fn decode_at_depth_uses_the_supplied_depth() {
    let text = FieldKind::Singular(SingularKind::Scalar(ScalarType::String));
    let md = MessageDescriptor {
        full_name: "google.protobuf.DescriptorProto".to_string(),
        fields: vec![
            field(1, "name", text, FieldPresence::Explicit),
            field(
                3,
                "nested_type",
                FieldKind::List(SingularKind::Message(MessageIndex(0))),
                FieldPresence::Explicit,
            ),
        ],
        oneofs: vec![],
        extension_ranges: vec![],
    };
    let pool = Arc::new(DescriptorPool::link(vec![md], vec![], vec![]).unwrap());
    let idx = pool
        .message_index("google.protobuf.DescriptorProto")
        .unwrap();
    let decode = |bytes: &[u8], depth| {
        DynamicMessage::decode_at_depth(Arc::clone(&pool), idx, bytes, depth)
    };

    // `DescriptorProto { nested_type: [ {} ] }` — one nested level.
    let one_level = [0x1A, 0x00];
    assert!(matches!(
        decode(&one_level, 0),
        Err(DecodeError::RecursionLimitExceeded)
    ));
    assert!(decode(&one_level, 1).is_ok());
    // Depth 0 still admits a flat message: `{ name: "n" }`.
    assert!(decode(&[0x0A, 0x01, b'n'], 0).is_ok());
}

#[test]
fn every_scalar_is_written_and_read_back() {
    let mut m = empty();
    set(&mut m, 1, Value::I32(-1));
    set(&mut m, 2, string("héllo"));
    set(&mut m, 15, Value::F64(1.5f64.to_bits()));
    set(&mut m, 16, Value::F32((-2.25f32).to_bits()));
    set(&mut m, 17, Value::Bytes(vec![0, 255, 7]));
    set(&mut m, 19, Value::I32(i32::MIN));
    set(&mut m, 20, Value::I64(-3));
    set(&mut m, 21, Value::U32(0x01020304));
    set(&mut m, 22, Value::U64(5));
    set(&mut m, 23, Value::I32(-6));
    set(&mut m, 24, Value::I64(i64::MIN));
    set(&mut m, 25, Value::U64(u64::MAX));
    set(&mut m, 26, Value::Bool(true));
    set(&mut m, 29, Value::U32(300));
    set(&mut m, 30, Value::I64(-1));
    let bytes = m.encode_to_vec();
    let mut expected: Vec<u8> = vec![0x08];
    expected.extend([0xff; 9]);
    expected.push(0x01);
    expected.extend([0x12, 0x06]);
    expected.extend("héllo".as_bytes());
    expected.push(0x79);
    expected.extend(1.5f64.to_le_bytes());
    expected.extend([0x85, 0x01]);
    expected.extend((-2.25f32).to_le_bytes());
    expected.extend([0x8a, 0x01, 0x03, 0, 255, 7]);
    expected.extend([0x98, 0x01, 0xff, 0xff, 0xff, 0xff, 0x0f]);
    expected.extend([0xa0, 0x01, 0x05]);
    expected.extend([0xad, 0x01, 4, 3, 2, 1]);
    expected.extend([0xb1, 0x01, 5, 0, 0, 0, 0, 0, 0, 0]);
    expected.extend([0xbd, 0x01, 0xfa, 0xff, 0xff, 0xff]);
    expected.extend([0xc1, 0x01, 0, 0, 0, 0, 0, 0, 0, 0x80]);
    expected.extend([0xc8, 0x01]);
    expected.extend([0xff; 9]);
    expected.push(0x01);
    expected.extend([0xd0, 0x01, 0x01]);
    expected.extend([0xe8, 0x01, 0xac, 0x02]);
    expected.extend([0xf0, 0x01]);
    expected.extend([0xff; 9]);
    expected.push(0x01);
    assert_eq!(bytes, expected);
    assert_eq!(m.encoded_len(), bytes.len());
    let back = decode(&bytes).unwrap();
    assert!(back == m);
}

#[test]
fn containers_are_written_and_read_back() {
    let mut child = empty();
    set(&mut child, 1, Value::I32(9));
    let mut m = empty();
    set(&mut m, 3, Value::Message(child.to_dynamic()));
    set(&mut m, 4, Value::List(vec![Value::I32(1), Value::I32(300)]));
    set(&mut m, 5, Value::List(vec![string("a"), string("")]));
    let entries = vec![
        (MapKey::String("b".to_string()), Value::I32(2)),
        (MapKey::String("a".to_string()), Value::I32(1)),
        (MapKey::String("b".to_string()), Value::I32(3)),
    ];
    set(&mut m, 6, Value::Mapping(MapValue::from_entries(entries)));
    set(&mut m, 14, Value::Message(child.to_dynamic()));
    set(&mut m, 27, Value::List(vec![Value::Message(empty()), Value::Message(child)]));
    let bytes = m.encode_to_vec();
    let expected = vec![
        0x1a, 0x02, 0x08, 0x09, // child
        0x22, 0x03, 0x01, 0xac, 0x02, // items, packed
        0x2a, 0x01, b'a', 0x2a, 0x00, // tags
        0x32, 0x05, 0x0a, 0x01, b'a', 0x10, 0x01, // counts: in the order of keys
        0x32, 0x05, 0x0a, 0x01, b'b', 0x10, 0x03, // the later of two equal keys
        0x73, 0x08, 0x09, 0x74, // group
        0xda, 0x01, 0x00, 0xda, 0x01, 0x02, 0x08, 0x09, // children
    ];
    assert_eq!(bytes, expected);
    assert_eq!(m.encoded_len(), bytes.len());
    assert!(decode(&bytes).unwrap() == m);
}

#[test]
fn try_encode_appends_behind_what_is_there() {
    let mut m = empty();
    set(&mut m, 1, Value::I32(5));
    let mut buf = vec![1, 2];
    m.try_encode(&mut buf).unwrap();
    assert_eq!(buf, vec![1, 2, 0x08, 0x05]);
    m.encode(&mut buf);
    assert_eq!(buf, vec![1, 2, 0x08, 0x05, 0x08, 0x05]);
    assert_eq!(m.try_encode_to_vec().unwrap(), vec![0x08, 0x05]);
    assert_eq!(m.to_message().unwrap(), vec![0x08, 0x05]);
}

#[test]
fn defaults_without_presence_are_not_written() {
    let mut m = empty();
    set(&mut m, 1, Value::I32(0));
    set(&mut m, 2, string(""));
    set(&mut m, 7, Value::EnumNumber(0));
    set(&mut m, 15, Value::F64(0));
    assert_eq!(m.encode_to_vec(), Vec::<u8>::new());
    assert!(!has(&m, 1) && !has(&m, 2) && !has(&m, 7) && !has(&m, 15));
    // Negative zero is no default.
    set(&mut m, 15, Value::F64((-0.0f64).to_bits()));
    assert!(has(&m, 15));
    assert_eq!(m.encode_to_vec(), vec![0x79, 0, 0, 0, 0, 0, 0, 0, 0x80]);
    // With presence a default is written.
    set(&mut m, 19, Value::I32(0));
    assert!(has(&m, 19));
    assert_eq!(m.encode_to_vec().len(), 12);
    // Empty lists and maps are not set.
    set(&mut m, 4, Value::List(vec![]));
    set(&mut m, 6, Value::Mapping(MapValue::new()));
    assert!(!has(&m, 4) && !has(&m, 6));
    assert_eq!(m.encode_to_vec().len(), 12);
}

#[test]
fn a_value_of_another_shape_is_left_out_as_a_whole() {
    let mut m = empty();
    set(&mut m, 4, Value::List(vec![Value::I32(1), Value::I32(2)]));
    set(&mut m, 1, Value::I32(3));
    if let Some(Value::List(items)) = m.field_by_number_mut(4) {
        items[1] = string("two");
    }
    assert_eq!(m.encode_to_vec(), vec![0x08, 0x03]);
    assert_eq!(m.encoded_len(), 2);
}

// ── Decoding ────────────────────────────────────────────────────────────────

#[test]
fn fields_that_the_schema_does_not_have_are_kept_in_order() {
    let bytes = vec![
        0xf8, 0x3f, 0x05, // 1023: varint
        0x08, 0x07, // num
        0xfa, 0x3f, 0x01, 0x61, // 1023: bytes
        0xfb, 0x3f, 0x08, 0x01, 0xfc, 0x3f, // 1023: group
    ];
    let m = decode(&bytes).unwrap();
    assert_eq!(m.unknown_fields().len(), 3);
    let mut expected = vec![0x08, 0x07];
    expected.extend([0xf8, 0x3f, 0x05, 0xfa, 0x3f, 0x01, 0x61]);
    expected.extend([0xfb, 0x3f, 0x08, 0x01, 0xfc, 0x3f]);
    assert_eq!(m.encode_to_vec(), expected);
    // What was decoded decodes again to the same message, and to the same
    // bytes.
    let again = decode(&expected).unwrap();
    assert!(again == m);
    assert_eq!(again.encode_to_vec(), expected);
}

#[test]
fn a_field_with_a_wire_type_it_cannot_have_is_unknown() {
    let m = decode(&[0x0d, 1, 2, 3, 4]).unwrap();
    assert!(m.field_by_number(1).is_none());
    assert_eq!(m.unknown_fields().len(), 1);
    assert_eq!(m.encode_to_vec(), vec![0x0d, 1, 2, 3, 4]);
}

#[test]
fn lists_are_read_packed_or_not() {
    let m = decode(&[0x20, 0x01, 0x22, 0x02, 0x02, 0x03, 0x20, 0x04]).unwrap();
    assert_eq!(m.encode_to_vec(), vec![0x22, 0x04, 1, 2, 3, 4]);
    // Of a closed enum, too, what is not declared going elsewhere either way.
    let packed = decode(&[0x4a, 0x03, 0x01, 0x07, 0x02]).unwrap();
    let single = decode(&[0x48, 0x01, 0x48, 0x07, 0x48, 0x02]).unwrap();
    assert!(packed == single);
    assert_eq!(packed.encode_to_vec(), single.encode_to_vec());
    assert_eq!(packed.unknown_fields().len(), 1);
}

#[test]
fn bytes_can_be_merged_in_parts() {
    // A map entry, a list, a child and an unknown field, then more of each.
    let first: &[u8] = &[
        0x32, 0x05, 0x0a, 0x01, b'b', 0x10, 0x01, 0x20, 0x01, 0x1a, 0x02, 0x08, 0x01, 0xf8, 0x3f,
        0x05,
    ];
    let rest: &[u8] = &[
        0x32, 0x05, 0x0a, 0x01, b'a', 0x10, 0x02, 0x22, 0x02, 0x02, 0x03, 0x1a, 0x03, 0x12, 0x01,
        b'x', 0x32, 0x05, 0x0a, 0x01, b'b', 0x10, 0x03, 0xf8, 0x3f, 0x06,
    ];
    let whole = decode(&[first, rest].concat()).unwrap();
    let mut parts = decode(first).unwrap();
    assert!(parts.merge(rest).is_ok());
    assert!(parts == whole);
    assert_eq!(parts.encode_to_vec(), whole.encode_to_vec());
}

#[test]
fn a_field_is_set_where_clearing_it_shortens_the_message() {
    let shortens = |m: &DynamicMessage, number: u32| {
        let p = Arc::clone(m.pool());
        let mut cleared = m.clone();
        cleared.clear(p.field_or_extension(ALL, number).unwrap());
        cleared.encoded_len() < m.encoded_len()
    };
    let mut m = empty();
    set(&mut m, 1, Value::I32(0));
    set(&mut m, 4, Value::List(vec![]));
    set(&mut m, 6, Value::Mapping(MapValue::new()));
    set(&mut m, 26, Value::Bool(false));
    set(&mut m, 100, string(""));
    for (number, is_set) in [(1, false), (2, false), (4, false), (6, false), (26, true), (100, true)]
    {
        assert_eq!(has(&m, number), is_set, "{number}");
        assert_eq!(shortens(&m, number), is_set, "{number}");
    }
}

#[test]
fn messages_are_merged_and_groups_accepted() {
    // Two parts of one child: the first as a payload, the second as a group.
    let m = decode(&[0x1a, 0x02, 0x08, 0x01, 0x1b, 0x12, 0x01, b'x', 0x1c]).unwrap();
    assert_eq!(m.encode_to_vec(), vec![0x1a, 0x05, 0x08, 0x01, 0x12, 0x01, b'x']);
    let mut m = m;
    m.merge(&[0x1a, 0x02, 0x08, 0x05]).unwrap();
    assert_eq!(m.encode_to_vec(), vec![0x1a, 0x05, 0x08, 0x05, 0x12, 0x01, b'x']);
}

#[test]
fn closed_enums_keep_undeclared_numbers_as_unknown_fields() {
    // color = 1 (declared), then color = 5 (not declared).
    let m = decode(&[0x40, 0x01, 0x40, 0x05]).unwrap();
    assert!(matches!(m.field_by_number(8), Some(Value::EnumNumber(1))));
    assert_eq!(m.encode_to_vec(), vec![0x40, 0x01, 0x40, 0x05]);
    // colors = [1, 5, -1] packed: the declared ones stay in the list.
    let mut bytes = vec![0x4a, 0x0c, 0x01, 0x05];
    bytes.extend([0xff; 9]);
    bytes.push(0x01);
    let m = decode(&bytes).unwrap();
    let mut expected = vec![0x4a, 0x0b, 0x01];
    expected.extend([0xff; 9]);
    expected.extend([0x01, 0x48, 0x05]);
    assert_eq!(m.encode_to_vec(), expected);
    // An entry with an undeclared number is kept whole.
    let entry = [0x52, 0x04, 0x08, 0x01, 0x10, 0x05];
    let m = decode(&entry).unwrap();
    assert!(m.field_by_number(10).is_none());
    assert_eq!(m.encode_to_vec(), entry.to_vec());
    // An open enum takes any number.
    let m = decode(&[0x38, 0x05]).unwrap();
    assert!(matches!(m.field_by_number(7), Some(Value::EnumNumber(5))));
}

#[test]
fn missing_parts_of_map_entries_are_defaults() {
    let m = decode(&[0x32, 0x00, 0x32, 0x02, 0x10, 0x07]).unwrap();
    assert_eq!(
        m.encode_to_vec(),
        vec![0x32, 0x04, 0x0a, 0x00, 0x10, 0x07]
    );
    // A family without a value holds a message with nothing set.
    let m = decode(&[0xe2, 0x01, 0x02, 0x08, 0x01]).unwrap();
    assert_eq!(
        m.encode_to_vec(),
        vec![0xe2, 0x01, 0x04, 0x08, 0x01, 0x12, 0x00]
    );
}

#[test]
fn a_default_for_want_of_a_value_may_not_be_read_again() {
    // 0 is no number of the closed enum: written out, it is unknown when it is
    // read again.
    let m = decode(&[0x52, 0x02, 0x08, 0x01]).unwrap();
    let bytes = m.encode_to_vec();
    assert_eq!(bytes, vec![0x52, 0x04, 0x08, 0x01, 0x10, 0x00]);
    let again = decode(&bytes).unwrap();
    assert!(again.field_by_number(10).is_none());
    assert_eq!(again.unknown_fields().len(), 1);
}

#[test]
fn maps_are_in_order_after_a_failure_too() {
    let mut m = empty();
    // Two entries out of order, then a broken tag.
    let bytes = [
        0x32, 0x05, 0x0a, 0x01, b'z', 0x10, 0x01, 0x32, 0x05, 0x0a, 0x01, b'a', 0x10, 0x02, 0x00,
    ];
    assert!(m.merge(&bytes).is_err());
    let Some(Value::Mapping(map)) = m.field_by_number(6) else {
        panic!("the entries that were read stay");
    };
    let keys: Vec<&str> = map
        .entries()
        .iter()
        .map(|(k, _)| match k {
            MapKey::String(s) => s.as_str(),
            _ => unreachable!(),
        })
        .collect();
    assert_eq!(keys, vec!["a", "z"]);
}

#[test]
fn every_error_of_decoding() {
    let err = |bytes: &[u8]| decode(bytes).err().unwrap();
    assert_eq!(err(&[0x08]), DecodeError::UnexpectedEof);
    assert_eq!(
        err(&[0x08, 0x80, 0x80, 0x80, 0x80, 0x80, 0x80, 0x80, 0x80, 0x80, 0x02]),
        DecodeError::VarintTooLong
    );
    assert_eq!(err(&[0x12, 0x05, b'a']), DecodeError::UnexpectedEof);
    assert_eq!(err(&[0x12, 0x01, 0xff]), DecodeError::InvalidUtf8);
    assert_eq!(err(&[0x0e]), DecodeError::InvalidWireType(6));
    assert_eq!(err(&[0x00]), DecodeError::InvalidFieldNumber);
    assert_eq!(err(&[0x73, 0x7c]), DecodeError::InvalidEndGroup(15));
    let options = DecodeOptions {
        recursion_limit: 1,
        max_message_size: 8,
        unknown_field_limit: 1,
        element_memory_limit: 0,
    };
    let with = |bytes: &[u8]| {
        DynamicMessage::decode_with_options(pool(), ALL, bytes, &options)
            .err()
            .unwrap()
    };
    assert_eq!(with(&[0; 9]), DecodeError::MessageTooLarge);
    assert_eq!(
        with(&[0x1a, 0x02, 0x1a, 0x00]),
        DecodeError::RecursionLimitExceeded
    );
    assert_eq!(
        with(&[0xf8, 0x3f, 0x01, 0xf8, 0x3f, 0x01]),
        DecodeError::UnknownFieldLimitExceeded
    );
    assert_eq!(
        with(&[0x20, 0x01]),
        DecodeError::ElementMemoryLimitExceeded
    );
    // The message in a map entry cannot be a varint.
    assert_eq!(
        err(&[0xe2, 0x01, 0x02, 0x10, 0x01]),
        DecodeError::WireTypeMismatch {
            field_number: 2,
            expected: 2,
            actual: 0
        }
    );
    assert_eq!(
        DecodeError::RecursionLimitExceeded.text(),
        buffa::DecodeError::RecursionLimitExceeded.to_string()
    );
    assert_eq!(
        DecodeError::InvalidEndGroup(15).text(),
        buffa::DecodeError::InvalidEndGroup(15).to_string()
    );
    assert_eq!(
        EncodeError::MessageTooLarge.text(),
        buffa::EncodeError::MessageTooLarge.to_string()
    );
}

#[test]
fn merging_keeps_the_type_and_the_unknown_fields() {
    let mut m = decode(&[0xf8, 0x3f, 0x05]).unwrap();
    m.merge(&[0xf8, 0x3f, 0x06, 0x08, 0x01]).unwrap();
    assert_eq!(m.message_index(), ALL);
    assert_eq!(
        m.encode_to_vec(),
        vec![0x08, 0x01, 0xf8, 0x3f, 0x05, 0xf8, 0x3f, 0x06]
    );
}

// ── Oneofs ──────────────────────────────────────────────────────────────────

#[test]
fn setting_a_member_clears_its_siblings() {
    let mut m = empty();
    set(&mut m, 1, Value::I32(4));
    set(&mut m, 11, Value::I32(1));
    set(&mut m, 12, string("x"));
    assert!(m.field_by_number(11).is_none());
    assert!(has(&m, 12) && has(&m, 1));
    let m = decode(&[0x58, 0x01, 0x62, 0x01, b'y', 0x58, 0x02]).unwrap();
    assert_eq!(m.encode_to_vec(), vec![0x58, 0x02]);
}

#[test]
fn a_member_that_fails_to_decode_leaves_its_sibling() {
    let mut m = decode(&[0x58, 0x01]).unwrap();
    assert!(m.merge(&[0x62, 0x01, 0xff]).is_err());
    assert!(matches!(m.field_by_number(11), Some(Value::I32(1))));
    assert!(m.field_by_number(12).is_none());
}

// ── Setting, reading, clearing ──────────────────────────────────────────────

#[test]
fn unset_fields_read_as_their_defaults() {
    let m = empty();
    let p = pool();
    let get = |n: u32| m.get(p.field_or_extension(ALL, n).unwrap());
    assert!(matches!(get(1), ValueRef::I32(0)));
    assert!(matches!(get(2), ValueRef::String("")));
    assert!(matches!(get(4), ValueRef::List(l) if l.is_empty()));
    assert!(matches!(get(6), ValueRef::Mapping(e) if e.is_empty()));
    assert!(matches!(get(8), ValueRef::EnumNumber(0)));
    assert!(matches!(get(15), ValueRef::F64(0)));
    assert!(matches!(get(17), ValueRef::Bytes(b) if b.is_empty()));
    match get(3) {
        ValueRef::Message(cow) => {
            assert_eq!(cow.message().field_count(), 0);
            assert_eq!(cow.message().message_index(), ALL);
        }
        _ => panic!("a message field reads as a message"),
    }
}

#[test]
fn what_was_set_is_read_and_cleared() {
    let mut m = empty();
    let p = pool();
    let num = p.message(ALL).field(1).unwrap();
    let text = p.message(ALL).field(2).unwrap();
    m.set(num, Value::I32(3));
    m.set(text, string("t"));
    assert!(matches!(m.get(num), ValueRef::I32(3)));
    if let Some(Value::I32(n)) = m.field_mut(num) {
        *n = 4;
    }
    assert!(matches!(m.get(num), ValueRef::I32(4)));
    let seen: Vec<u32> = m.for_each_set().iter().map(|(f, _)| f.number).collect();
    assert_eq!(seen, vec![1, 2]);
    m.clear(num);
    assert!(!m.has(num) && m.has(text));
    m.try_clear(num).unwrap();
    // Extensions are fields too.
    let ext = p.field_or_extension(ALL, 100).unwrap();
    m.set(ext, string("e"));
    assert_eq!(
        m.encode_to_vec(),
        vec![0x12, 0x01, b't', 0xa2, 0x06, 0x01, b'e']
    );
    assert!(m.field_descriptor_is_member(ext));
}

#[test]
fn foreign_descriptors_and_wrong_values_are_refused() {
    let mut m = empty();
    let p = pool();
    let foreign = p.message(MessageIndex(1)).field(1).unwrap();
    assert!(!m.field_descriptor_is_member(foreign));
    match m.try_set(foreign, string("u")) {
        Err(ReflectError::FieldNotMember { message, field }) => {
            assert_eq!((message.as_str(), field.as_str()), ("t.All", "type_url"));
        }
        _ => panic!("a field of another message is refused"),
    }
    assert!(matches!(
        m.try_clear(foreign),
        Err(ReflectError::FieldNotMember { .. })
    ));
    // So is the same field of another pool, and one that is just like it.
    let other = pool_named("t");
    assert!(!m.field_descriptor_is_member(other.message(ALL).field(4).unwrap()));
    let items = p.message(ALL).field(4).unwrap();
    let mut alike = field(4, "items", items.kind, items.presence);
    alike.packed = true;
    assert!(m.field_descriptor_is_member(items) && !m.field_descriptor_is_member(&alike));
    assert!(m.try_set(&alike, Value::List(vec![])).is_err());
    match m.try_set(items, Value::List(vec![string("x")])) {
        Err(ReflectError::WrongValueKind {
            message,
            field,
            expected,
            actual,
        }) => {
            assert_eq!((message.as_str(), field.as_str()), ("t.All", "items"));
            assert!(expected.contains("int32"), "{expected}");
            assert!(actual.contains("string"), "{actual}");
        }
        _ => panic!("a list of strings is refused"),
    }
    assert_eq!(m.field_count(), 0);
    assert!(validate_value_shape(items.kind, &Value::List(vec![Value::I32(1)]), &p).is_ok());
    assert_eq!(value_shape(&Value::Bool(true)), "bool");
}

#[test]
fn messages_of_another_pool_are_rebuilt_in_this_one() {
    let other = pool_named("t");
    let mut child = DynamicMessage::new(Arc::clone(&other), ALL);
    set(&mut child, 1, Value::I32(5));
    let mut m = empty();
    set(&mut m, 3, Value::Message(child.to_dynamic()));
    match m.field_by_number(3) {
        Some(Value::Message(x)) => assert!(Arc::ptr_eq(x.pool(), &pool())),
        _ => panic!("the child was taken in"),
    }
    assert_eq!(m.encode_to_vec(), vec![0x1a, 0x02, 0x08, 0x05]);
    set(
        &mut m,
        27,
        Value::List(vec![Value::Message(child.to_dynamic())]),
    );
    assert_eq!(m.encode_to_vec().len(), 9);
    // Another full name is another type.
    let stranger = DynamicMessage::new(pool_named("u"), ALL);
    let p = pool();
    let fd = p.message(ALL).field(3).unwrap();
    match m.try_set(fd, Value::Message(stranger)) {
        Err(ReflectError::WrongValueKind {
            expected, actual, ..
        }) => {
            assert_eq!(expected, "message t.All");
            assert_eq!(actual, "message u.All");
        }
        _ => panic!("another type is refused"),
    }
}

#[test]
fn equality_is_within_a_pool() {
    let mut a = empty();
    set(&mut a, 15, Value::F64(0.0f64.to_bits()));
    let mut b = empty();
    set(&mut b, 15, Value::F64((-0.0f64).to_bits()));
    assert!(a == b && b == a);
    assert!(a == a.clone() && b.clone() == a);
    set(&mut b, 15, Value::F64(f64::NAN.to_bits()));
    assert!(b != b.to_dynamic());
    let c = DynamicMessage::new(pool_named("t"), ALL);
    assert!(empty() != c);
    // Of unknown fields only the number counts.
    assert!(decode(&[0xf8, 0x3f, 0x05]).unwrap() == decode(&[0xf8, 0x3f, 0x06]).unwrap());
    assert!(decode(&[0xf8, 0x3f, 0x05]).unwrap() != empty());
}

#[test]
fn debug_output_leaves_redacted_values_out() {
    let mut m = empty();
    set(&mut m, 2, string("shown"));
    set(&mut m, 18, string("hidden"));
    let fields = m.redacted_fields();
    assert_eq!(fields.len(), 2);
    assert!(matches!(fields[0], (2, Some(Value::String(s))) if s == "shown"));
    assert!(matches!(fields[1], (18, None)));
}

#[test]
fn inconsistent_schemas_do_not_link() {
    let link = |change: fn(&mut Vec<MessageDescriptor>, &mut Vec<ExtensionDescriptor>)| {
        let (mut messages, enums, mut extensions) = descriptors("t");
        change(&mut messages, &mut extensions);
        DescriptorPool::link(messages, enums, extensions).is_some()
    };
    assert!(link(|_, _| {}));
    assert!(!link(|m, _| m[0].fields[0].number = 0));
    assert!(!link(|m, _| m[0].fields[0].number = 2));
    assert!(!link(|m, _| m[0].fields[0].kind =
        FieldKind::Singular(SingularKind::Message(MessageIndex(9)))));
    assert!(!link(|m, _| m[0].fields[5].kind = FieldKind::Mapping {
        key: ScalarType::Double,
        value: SingularKind::Scalar(ScalarType::Int32)
    }));
    assert!(!link(|m, _| m[0].fields[10].oneof_index = None));
    assert!(!link(|m, _| m[0].fields[0].oneof_index = Some(0)));
    assert!(!link(|_, e| e[0].field.oneof_index = Some(0)));
}

// ── Any ─────────────────────────────────────────────────────────────────────

#[test]
fn packing_and_unpacking() {
    let mut m = decode(&[0xf8, 0x3f, 0x05]).unwrap();
    set(&mut m, 2, string("inside"));
    let any = m.pack_any().unwrap();
    assert!(matches!(any.field_by_number(1),
        Some(Value::String(u)) if u == "type.googleapis.com/t.All"));
    assert!(matches!(any.field_by_number(2),
        Some(Value::Bytes(b)) if *b == m.encode_to_vec()));
    assert!(any.unpack_any().unwrap() == m);
    assert_eq!(any.unpack_any().unwrap().encode_to_vec(), m.encode_to_vec());
}

#[test]
fn entries_of_undeclared_numbers_are_unpacked_as_unknown_fields() {
    // The entry came without a value, and `t.Color` does not declare 0.
    let m = decode(&[0x52, 0x02, 0x08, 0x01]).unwrap();
    assert!(matches!(m.field_by_number(10), Some(Value::Mapping(e)) if e.len() == 1));
    let x = m.pack_any().unwrap().unpack_any().unwrap();
    assert!(Arc::ptr_eq(x.pool(), m.pool()));
    assert_eq!(x.message_index(), m.message_index());
    assert_eq!(x.field_count(), 0);
    assert_eq!(x.encode_to_vec(), m.encode_to_vec());
    // Declared numbers stay, and what was unknown before comes last.
    let m = decode(&[
        0x08, 0x05, 0x52, 0x02, 0x08, 0x01, 0x52, 0x04, 0x08, 0x02, 0x10, 0x02, 0x58, 0x07, 0xf8,
        0x3f, 0x05,
    ])
    .unwrap();
    let x = m.pack_any().unwrap().unpack_any().unwrap();
    assert!(matches!(x.field_by_number(10), Some(Value::Mapping(e)) if e.len() == 1));
    assert_eq!(
        x.encode_to_vec(),
        vec![
            0x08, 0x05, 0x52, 0x04, 0x08, 0x02, 0x10, 0x02, 0x58, 0x07, 0x52, 0x04, 0x08, 0x01,
            0x10, 0x00, 0xf8, 0x3f, 0x05
        ]
    );
    assert_eq!(x.encoded_len(), m.encoded_len());
    // The next time nothing changes.
    let y = x.pack_any().unwrap().unpack_any().unwrap();
    assert!(y == x);
    assert_eq!(y.encode_to_vec(), x.encode_to_vec());
}

#[test]
fn an_any_without_a_value_wraps_an_empty_message() {
    let p = pool();
    let mut any = DynamicMessage::new_by_name(p, "google.protobuf.Any").unwrap();
    set(&mut any, 1, string("anything/else/t.All"));
    let m = any.unpack_any().unwrap();
    assert_eq!(m.message_index(), ALL);
    assert_eq!(m.field_count(), 0);
}

#[test]
fn every_error_of_any() {
    let not_any = empty().unpack_any().err().unwrap();
    assert!(matches!(&not_any, AnyError::NotAny { full_name } if full_name == "t.All"));
    assert_eq!(not_any.text(), "not a google.protobuf.Any: t.All");
    let any = || DynamicMessage::new_by_name(pool(), "google.protobuf.Any").unwrap();
    let e = any().unpack_any().err().unwrap();
    assert!(matches!(e, AnyError::MissingTypeUrl));
    assert_eq!(e.text(), "Any has no type_url");
    let mut m = any();
    set(&mut m, 1, string("x/no.Such"));
    let e = m.unpack_any().err().unwrap();
    assert!(matches!(&e, AnyError::UnknownType { type_url } if type_url == "x/no.Such"));
    assert_eq!(
        e.text(),
        "Any type_url \"x/no.Such\" not registered in the pool"
    );
    let mut m = any();
    set(&mut m, 1, string("x/t.All"));
    set(&mut m, 2, Value::Bytes(vec![0x08]));
    let e = m.unpack_any().err().unwrap();
    assert!(matches!(
        &e,
        AnyError::Decode {
            source: DecodeError::UnexpectedEof,
            ..
        }
    ));
    assert_eq!(
        e.text(),
        format!(
            "Any value for \"x/t.All\" failed to decode: {}",
            buffa::DecodeError::UnexpectedEof
        )
    );
    let (mut messages, enums, extensions) = descriptors("t");
    messages.pop();
    let alone = Arc::new(DescriptorPool::link(messages, enums, extensions).unwrap());
    let e = DynamicMessage::new(alone, ALL).pack_any().err().unwrap();
    assert!(matches!(e, AnyError::AnyNotRegistered));
    assert_eq!(
        e.text(),
        "google.protobuf.Any is not registered in the pool"
    );
    assert_eq!(
        AnyError::MessageTooLarge.text(),
        "packed message exceeds the 2 GiB protobuf limit"
    );
}

// ── Bridges ─────────────────────────────────────────────────────────────────

#[test]
fn bridges_go_through_bytes() {
    let m = DynamicMessage::from_message(&[0x08, 0x05], pool(), ALL);
    assert!(matches!(m.field_by_number(1), Some(Value::I32(5))));
    let o = DynamicMessage::from_options(pool(), "t.All", Some(vec![0xa2, 0x06, 0x01, b'e']));
    let o = o.unwrap();
    assert!(matches!(o.field_by_number(100), Some(Value::String(s)) if s == "e"));
    assert!(DynamicMessage::from_options(pool(), "no.Such", Some(vec![])).is_none());
    assert!(DynamicMessage::from_options(pool(), "t.All", Some(vec![0x08])).is_none());
    assert!(DynamicMessage::from_options(pool(), "t.All", None).is_none());
    assert!(DynamicMessage::new_by_name(pool(), "no.Such").is_none());
}
