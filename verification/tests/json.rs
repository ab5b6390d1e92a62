//! Messages as JSON and from JSON.
use std::sync::{Arc, OnceLock};

use proto_reflect::descriptor::{
    DescriptorPool, EnumDescriptor, EnumIndex, EnumType, EnumValueDescriptor, FieldDescriptor,
    FieldKind, FieldPresence, Identity, MessageDescriptor, MessageIndex, OneofDescriptor,
    ScalarType, SingularKind,
};
use proto_reflect::json::{Json, JsonInput, JsonInteger, JsonNumber};
use proto_reflect::map::MapValue;
use proto_reflect::value::{DynamicMessage, MapKey, Value};
use proto_reflect::wkt::{field_mask_to_camel, field_mask_to_snake, parse_field_mask, WktKind};

const NAMES: [&str; 17] = [
    "google.protobuf.Any",
    "google.protobuf.Timestamp",
    "google.protobuf.Duration",
    "google.protobuf.FieldMask",
    "google.protobuf.Empty",
    "google.protobuf.Struct",
    "google.protobuf.Value",
    "google.protobuf.ListValue",
    "google.protobuf.DoubleValue",
    "google.protobuf.FloatValue",
    "google.protobuf.Int64Value",
    "google.protobuf.UInt64Value",
    "google.protobuf.Int32Value",
    "google.protobuf.UInt32Value",
    "google.protobuf.BoolValue",
    "google.protobuf.StringValue",
    "google.protobuf.BytesValue",
];

fn scalar(s: ScalarType) -> FieldKind {
    FieldKind::Singular(SingularKind::Scalar(s))
}

fn message(i: usize) -> SingularKind {
    SingularKind::Message(MessageIndex(i))
}

fn field(number: u32, name: &str, json_name: &str, kind: FieldKind) -> FieldDescriptor {
    FieldDescriptor {
        identity: Identity::new(),
        number,
        name: name.to_string(),
        json_name: json_name.to_string(),
        kind,
        presence: FieldPresence::Explicit,
        oneof_index: None,
        delimited: false,
        packed: false,
        enum_type: None,
        debug_redact: false,
    }
}

/// The well-known types, and `t.Plain`.
fn messages() -> Vec<MessageDescriptor> {
    let text = scalar(ScalarType::String);
    let wrapped = |s| vec![field(1, "value", "value", scalar(s))];
    let stamp = || {
        vec![
            field(1, "seconds", "seconds", scalar(ScalarType::Int64)),
            field(2, "nanos", "nanos", scalar(ScalarType::Int32)),
        ]
    };
    let null = SingularKind::Enum(EnumIndex(0));
    let color = SingularKind::Enum(EnumIndex(1));
    let plain = vec![
        field(1, "num", "num", scalar(ScalarType::Int32)),
        field(2, "long_name", "longName", text),
        field(3, "child", "child", FieldKind::Singular(message(17))),
        field(
            4,
            "items",
            "items",
            FieldKind::List(SingularKind::Scalar(ScalarType::Int64)),
        ),
        field(
            5,
            "counts",
            "counts",
            FieldKind::Mapping {
                key: ScalarType::Bool,
                value: SingularKind::Scalar(ScalarType::Int32),
            },
        ),
        field(6, "color", "color", FieldKind::Singular(color)),
        field(7, "null", "null", FieldKind::Singular(null)),
        field(8, "any", "any", FieldKind::Singular(message(0))),
        field(9, "dynamic", "dynamic", FieldKind::Singular(message(6))),
        field(10, "ratio", "ratio", scalar(ScalarType::Double)),
        field(11, "small", "small", scalar(ScalarType::Float)),
        field(12, "raw", "raw", scalar(ScalarType::Bytes)),
        field(13, "big", "big", scalar(ScalarType::Uint64)),
        field(14, "flag", "flag", scalar(ScalarType::Bool)),
        field(
            15,
            "ids",
            "ids",
            FieldKind::Mapping {
                key: ScalarType::Int64,
                value: color,
            },
        ),
        field(16, "mid", "mid", scalar(ScalarType::Uint32)),
    ];
    let mut value_fields = vec![
        field(1, "null_value", "nullValue", FieldKind::Singular(null)),
        field(2, "number_value", "numberValue", scalar(ScalarType::Double)),
        field(3, "string_value", "stringValue", text),
        field(4, "bool_value", "boolValue", scalar(ScalarType::Bool)),
        field(5, "struct_value", "structValue", FieldKind::Singular(message(5))),
        field(6, "list_value", "listValue", FieldKind::Singular(message(7))),
    ];
    for f in value_fields.iter_mut() {
        f.oneof_index = Some(0);
    }
    let bodies = vec![
        vec![
            field(1, "type_url", "typeUrl", text),
            field(2, "value", "value", scalar(ScalarType::Bytes)),
        ],
        stamp(),
        stamp(),
        vec![field(
            1,
            "paths",
            "paths",
            FieldKind::List(SingularKind::Scalar(ScalarType::String)),
        )],
        vec![],
        vec![field(
            1,
            "fields",
            "fields",
            FieldKind::Mapping {
                key: ScalarType::String,
                value: message(6),
            },
        )],
        value_fields,
        vec![field(1, "values", "values", FieldKind::List(message(6)))],
        wrapped(ScalarType::Double),
        wrapped(ScalarType::Float),
        wrapped(ScalarType::Int64),
        wrapped(ScalarType::Uint64),
        wrapped(ScalarType::Int32),
        wrapped(ScalarType::Uint32),
        wrapped(ScalarType::Bool),
        wrapped(ScalarType::String),
        wrapped(ScalarType::Bytes),
        plain,
    ];
    let mut out: Vec<MessageDescriptor> = Vec::new();
    for (i, fields) in bodies.into_iter().enumerate() {
        out.push(MessageDescriptor {
            full_name: NAMES.get(i).unwrap_or(&"t.Plain").to_string(),
            fields,
            oneofs: if i == 6 {
                vec![OneofDescriptor {
                    name: "kind".to_string(),
                    field_indices: vec![0, 1, 2, 3, 4, 5],
                }]
            } else {
                vec![]
            },
            extension_ranges: vec![],
        });
    }
    out
}

fn value(name: &str, number: i32) -> EnumValueDescriptor {
    EnumValueDescriptor {
        name: name.to_string(),
        number,
    }
}

fn link(messages: Vec<MessageDescriptor>) -> Arc<DescriptorPool> {
    let enums = vec![
        EnumDescriptor {
            full_name: "google.protobuf.NullValue".to_string(),
            enum_type: EnumType::Open,
            values: vec![value("NULL_VALUE", 0)],
        },
        EnumDescriptor {
            full_name: "t.Color".to_string(),
            enum_type: EnumType::Open,
            values: vec![value("NONE", 0), value("RED", 1)],
        },
    ];
    Arc::new(DescriptorPool::link(messages, enums, vec![]).expect("the schema links"))
}

/// The one pool of the tests that need no other.
fn pool() -> Arc<DescriptorPool> {
    static POOL: OnceLock<Arc<DescriptorPool>> = OnceLock::new();
    Arc::clone(POOL.get_or_init(|| link(messages())))
}

fn new(name: &str) -> DynamicMessage {
    DynamicMessage::new_by_name(pool(), name).unwrap()
}

fn with(name: &str, fields: Vec<(u32, Value)>) -> DynamicMessage {
    let mut m = new(name);
    let p = Arc::clone(m.pool());
    for (n, v) in fields {
        let fd = p.field_or_extension(m.message_index(), n).unwrap();
        m.try_set(fd, v).expect("the value fits");
    }
    m
}

fn string(s: &str) -> Value {
    Value::String(s.to_string())
}

/// JSON as text.
fn render(j: &Json) -> String {
    match j {
        Json::Null => "null".to_string(),
        Json::Bool(b) => b.to_string(),
        Json::Int(n) => n.to_string(),
        Json::Double(bits) => serde_json::to_string(&f64::from_bits(*bits)).unwrap(),
        Json::Float(bits) => serde_json::to_string(&f32::from_bits(*bits)).unwrap(),
        Json::Text(t) => serde_json::to_string(t).unwrap(),
        Json::Array(items) => {
            let parts: Vec<String> = items.iter().map(render).collect();
            format!("[{}]", parts.join(","))
        }
        Json::Object(members) => {
            let parts: Vec<String> = members
                .iter()
                .map(|(k, v)| format!("{}:{}", serde_json::to_string(k).unwrap(), render(v)))
                .collect();
            format!("{{{}}}", parts.join(","))
        }
    }
}

fn json(m: &DynamicMessage) -> String {
    render(&m.to_json().unwrap())
}

fn json_error(m: &DynamicMessage) -> String {
    m.to_json().err().unwrap().text
}

/// A JSON text as the library reads it.
fn input(text: &str) -> JsonInput {
    convert(&serde_json::from_str(text).unwrap())
}

fn convert(v: &serde_json::Value) -> JsonInput {
    match v {
        serde_json::Value::Null => JsonInput::Null,
        serde_json::Value::Bool(b) => JsonInput::Bool(*b),
        serde_json::Value::Number(n) => {
            let double = n.as_f64().unwrap();
            let integer = if let Some(x) = n.as_i64() {
                Some(JsonInteger::Signed(x))
            } else {
                n.as_u64().map(JsonInteger::Unsigned)
            };
            let single = double as f32;
            JsonInput::Number(JsonNumber {
                integer,
                double: double.to_bits(),
                single: if single.is_finite() {
                    Some(single.to_bits())
                } else {
                    None
                },
            })
        }
        serde_json::Value::String(s) => JsonInput::Text(s.clone()),
        serde_json::Value::Array(a) => JsonInput::Array(a.iter().map(convert).collect()),
        serde_json::Value::Object(o) => JsonInput::Object(
            o.iter()
                .map(|(k, v)| (k.clone(), convert(v)))
                .collect(),
        ),
    }
}

fn read(name: &str, text: &str) -> Result<DynamicMessage, String> {
    read_input(name, &input(text), false)
}

fn read_lenient(name: &str, text: &str) -> Result<DynamicMessage, String> {
    read_input(name, &input(text), true)
}

fn read_input(name: &str, j: &JsonInput, lenient: bool) -> Result<DynamicMessage, String> {
    let p = pool();
    let i = p.message_index(name).unwrap();
    DynamicMessage::from_json(p, i, j, lenient).map_err(|e| e.text)
}

fn error(name: &str, text: &str) -> String {
    read(name, text).err().unwrap()
}

/// What is written is read back as the same message.
fn goes_both_ways(m: &DynamicMessage, text: &str) {
    assert_eq!(json(m), text);
    let name = m.message_descriptor().full_name.clone();
    let back = read(&name, text).unwrap();
    assert!(back == *m, "{text}");
}

// ── Well-known types ────────────────────────────────────────────────────────

#[test]
fn names_of_the_well_known_types() {
    for name in NAMES {
        assert!(WktKind::from_full_name(name).is_some(), "{name}");
    }
    assert_eq!(WktKind::from_full_name("google.protobuf.NullValue"), None);
    assert_eq!(
        WktKind::from_full_name("google.protobuf.UInt32Value"),
        Some(WktKind::Wrapper(ScalarType::Uint32))
    );
    assert!(!WktKind::Empty.uses_any_value_wrapping());
    assert!(WktKind::Any.uses_any_value_wrapping());
}

#[test]
fn timestamps() {
    let ts = |s: i64, n: i32| {
        let mut fields = vec![];
        if s != 0 {
            fields.push((1, Value::I64(s)));
        }
        if n != 0 {
            fields.push((2, Value::I32(n)));
        }
        with("google.protobuf.Timestamp", fields)
    };
    goes_both_ways(&ts(0, 0), "\"1970-01-01T00:00:00Z\"");
    goes_both_ways(&ts(-1, 500_000_000), "\"1969-12-31T23:59:59.500Z\"");
    goes_both_ways(&ts(1_609_459_200, 1), "\"2021-01-01T00:00:00.000000001Z\"");
    goes_both_ways(&ts(253_402_300_799, 0), "\"9999-12-31T23:59:59Z\"");
    goes_both_ways(&ts(-62_135_596_800, 0), "\"0001-01-01T00:00:00Z\"");
    assert_eq!(
        json_error(&ts(253_402_300_800, 0)),
        "Timestamp seconds out of range"
    );
    assert_eq!(json_error(&ts(0, -1)), "Timestamp nanos out of range");
    assert_eq!(
        error("google.protobuf.Timestamp", "\"2021-01-01\""),
        "malformed timezone offset"
    );
    assert_eq!(error("google.protobuf.Timestamp", "5"), "expected a string");
    // An offset is applied.
    let m = read("google.protobuf.Timestamp", "\"1970-01-01T01:00:00+01:00\"").unwrap();
    assert!(m == ts(0, 0));
}

#[test]
fn durations() {
    let d = |s: i64, n: i32| {
        let mut fields = vec![];
        if s != 0 {
            fields.push((1, Value::I64(s)));
        }
        if n != 0 {
            fields.push((2, Value::I32(n)));
        }
        with("google.protobuf.Duration", fields)
    };
    goes_both_ways(&d(0, 0), "\"0s\"");
    goes_both_ways(&d(3, 500_000_000), "\"3.500s\"");
    goes_both_ways(&d(0, -1_000), "\"-0.000001s\"");
    goes_both_ways(&d(-315_576_000_000, 0), "\"-315576000000s\"");
    assert_eq!(
        json_error(&d(1, -1)),
        "Duration seconds and nanos have opposite signs"
    );
    assert_eq!(
        error("google.protobuf.Duration", "\"1\""),
        "missing 's' suffix"
    );
    assert_eq!(error("google.protobuf.Duration", "null"), "expected a string");
}

#[test]
fn field_masks() {
    let mask = |paths: &[&str]| {
        with(
            "google.protobuf.FieldMask",
            vec![(1, Value::List(paths.iter().map(|p| string(p)).collect()))],
        )
    };
    goes_both_ways(&mask(&["foo_bar.baz", "qux"]), "\"fooBar.baz,qux\"");
    goes_both_ways(&mask(&[]), "\"\"");
    goes_both_ways(&mask(&["*"]), "\"*\"");
    assert_eq!(
        json_error(&mask(&["ok", "foo__bar"])),
        "FieldMask path does not round-trip through camelCase"
    );
    assert_eq!(
        error("google.protobuf.FieldMask", "\"foo_bar\""),
        "FieldMask JSON path is not canonical lowerCamelCase"
    );
    assert_eq!(error("google.protobuf.FieldMask", "[]"), "expected a string");
    // White space around a path is dropped.
    assert_eq!(
        parse_field_mask(" fooBar ,\u{3000}x\t").unwrap(),
        vec!["foo_bar".to_string(), "x".to_string()]
    );
    assert_eq!(field_mask_to_camel("a_b").unwrap(), "aB");
    assert_eq!(field_mask_to_snake("aB").unwrap(), "a_b");
    assert!(field_mask_to_camel("aB").is_err());
    for path in ["a", "_a", "a1_b.c_d", "*"] {
        let camel = field_mask_to_camel(path).unwrap();
        assert_eq!(field_mask_to_snake(&camel).unwrap(), path);
    }
    for path in ["", "a.", ".a", "a..b", "1a", "a.1", "a-b", "a b", "\u{e9}", "_", "a_1", "a.*"] {
        assert!(field_mask_to_camel(path).is_err(), "{path}");
    }
}

#[test]
fn empty_is_an_object_without_members() {
    goes_both_ways(&new("google.protobuf.Empty"), "{}");
    assert_eq!(
        error("google.protobuf.Empty", "{\"a\":1}"),
        "unexpected field on Empty"
    );
    assert_eq!(
        error("google.protobuf.Empty", "null"),
        "expected an empty object"
    );
}

#[test]
fn wrappers() {
    let w = |name: &str, v: Value| with(&format!("google.protobuf.{name}"), vec![(1, v)]);
    goes_both_ways(&w("Int32Value", Value::I32(-5)), "-5");
    goes_both_ways(&w("UInt32Value", Value::U32(u32::MAX)), "4294967295");
    goes_both_ways(&w("Int64Value", Value::I64(i64::MIN)), "\"-9223372036854775808\"");
    goes_both_ways(&w("UInt64Value", Value::U64(u64::MAX)), "\"18446744073709551615\"");
    goes_both_ways(&w("BoolValue", Value::Bool(true)), "true");
    goes_both_ways(&w("StringValue", string("\"q\"")), "\"\\\"q\\\"\"");
    goes_both_ways(&w("BytesValue", Value::Bytes(vec![0xfb, 0xff])), "\"+/8=\"");
    goes_both_ways(&w("DoubleValue", Value::F64(1.5f64.to_bits())), "1.5");
    goes_both_ways(
        &w("DoubleValue", Value::F64(f64::NEG_INFINITY.to_bits())),
        "\"-Infinity\"",
    );
    goes_both_ways(&w("FloatValue", Value::F32(0.5f32.to_bits())), "0.5");
    goes_both_ways(
        &w("FloatValue", Value::F32(f32::INFINITY.to_bits())),
        "\"Infinity\"",
    );
    assert_eq!(json(&w("DoubleValue", Value::F64(f64::NAN.to_bits()))), "\"NaN\"");
    assert_eq!(json(&w("FloatValue", Value::F32(f32::NAN.to_bits()))), "\"NaN\"");
    // Nothing set is the default.
    assert_eq!(json(&new("google.protobuf.Int64Value")), "\"0\"");
    assert_eq!(json(&new("google.protobuf.StringValue")), "\"\"");
}

#[test]
fn scalars_from_json() {
    let ok = |name: &str, text: &str| read(&format!("google.protobuf.{name}"), text).unwrap();
    let one = |m: &DynamicMessage| m.field_by_number(1).unwrap().copy();
    assert!(matches!(one(&ok("Int32Value", "\"12\"")), Value::I32(12)));
    assert!(matches!(one(&ok("Int32Value", "null")), Value::I32(0)));
    assert!(matches!(one(&ok("Int64Value", "12")), Value::I64(12)));
    assert!(matches!(one(&ok("UInt64Value", "\"7\"")), Value::U64(7)));
    assert!(matches!(one(&ok("BytesValue", "\"-_8\"")), Value::Bytes(b) if b == vec![0xfb, 0xff]));
    assert!(matches!(one(&ok("DoubleValue", "\"2.5\"")), Value::F64(x) if x == 2.5f64.to_bits()));
    assert!(matches!(one(&ok("FloatValue", "\"2.5\"")), Value::F32(x) if x == 2.5f32.to_bits()));
    assert!(
        matches!(one(&ok("DoubleValue", "\"NaN\"")), Value::F64(x) if f64::from_bits(x).is_nan())
    );
    let bad = |name: &str, text: &str| error(&format!("google.protobuf.{name}"), text);
    assert_eq!(
        bad("Int32Value", "2147483648"),
        "expected an i32 as integer, string, float, or null"
    );
    assert_eq!(
        bad("UInt32Value", "-1"),
        "expected a u32 as integer, string, float, or null"
    );
    assert_eq!(
        bad("Int64Value", "\"x\""),
        "expected an i64 as a quoted decimal string, integer, float, or null"
    );
    assert_eq!(
        bad("UInt64Value", "-1"),
        "expected a u64 as a quoted decimal string, integer, float, or null"
    );
    assert_eq!(bad("BoolValue", "\"true\""), "expected a boolean or null");
    assert_eq!(bad("StringValue", "1"), "expected a string or null");
    assert_eq!(
        bad("BytesValue", "\"*\""),
        "expected a base64-encoded string, or null"
    );
    assert_eq!(bad("DoubleValue", "true"), "expected a double, or null");
    assert_eq!(bad("FloatValue", "1e300"), "expected a float, or null");
}

#[test]
fn dynamic_values() {
    let text = "{\"a\":[null,1.5,\"x\",true,{}],\"b\":{\"c\":[]}}";
    for name in ["google.protobuf.Value", "google.protobuf.Struct"] {
        let m = read(name, text).unwrap();
        assert_eq!(json(&m), text);
        assert!(read(name, &json(&m)).unwrap() == m);
    }
    let m = read("google.protobuf.ListValue", "[1,[2]]").unwrap();
    assert_eq!(json(&m), "[1.0,[2.0]]");
    assert_eq!(json(&new("google.protobuf.Value")), "null");
    assert_eq!(json(&new("google.protobuf.Struct")), "{}");
    assert_eq!(json(&new("google.protobuf.ListValue")), "[]");
    let null = read("google.protobuf.Value", "null").unwrap();
    assert!(matches!(null.field_by_number(1), Some(Value::EnumNumber(0))));
    for bits in [f64::NAN.to_bits(), f64::INFINITY.to_bits()] {
        assert_eq!(
            json_error(&with("google.protobuf.Value", vec![(2, Value::F64(bits))])),
            "google.protobuf.Value.number_value cannot represent NaN or Infinity in JSON"
        );
    }
    assert_eq!(
        error("google.protobuf.Struct", "[]"),
        "expected a JSON object"
    );
    assert_eq!(
        error("google.protobuf.ListValue", "{}"),
        "expected a JSON array"
    );
    // The members may stand in any order; they are kept by key.
    let object = JsonInput::Object(vec![
        ("b".to_string(), input("1")),
        ("c".to_string(), input("[]")),
        ("a".to_string(), JsonInput::Null),
    ]);
    let m = read_input("google.protobuf.Value", &object, false).unwrap();
    assert_eq!(json(&m), "{\"a\":null,\"b\":1.0,\"c\":[]}");
    // Of two members with the same key the later one counts.
    let twice = JsonInput::Object(vec![
        ("k".to_string(), JsonInput::Bool(true)),
        ("k".to_string(), JsonInput::Null),
    ]);
    let m = read_input("google.protobuf.Struct", &twice, false).unwrap();
    assert_eq!(json(&m), "{\"k\":null}");
}

#[test]
fn dynamic_values_of_another_shape_are_refused() {
    let mut m = with(
        "google.protobuf.ListValue",
        vec![(1, Value::List(vec![Value::Message(new("google.protobuf.Value"))]))],
    );
    if let Some(v) = m.field_by_number_mut(1) {
        *v = Value::List(vec![Value::Bool(true)]);
    }
    assert_eq!(json_error(&m), "ListValue elem must be message");
    let mut m = with(
        "google.protobuf.Struct",
        vec![(1, Value::Mapping(MapValue::new()))],
    );
    if let Some(v) = m.field_by_number_mut(1) {
        *v = Value::Mapping(MapValue::from_entries(vec![(
            MapKey::I32(1),
            Value::Bool(true),
        )]));
    }
    assert_eq!(json_error(&m), "Struct map key must be string");
    if let Some(v) = m.field_by_number_mut(1) {
        *v = Value::Mapping(MapValue::from_entries(vec![(
            MapKey::String("k".to_string()),
            Value::Bool(true),
        )]));
    }
    assert_eq!(json_error(&m), "Struct value must be message");
}

#[test]
fn dynamic_values_need_their_types_in_the_pool() {
    let reads = |without: &str, j: &JsonInput, name: &str| {
        let mut all = messages();
        for m in all.iter_mut() {
            if m.full_name == without {
                m.full_name = "gone".to_string();
            }
        }
        let p = link(all);
        let i = p.message_index(name).unwrap();
        DynamicMessage::from_json(p, i, j, false).err().unwrap().text
    };
    let value = "google.protobuf.Value";
    let list = input("[]");
    let object = input("{}");
    assert_eq!(reads("google.protobuf.ListValue", &list, value), "ListValue not in pool");
    assert_eq!(reads("google.protobuf.Struct", &object, value), "Struct not in pool");
    assert_eq!(reads(value, &list, "google.protobuf.ListValue"), "Value not in pool");
    assert_eq!(reads(value, &object, "google.protobuf.Struct"), "Value not in pool");
}

// ── Plain messages ──────────────────────────────────────────────────────────

#[test]
fn plain_messages() {
    let entries = vec![
        (MapKey::Bool(true), Value::I32(1)),
        (MapKey::Bool(false), Value::I32(2)),
    ];
    let ids = vec![(MapKey::I64(-4), Value::EnumNumber(1))];
    let m = with(
        "t.Plain",
        vec![
            (1, Value::I32(-1)),
            (2, string("x")),
            (3, Value::Message(with("t.Plain", vec![(14, Value::Bool(false))]))),
            (4, Value::List(vec![Value::I64(1), Value::I64(-2)])),
            (5, Value::Mapping(MapValue::from_entries(entries))),
            (6, Value::EnumNumber(1)),
            (7, Value::EnumNumber(0)),
            (9, Value::Message(with("google.protobuf.Value", vec![(4, Value::Bool(true))]))),
            (10, Value::F64(2.0f64.to_bits())),
            (11, Value::F32(0.25f32.to_bits())),
            (12, Value::Bytes(vec![1])),
            (13, Value::U64(5)),
            (15, Value::Mapping(MapValue::from_entries(ids))),
            (16, Value::U32(9)),
        ],
    );
    goes_both_ways(
        &m,
        "{\"num\":-1,\"longName\":\"x\",\"child\":{\"flag\":false},\"items\":[\"1\",\"-2\"],\
         \"counts\":{\"false\":2,\"true\":1},\"color\":\"RED\",\"null\":null,\"dynamic\":true,\
         \"ratio\":2.0,\"small\":0.25,\"raw\":\"AQ==\",\"big\":\"5\",\"ids\":{\"-4\":\"RED\"},\
         \"mid\":9}",
    );
    // A number without a name is written as a number.
    let m = with("t.Plain", vec![(6, Value::EnumNumber(7))]);
    goes_both_ways(&m, "{\"color\":7}");
}

#[test]
fn fields_that_are_not_set_have_no_member() {
    let mut all = messages();
    let last = all.len() - 1;
    all[last].fields[0].presence = FieldPresence::Implicit;
    let name = all[last].full_name.clone();
    let p = link(all);
    let mut m = DynamicMessage::new_by_name(Arc::clone(&p), &name).unwrap();
    let num = &p.message(m.message_index()).fields[0];
    m.set(num, Value::I32(0));
    assert_eq!(json(&m), "{}");
    m.set(num, Value::I32(1));
    assert_eq!(json(&m), "{\"num\":1}");
    m.clear(num);
    assert_eq!(json(&m), "{}");
    // With presence the default is a value like any other.
    assert_eq!(json(&with(&name, vec![(1, Value::I32(0))])), "{\"num\":0}");
}

#[test]
fn a_value_of_another_shape_is_null() {
    let mut m = with("t.Plain", vec![(4, Value::List(vec![Value::I64(1)]))]);
    if let Some(v) = m.field_by_number_mut(4) {
        *v = Value::List(vec![Value::Bool(true)]);
    }
    assert_eq!(json(&m), "{\"items\":null}");
}

#[test]
fn what_is_read_is_in_order() {
    let m = read("t.Plain", "{\"longName\":\"x\",\"num\":1,\"child\":{}}").unwrap();
    let numbers: Vec<u32> = (0..m.field_count()).map(|i| m.field_entry(i).0).collect();
    assert_eq!(numbers, vec![1, 2, 3]);
}

#[test]
fn reading_plain_messages() {
    // Names are accepted beside JSON names, and null leaves a field unset.
    let m = read("t.Plain", "{\"long_name\":\"x\",\"num\":null,\"items\":null,\"null\":null}");
    assert_eq!(json(&m.unwrap()), "{\"longName\":\"x\",\"null\":null}");
    assert_eq!(error("t.Plain", "{\"nope\":1}"), "unknown field \"nope\"");
    let m = read_lenient("t.Plain", "{\"nope\":1,\"child\":{\"nope\":2},\"num\":3}").unwrap();
    assert_eq!(json(&m), "{\"num\":3,\"child\":{}}");
    assert_eq!(error("t.Plain", "[]"), "expected a JSON object");
    assert_eq!(error("t.Plain", "{\"items\":{}}"), "expected a JSON array");
    assert_eq!(error("t.Plain", "{\"counts\":[]}"), "expected a JSON object");
    assert_eq!(error("t.Plain", "{\"items\":[null]}"), "null is no element");
    assert_eq!(
        error("t.Plain", "{\"counts\":{\"yes\":1}}"),
        "expected \"true\" or \"false\""
    );
    assert_eq!(
        error("t.Plain", "{\"color\":\"GREEN\"}"),
        "unknown enum value \"GREEN\" for t.Color"
    );
    assert_eq!(
        error("t.Plain", "{\"color\":true}"),
        "expected an enum name or number"
    );
    assert_eq!(
        error("t.Plain", "{\"ids\":{\"x\":0}}"),
        "expected an i64 as a quoted decimal string, integer, float, or null"
    );
}

// ── Any ─────────────────────────────────────────────────────────────────────

fn wrap(m: &DynamicMessage) -> DynamicMessage {
    let any = m.pack_any().unwrap();
    with("t.Plain", vec![(8, Value::Message(any))])
}

#[test]
fn any_spreads_plain_messages_and_wraps_the_others() {
    let m = wrap(&with("t.Plain", vec![(1, Value::I32(5))]));
    goes_both_ways(
        &m,
        "{\"any\":{\"@type\":\"type.googleapis.com/t.Plain\",\"num\":5}}",
    );
    let m = wrap(&with("google.protobuf.Duration", vec![(1, Value::I64(2))]));
    goes_both_ways(
        &m,
        "{\"any\":{\"@type\":\"type.googleapis.com/google.protobuf.Duration\",\"value\":\"2s\"}}",
    );
    let m = wrap(&new("google.protobuf.Empty"));
    goes_both_ways(
        &m,
        "{\"any\":{\"@type\":\"type.googleapis.com/google.protobuf.Empty\"}}",
    );
    goes_both_ways(&new("google.protobuf.Any"), "{}");
}

#[test]
fn the_type_of_an_any_may_stand_anywhere() {
    for place in 0..3 {
        let mut members = vec![
            ("num".to_string(), input("5")),
            ("longName".to_string(), input("\"x\"")),
        ];
        members.insert(place, ("@type".to_string(), input("\"u/t.Plain\"")));
        let object = JsonInput::Object(members);
        let m = read_input("google.protobuf.Any", &object, false).unwrap();
        assert_eq!(
            json(&m),
            "{\"@type\":\"u/t.Plain\",\"num\":5,\"longName\":\"x\"}"
        );
        assert_eq!(m.field_count(), 2);
        assert!(matches!(m.field_by_number(1), Some(Value::String(u)) if u == "u/t.Plain"));
    }
}

#[test]
fn any_members_are_read_in_the_order_of_their_keys() {
    // Of equal keys the last value counts, also inside what is wrapped.
    let inner = JsonInput::Object(vec![
        ("num".to_string(), input("1")),
        ("num".to_string(), input("2")),
    ]);
    let object = JsonInput::Object(vec![
        ("child".to_string(), inner),
        ("@type".to_string(), input("\"x\"")),
        ("@type".to_string(), input("\"t.Plain\"")),
    ]);
    let m = read_input("google.protobuf.Any", &object, false).unwrap();
    assert_eq!(json(&m), "{\"@type\":\"t.Plain\",\"child\":{\"num\":2}}");
    // The first key in order is the one that is complained of.
    let object = JsonInput::Object(vec![
        ("z".to_string(), JsonInput::Null),
        ("b".to_string(), JsonInput::Null),
        ("value".to_string(), input("\"1s\"")),
        ("@type".to_string(), input("\"google.protobuf.Duration\"")),
    ]);
    assert_eq!(
        read_input("google.protobuf.Any", &object, false).err().unwrap(),
        "unknown field \"b\" in Any wrapper for \"google.protobuf.Duration\""
    );
    assert!(read_input("google.protobuf.Any", &object, true).is_ok());
}

#[test]
fn what_is_not_finite_is_null_inside_an_any() {
    let infinite = || {
        JsonInput::Number(JsonNumber {
            integer: None,
            double: f64::INFINITY.to_bits(),
            single: None,
        })
    };
    let object = JsonInput::Object(vec![
        ("value".to_string(), infinite()),
        (
            "@type".to_string(),
            input("\"google.protobuf.DoubleValue\""),
        ),
    ]);
    let m = read_input("google.protobuf.Any", &object, false).unwrap();
    assert_eq!(
        json(&m),
        "{\"@type\":\"google.protobuf.DoubleValue\",\"value\":0.0}"
    );
    let m = read_input("google.protobuf.DoubleValue", &infinite(), false).unwrap();
    assert_eq!(json(&m), "\"Infinity\"");
}

#[test]
fn every_error_of_any_in_json() {
    let any = "google.protobuf.Any";
    let fields = |url: &str, bytes: Vec<u8>| {
        with(any, vec![(1, string(url)), (2, Value::Bytes(bytes))])
    };
    assert_eq!(
        json_error(&fields("x/no.Such", vec![])),
        "Any type_url \"x/no.Such\" not registered in the descriptor pool"
    );
    assert_eq!(
        json_error(&fields("t.Plain", vec![0x08])),
        format!(
            "Any inner decode failed: {}",
            buffa::DecodeError::UnexpectedEof
        )
    );
    assert_eq!(
        error(any, "{\"num\":1}"),
        "Any object missing string \"@type\""
    );
    assert_eq!(
        error(any, "{\"@type\":1}"),
        "Any object missing string \"@type\""
    );
    assert_eq!(
        error(any, "{\"@type\":\"no.Such\"}"),
        "Any type_url \"no.Such\" not registered in the descriptor pool"
    );
    assert_eq!(
        error(any, "{\"@type\":\"google.protobuf.Duration\"}"),
        "Any with WKT type \"google.protobuf.Duration\" requires a \"value\" key"
    );
    assert_eq!(
        error(any, "{\"@type\":\"t.Plain\",\"nope\":1}"),
        "Any inner deserialize failed: unknown field \"nope\""
    );
    assert_eq!(
        error(any, "{\"@type\":\"google.protobuf.Empty\",\"nope\":1}"),
        "Any inner deserialize failed: unexpected field on Empty"
    );
    assert!(read_lenient(any, "{\"@type\":\"t.Plain\",\"nope\":1}").is_ok());
    assert_eq!(error(any, "null"), "expected a JSON object");
}

#[test]
fn what_is_written_nests_within_the_bound() {
    fn depth(j: &Json) -> usize {
        match j {
            Json::Array(a) => 1 + a.iter().map(depth).max().unwrap_or(0),
            Json::Object(o) => 1 + o.iter().map(|(_, x)| depth(x)).max().unwrap_or(0),
            _ => 0,
        }
    }
    let mut m = new("t.Plain");
    for _ in 0..100 {
        m = with("t.Plain", vec![(3, Value::Message(m))]);
    }
    assert_eq!(depth(&m.to_json().unwrap()), 101);
    let m = with("t.Plain", vec![(3, Value::Message(m))]);
    assert_eq!(
        json_error(&m),
        "message nesting depth exceeds buffa::RECURSION_LIMIT (100)"
    );
}
