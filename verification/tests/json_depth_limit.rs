//! Writing JSON bounds nesting across `google.protobuf.Any`: what nests too
//! deep in the bytes of an `Any` is an error, as it is anywhere else.
use std::sync::Arc;

use buffa::encoding::encode_varint;
use buffa::RECURSION_LIMIT;
use proto_reflect::descriptor::{
    DescriptorPool, FieldDescriptor, FieldKind, FieldPresence, Identity, MessageDescriptor,
    MessageIndex, ScalarType, SingularKind,
};
use proto_reflect::json::{Json, JsonError};
use proto_reflect::value::{DynamicMessage, Value};

const ANY_URL: &str = "type.googleapis.com/google.protobuf.Any";
const ENVELOPE_URL: &str = "type.googleapis.com/reflect.opt.Envelope";
const DESCRIPTOR_PROTO_URL: &str = "type.googleapis.com/google.protobuf.DescriptorProto";

const LIMIT: usize = RECURSION_LIMIT as usize;

fn field(number: u32, name: &str, json_name: &str, kind: FieldKind) -> FieldDescriptor {
    FieldDescriptor {
        identity: Identity::new(),
        number,
        name: name.to_string(),
        json_name: json_name.to_string(),
        kind,
        presence: FieldPresence::Explicit,
        oneof_index: None,
        delimited: false,
        packed: false,
        enum_type: None,
        debug_redact: false,
    }
}

fn message(full_name: &str, fields: Vec<FieldDescriptor>) -> MessageDescriptor {
    MessageDescriptor {
        full_name: full_name.to_string(),
        fields,
        oneofs: vec![],
        extension_ranges: vec![],
    }
}

/// `google.protobuf.Any`, `google.protobuf.DescriptorProto` with its name and
/// its nested types, and `reflect.opt.Envelope { Any payload = 1; }`.
fn pool() -> Arc<DescriptorPool> {
    let text = FieldKind::Singular(SingularKind::Scalar(ScalarType::String));
    let bytes = FieldKind::Singular(SingularKind::Scalar(ScalarType::Bytes));
    let messages = vec![
        message(
            "google.protobuf.Any",
            vec![
                field(1, "type_url", "typeUrl", text),
                field(2, "value", "value", bytes),
            ],
        ),
        message(
            "google.protobuf.DescriptorProto",
            vec![
                field(1, "name", "name", text),
                field(
                    3,
                    "nested_type",
                    "nestedType",
                    FieldKind::List(SingularKind::Message(MessageIndex(1))),
                ),
            ],
        ),
        message(
            "reflect.opt.Envelope",
            vec![field(
                1,
                "payload",
                "payload",
                FieldKind::Singular(SingularKind::Message(MessageIndex(0))),
            )],
        ),
    ];
    Arc::new(DescriptorPool::link(messages, vec![], vec![]).expect("the schema links"))
}

/// JSON as text.
fn render(j: &Json, out: &mut String) {
    match j {
        Json::Null => out.push_str("null"),
        Json::Bool(b) => out.push_str(if *b { "true" } else { "false" }),
        Json::Int(n) => out.push_str(&n.to_string()),
        Json::Double(bits) => {
            out.push_str(&serde_json::to_string(&f64::from_bits(*bits)).unwrap())
        }
        Json::Float(bits) => out.push_str(&serde_json::to_string(&f32::from_bits(*bits)).unwrap()),
        Json::Text(t) => out.push_str(&serde_json::to_string(t).unwrap()),
        Json::Array(items) => {
            out.push('[');
            for (i, x) in items.iter().enumerate() {
                if i > 0 {
                    out.push(',');
                }
                render(x, out);
            }
            out.push(']');
        }
        Json::Object(members) => {
            out.push('{');
            for (i, (k, x)) in members.iter().enumerate() {
                if i > 0 {
                    out.push(',');
                }
                out.push_str(&serde_json::to_string(k).unwrap());
                out.push(':');
                render(x, out);
            }
            out.push('}');
        }
    }
}

fn text_of(msg: &DynamicMessage) -> Result<String, JsonError> {
    let j = msg.to_json()?;
    let mut out = String::new();
    render(&j, &mut out);
    Ok(out)
}

/// One nesting layer: `head` bytes, then a length-delimited payload holding
/// the next layer. The innermost payload is empty.
struct Frame(Vec<u8>);

impl Frame {
    /// `google.protobuf.Any { type_url = url; value = <next> }`.
    fn any(url: &str) -> Self {
        let mut head = vec![0x0A];
        encode_varint(url.len() as u64, &mut head);
        head.extend_from_slice(url.as_bytes());
        head.push(0x12);
        Self(head)
    }
    /// `reflect.opt.Envelope { payload = <next> }`.
    fn envelope() -> Self {
        Self(vec![0x0A])
    }
    /// `google.protobuf.DescriptorProto { nested_type = [<next>] }`.
    fn descriptor_proto() -> Self {
        Self(vec![0x1A])
    }
}

/// Encode `frames` outermost-first: sizes are computed inside-out, then the
/// buffer is written top-down.
fn encode_nested(frames: &[Frame]) -> Vec<u8> {
    let mut payload_len = vec![0usize; frames.len() + 1];
    for (i, Frame(head)) in frames.iter().enumerate().rev() {
        let inner = payload_len[i + 1];
        payload_len[i] = head.len() + varint_len(inner) + inner;
    }
    let mut out = Vec::with_capacity(payload_len[0]);
    for (i, Frame(head)) in frames.iter().enumerate() {
        out.extend_from_slice(head);
        encode_varint(payload_len[i + 1] as u64, &mut out);
    }
    assert_eq!(out.len(), payload_len[0]);
    out
}

fn varint_len(n: usize) -> usize {
    let mut buf = Vec::new();
    encode_varint(n as u64, &mut buf);
    buf.len()
}

fn to_json(full_name: &str, bytes: &[u8]) -> Result<String, JsonError> {
    let p = pool();
    let idx = p.message_index(full_name).unwrap();
    let msg = DynamicMessage::decode(p, idx, bytes)
        .expect("binary decode succeeds: Any payloads are opaque to it");
    text_of(&msg)
}

fn assert_too_deep(result: Result<String, JsonError>) {
    let err = result.expect_err("over-deep nesting must be an error, not a stack overflow");
    let text = err.text;
    let needle = format!("nesting depth exceeds buffa::RECURSION_LIMIT ({RECURSION_LIMIT})");
    assert!(text.contains(&needle), "unexpected error: {text}");
}

#[test]
fn deeply_nested_any_is_an_error_not_an_abort() {
    // About 20k layers in well under 1 MB.
    let frames: Vec<Frame> = (0..20_000).map(|_| Frame::any(ANY_URL)).collect();
    let bytes = encode_nested(&frames);
    assert!(bytes.len() < 1024 * 1024, "{} bytes", bytes.len());
    assert_too_deep(to_json("google.protobuf.Any", &bytes));
}

#[test]
fn any_nesting_at_the_limit_serializes() {
    // Any#1 is the top-level message and free; each payload below it costs
    // one level, like a nested message field. LIMIT frames + the trailing
    // empty Any = exactly LIMIT levels below the top.
    let frames: Vec<Frame> = (0..LIMIT).map(|_| Frame::any(ANY_URL)).collect();
    let json = to_json("google.protobuf.Any", &encode_nested(&frames)).expect("at limit");
    assert_eq!(json.matches("\"@type\"").count(), LIMIT);
    assert!(
        json.ends_with(&format!("{{}}{}", "}".repeat(LIMIT))),
        "{json}"
    );

    let frames: Vec<Frame> = (0..=LIMIT).map(|_| Frame::any(ANY_URL)).collect();
    assert_too_deep(to_json("google.protobuf.Any", &encode_nested(&frames)));
}

#[test]
fn any_spreading_a_plain_message_shares_one_budget() {
    // Envelope → Any → Envelope → Any → …: the common "Any wraps a user
    // message" (field-spread) form. Each pair costs two levels — the Any
    // field, then its payload — so LIMIT/2 pairs sit exactly at the limit.
    let pairs = |n: usize| -> Vec<Frame> {
        (0..n)
            .flat_map(|_| [Frame::envelope(), Frame::any(ENVELOPE_URL)])
            .collect()
    };
    let json =
        to_json("reflect.opt.Envelope", &encode_nested(&pairs(LIMIT / 2))).expect("at limit");
    assert_eq!(json.matches("\"payload\"").count(), LIMIT / 2);

    // One more Envelope with a payload field: LIMIT + 1, caught by the inner
    // decode running at zero remaining depth.
    let mut over = pairs(LIMIT / 2);
    over.push(Frame::envelope());
    assert_too_deep(to_json("reflect.opt.Envelope", &encode_nested(&over)));

    // And far past it, cheaply.
    assert_too_deep(to_json(
        "reflect.opt.Envelope",
        &encode_nested(&pairs(5_000)),
    ));
}

#[test]
fn programmatically_built_over_deep_message_is_an_error() {
    // No Any involved: a message assembled one level deeper than `decode`
    // would accept trips the same budget on the plain nested-message path.
    let p = pool();
    let idx = p.message_index("google.protobuf.DescriptorProto").unwrap();
    let nested_type = p.message(idx).field(3).unwrap();
    let build = |levels: usize| {
        let mut msg = DynamicMessage::new(Arc::clone(&p), idx);
        for _ in 0..levels {
            let mut outer = DynamicMessage::new(Arc::clone(&p), idx);
            outer.set(nested_type, Value::List(vec![Value::Message(msg)]));
            msg = outer;
        }
        msg
    };
    text_of(&build(LIMIT)).expect("at limit");
    assert_too_deep(text_of(&build(LIMIT + 1)));
}

#[test]
fn any_payload_decode_continues_the_outer_budget() {
    // A DescriptorProto nested RECURSION_LIMIT deep decodes fine on its own…
    let limit = LIMIT;
    let chain: Vec<Frame> = (0..limit).map(|_| Frame::descriptor_proto()).collect();
    to_json("google.protobuf.DescriptorProto", &encode_nested(&chain)).expect("standalone");

    // …but wrapped in a single Any it sits one level deeper, and the inner
    // decode runs on the remaining budget rather than a fresh one — reported
    // as the same nesting error, not as a decode failure.
    let mut wrapped = vec![Frame::any(DESCRIPTOR_PROTO_URL)];
    wrapped.extend(chain);
    assert_too_deep(to_json("google.protobuf.Any", &encode_nested(&wrapped)));

    // One level shallower fits again.
    wrapped.pop();
    to_json("google.protobuf.Any", &encode_nested(&wrapped)).expect("fits when one shallower");
}
