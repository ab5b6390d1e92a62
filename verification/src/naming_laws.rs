//! What things are called, what errors say, and which schemas are linked.
use vstd::prelude::*;
use crate::any::{any_error_text, any_type, bytes_at, text_at, AnyError, AnyErrorModel};
use crate::decode::{decoded, depth_options};
use crate::descriptor::{
    pool_admitted, DescriptorPool, EnumIndex, ExtensionDescriptor, FieldDescriptor, FieldKind,
    MessageDescriptor, MessageIndex, ScalarType, SingularKind,
};
use crate::from_json::{any_with, enum_from, field_named, plain_from};
use crate::json::{InputModel, JsonModel};
use crate::message::{refs_view, ReflectError, ReflectErrorModel};
use crate::shape::{
    full_name, key_shape_name, kind_name, scalar_name, shape_name, singular_name,
    ValueShapeMismatch,
};
use crate::text::{decimal_text, quoted_text};
use crate::to_json::{message_json, nested_json, too_deep, unknown_url};
use crate::value::{
    entries_view, field_get, fields_view, items_view, KeyModel, MapKey, MessageModel, Value,
    ValueModel,
};
use crate::wire::{decode_error_text, DecodeError};
use crate::wkt::{wkt_of, WktKind};

verus! {

// ── Names ───────────────────────────────────────────────────────────────────

/// A scalar type is called what it is called in a schema; an enum and a message
/// go by their full names.
pub proof fn law_type_names(s: ScalarType, kind: SingularKind, pool: DescriptorPool)
    ensures
        scalar_name(s) == match s {
            ScalarType::Double => "double"@,
            ScalarType::Float => "float"@,
            ScalarType::Int64 => "int64"@,
            ScalarType::Uint64 => "uint64"@,
            ScalarType::Int32 => "int32"@,
            ScalarType::Fixed64 => "fixed64"@,
            ScalarType::Fixed32 => "fixed32"@,
            ScalarType::Bool => "bool"@,
            ScalarType::String => "string"@,
            ScalarType::Bytes => "bytes"@,
            ScalarType::Uint32 => "uint32"@,
            ScalarType::Sfixed32 => "sfixed32"@,
            ScalarType::Sfixed64 => "sfixed64"@,
            ScalarType::Sint32 => "sint32"@,
            ScalarType::Sint64 => "sint64"@,
        },
        match kind {
            SingularKind::Scalar(t) => singular_name(kind, pool) == scalar_name(t),
            SingularKind::Enum(e) => singular_name(kind, pool) == "enum "@
                + pool.enum_seq()[e.0 as int].full_name@,
            SingularKind::Message(m) => singular_name(kind, pool) == "message "@
                + pool.message_seq()[m.0 as int].full_name@,
        },
{
}

/// A field of one element is called what the element is; a list and a map name
/// what they are of.
pub proof fn law_kind_names(kind: FieldKind, pool: DescriptorPool)
    ensures
        match kind {
            FieldKind::Singular(k) => kind_name(kind, pool) == singular_name(k, pool),
            FieldKind::List(k) => kind_name(kind, pool) == "list<"@ + singular_name(k, pool) + ">"@,
            FieldKind::Mapping { key, value } => kind_name(kind, pool) == "map<"@ + scalar_name(key)
                + ", "@ + singular_name(value, pool) + ">"@,
        },
{
}

/// What a value and a key are called.
pub proof fn law_shape_names(v: ValueModel, k: KeyModel, m: MessageModel)
    ensures
        match v {
            ValueModel::Bool(_) => shape_name(v) == "bool"@,
            ValueModel::I32(_) => shape_name(v) == "i32"@,
            ValueModel::I64(_) => shape_name(v) == "i64"@,
            ValueModel::U32(_) => shape_name(v) == "u32"@,
            ValueModel::U64(_) => shape_name(v) == "u64"@,
            ValueModel::F32(_) => shape_name(v) == "f32"@,
            ValueModel::F64(_) => shape_name(v) == "f64"@,
            ValueModel::Text(_) => shape_name(v) == "string"@,
            ValueModel::Bytes(_) => shape_name(v) == "bytes"@,
            ValueModel::EnumNumber(_) => shape_name(v) == "enum number"@,
            ValueModel::Message(x) => shape_name(v) == "message "@ + full_name(x),
            ValueModel::List(_) => shape_name(v) == "list"@,
            ValueModel::Mapping(_) => shape_name(v) == "map"@,
        },
        match k {
            KeyModel::Bool(_) => key_shape_name(k) == "bool"@,
            KeyModel::I32(_) => key_shape_name(k) == "i32"@,
            KeyModel::I64(_) => key_shape_name(k) == "i64"@,
            KeyModel::U32(_) => key_shape_name(k) == "u32"@,
            KeyModel::U64(_) => key_shape_name(k) == "u64"@,
            KeyModel::Text(_) => key_shape_name(k) == "string"@,
        },
        full_name(m) == m.pool.message_seq()[m.index.0 as int].full_name@,
{
}

// ── Errors ──────────────────────────────────────────────────────────────────

/// What an error of decoding says.
pub proof fn law_decode_error_texts(e: DecodeError)
    ensures
        match e {
            DecodeError::UnexpectedEof => decode_error_text(e) == "unexpected end of buffer"@,
            DecodeError::VarintTooLong => decode_error_text(e)
                == "varint exceeded maximum length of 10 bytes"@,
            DecodeError::InvalidWireType(w) => decode_error_text(e) == "invalid wire type: "@
                + decimal_text(w as nat),
            DecodeError::InvalidFieldNumber => decode_error_text(e) == "invalid field number"@,
            DecodeError::MessageTooLarge => decode_error_text(e)
                == "message length exceeds the size limit (2 GiB protobuf maximum, or a configured DecodeOptions limit)"@,
            DecodeError::WireTypeMismatch { field_number, expected, actual } => decode_error_text(e)
                == "wire type mismatch on field "@ + decimal_text(field_number as nat)
                + ": expected "@ + decimal_text(expected as nat) + ", got "@ + decimal_text(
                actual as nat,
            ),
            DecodeError::InvalidUtf8 => decode_error_text(e) == "invalid UTF-8 in string field"@,
            DecodeError::RecursionLimitExceeded => decode_error_text(e)
                == "recursion limit exceeded"@,
            DecodeError::InvalidEndGroup(n) => decode_error_text(e)
                == "invalid end-group tag: field number "@ + decimal_text(n as nat),
            DecodeError::UnknownFieldLimitExceeded => decode_error_text(e)
                == "unknown field limit exceeded"@,
            DecodeError::ElementMemoryLimitExceeded => decode_error_text(e)
                == "element memory limit exceeded"@,
        },
{
}

/// What an error of wrapping or unwrapping says.
pub proof fn law_any_error_texts(e: AnyErrorModel)
    ensures
        match e {
            AnyErrorModel::NotAny { full_name } => any_error_text(e)
                == "not a google.protobuf.Any: "@ + full_name,
            AnyErrorModel::AnyNotRegistered => any_error_text(e)
                == "google.protobuf.Any is not registered in the pool"@,
            AnyErrorModel::MissingTypeUrl => any_error_text(e) == "Any has no type_url"@,
            AnyErrorModel::MessageTooLarge => any_error_text(e)
                == "packed message exceeds the 2 GiB protobuf limit"@,
            AnyErrorModel::UnknownType { type_url } => any_error_text(e) == "Any type_url "@
                + quoted_text(type_url) + " not registered in the pool"@,
            AnyErrorModel::Decode { type_url, source } => any_error_text(e) == "Any value for "@
                + quoted_text(type_url) + " failed to decode: "@ + decode_error_text(source),
        },
{
}

/// What is said of a message that nests too deep to be written as JSON.
pub proof fn law_too_deep(m: MessageModel)
    ensures
        nested_json(m, 0) == Err::<JsonModel, Seq<char>>(
            "message nesting depth exceeds buffa::RECURSION_LIMIT (100)"@,
        ),
        too_deep() == "message nesting depth exceeds buffa::RECURSION_LIMIT (100)"@,
{
}

/// What is said of entries of a `Struct` and elements of a `ListValue` that are
/// none, of a number that JSON does not have, and of an `Any` that does not hold
/// a message.
pub proof fn law_json_texts(m: MessageModel, depth: nat)
    ensures
        wkt_of(full_name(m)) == Some(WktKind::Struct) ==> (field_get(
            m.fields,
            1,
        ) matches Some(ValueModel::Mapping(e)) ==> {
            &&& e.len() > 0 && !(e[0].0 is Text) ==> message_json(m, depth) == Err::<
                JsonModel,
                Seq<char>,
            >("Struct map key must be string"@)
            &&& e.len() > 0 && e[0].0 is Text && !(e[0].1 is Message) ==> message_json(m, depth)
                == Err::<JsonModel, Seq<char>>("Struct value must be message"@)
        }),
        wkt_of(full_name(m)) == Some(WktKind::ListValue) ==> (field_get(
            m.fields,
            1,
        ) matches Some(ValueModel::List(l)) ==> l.len() > 0 && !(l[0] is Message) ==> message_json(
            m,
            depth,
        ) == Err::<JsonModel, Seq<char>>("ListValue elem must be message"@)),
        wkt_of(full_name(m)) == Some(WktKind::JsonValue) && field_get(m.fields, 1) is None ==> (
        field_get(m.fields, 2) matches Some(ValueModel::F64(x)) ==> x % 0x8000_0000_0000_0000
            >= 0x7ff0_0000_0000_0000 ==> message_json(m, depth) == Err::<JsonModel, Seq<char>>(
            "google.protobuf.Value.number_value cannot represent NaN or Infinity in JSON"@,
        )),
        wkt_of(full_name(m)) == Some(WktKind::Any) && text_at(m, 1).len() > 0 ==> match any_type(
            m.pool,
            text_at(m, 1),
        ) {
            None => message_json(m, depth) == Err::<JsonModel, Seq<char>>(
                unknown_url(text_at(m, 1)),
            ),
            Some(i) => if depth == 0 {
                message_json(m, depth) == Err::<JsonModel, Seq<char>>(too_deep())
            } else {
                match decoded(m.pool, i, bytes_at(m, 2), depth_options((depth - 1) as u32)) {
                    Ok(_) => true,
                    Err(e) => message_json(m, depth) == Err::<JsonModel, Seq<char>>(
                        if e is RecursionLimitExceeded {
                            too_deep()
                        } else {
                            "Any inner decode failed: "@ + decode_error_text(e)
                        },
                    ),
                }
            },
        },
{
}

/// What is said of a member that no field has the name of, and of a name that an
/// enum does not declare.
pub proof fn law_unknown_names(
    m: MessageModel,
    key: Seq<char>,
    j: InputModel,
    pool: DescriptorPool,
    e: EnumIndex,
    t: Seq<char>,
)
    ensures
        field_named(m.pool.message_seq()[m.index.0 as int].fields@, key, 0) is None
            ==> plain_from(m, seq![(key, j)], 0, false) == Err::<MessageModel, Seq<char>>(
            "unknown field "@ + quoted_text(key),
        ),
        enum_from(pool, e, InputModel::Text(t)) matches Err(x) ==> x == "unknown enum value "@
            + quoted_text(t) + " for "@ + pool.enum_seq()[e.0 as int].full_name@,
{
    assert(seq![(key, j)][0] == (key, j));
}

/// What is said of the payload of an `Any` that was not read, and of a
/// `type_url` that names no type of the pool.
pub proof fn law_payload_texts(
    pool: DescriptorPool,
    index: MessageIndex,
    url: Seq<char>,
    e: Seq<char>,
)
    ensures
        any_with(pool, index, url, Err(e)) == Err::<MessageModel, Seq<char>>(
            "Any inner deserialize failed: "@ + e,
        ),
        unknown_url(url) == "Any type_url "@ + quoted_text(url)
            + " not registered in the descriptor pool"@,
{
}

/// What the errors of reflection stand for.
pub proof fn law_error_views(e: ReflectError, a: AnyError, s: ValueShapeMismatch)
    ensures
        match e {
            ReflectError::FieldNotMember { message, field } => (
            e@ matches ReflectErrorModel::FieldNotMember { message: x, field: y } && x == message@
                && y == field@),
            ReflectError::WrongValueKind { message, field, expected, actual } => (
            e@ matches ReflectErrorModel::WrongValueKind {
                message: x,
                field: y,
                expected: z,
                actual: w,
            } && x == message@ && y == field@ && z == expected@ && w == actual@),
        },
        match a {
            AnyError::NotAny { full_name } => (a@ matches AnyErrorModel::NotAny { full_name: x } && x
                == full_name@),
            AnyError::AnyNotRegistered => a@ is AnyNotRegistered,
            AnyError::MissingTypeUrl => a@ is MissingTypeUrl,
            AnyError::UnknownType { type_url } => (a@ matches AnyErrorModel::UnknownType {
                type_url: x,
            } && x == type_url@),
            AnyError::MessageTooLarge => a@ is MessageTooLarge,
            AnyError::Decode { type_url, source } => (a@ matches AnyErrorModel::Decode {
                type_url: x,
                source: y,
            } && x == type_url@ && y == source),
        },
        s@.expected == s.expected@,
        s@.actual == s.actual@,
{
}

/// Lists, maps and fields stand for their elements, one by one in their order.
pub proof fn law_sequence_views(
    a: Seq<Value>,
    b: Seq<(MapKey, Value)>,
    c: Seq<(u32, Value)>,
    d: Seq<(&FieldDescriptor, &Value)>,
)
    ensures
        items_view(a).len() == a.len(),
        forall|i: int| 0 <= i < a.len() ==> #[trigger] items_view(a)[i] == a[i]@,
        entries_view(b).len() == b.len(),
        forall|i: int|
            0 <= i < b.len() ==> (#[trigger] entries_view(b)[i]).0 == b[i].0@ && entries_view(
                b,
            )[i].1 == b[i].1@,
        fields_view(c).len() == c.len(),
        forall|i: int|
            0 <= i < c.len() ==> (#[trigger] fields_view(c)[i]).0 == c[i].0 && fields_view(c)[i].1
                == c[i].1@,
        refs_view(d).len() == d.len(),
        forall|i: int|
            0 <= i < d.len() ==> (#[trigger] refs_view(d)[i]).0 == *d[i].0 && refs_view(d)[i].1
                == d[i].1@,
{
}

// ── Schemas ─────────────────────────────────────────────────────────────────

/// The element is a scalar, or an enum or a message that is there.
pub open spec fn is_there(messages: nat, enums: nat, kind: SingularKind) -> bool {
    (kind matches SingularKind::Enum(e) ==> e.0 < enums) && (kind matches SingularKind::Message(m)
        ==> m.0 < messages)
}

/// The field has a number of 29 bits that is not zero and elements that are there,
/// and its keys are no floating-point numbers and no bytes.
pub open spec fn is_sound(messages: nat, enums: nat, f: FieldDescriptor) -> bool {
    &&& 0 < f.number < 0x2000_0000
    &&& f.kind matches FieldKind::Singular(k) ==> is_there(messages, enums, k)
    &&& f.kind matches FieldKind::List(k) ==> is_there(messages, enums, k)
    &&& f.kind matches FieldKind::Mapping { key, value } ==> is_there(messages, enums, value)
        && key != ScalarType::Double && key != ScalarType::Float && key != ScalarType::Bytes
}

/// Field `k` is a member of oneof `o` in the list of its members.
pub open spec fn is_listed(md: MessageDescriptor, o: int, k: int) -> bool {
    0 <= o < md.oneofs@.len() && exists|j: int|
        0 <= j < md.oneofs@[o].field_indices@.len()
            && #[trigger] md.oneofs@[o].field_indices@[j] == k
}

/// The fields of the message have different numbers, and the oneofs list exactly
/// the fields that name them, none of which is a list or a map.
pub open spec fn agrees(md: MessageDescriptor) -> bool {
    &&& forall|k: int, l: int|
        0 <= k < md.fields@.len() && 0 <= l < md.fields@.len() && (
        #[trigger] md.fields@[k]).number == (#[trigger] md.fields@[l]).number ==> k == l
    &&& forall|o: int, j: int|
        0 <= o < md.oneofs@.len() && 0 <= j < md.oneofs@[o].field_indices@.len() ==> {
            let k = #[trigger] md.oneofs@[o].field_indices@[j];
            k < md.fields@.len() && md.fields@[k as int].kind is Singular && (
            md.fields@[k as int].oneof_index matches Some(x) && x == o)
        }
    &&& forall|k: int|
        0 <= k < md.fields@.len() && (#[trigger] md.fields@[k]).oneof_index is Some ==> is_listed(
            md,
            md.fields@[k].oneof_index->Some_0 as int,
            k,
        )
}

/// A schema is linked exactly where every field and every extension is sound, the
/// fields and the oneofs of every message agree, and no extension names a oneof.
pub proof fn law_admitted(
    messages: Seq<MessageDescriptor>,
    enums: nat,
    extensions: Seq<ExtensionDescriptor>,
)
    ensures
        pool_admitted(messages, enums, extensions) <==> {
            &&& forall|i: int, j: int|
                0 <= i < messages.len() && 0 <= j < messages[i].fields@.len() ==> is_sound(
                    messages.len(),
                    enums,
                    #[trigger] messages[i].fields@[j],
                )
            &&& forall|i: int| 0 <= i < messages.len() ==> agrees(#[trigger] messages[i])
            &&& forall|i: int|
                0 <= i < extensions.len() ==> is_sound(
                    messages.len(),
                    enums,
                    (#[trigger] extensions[i]).field,
                ) && extensions[i].field.oneof_index is None
        },
{
    assert forall|md: MessageDescriptor| #[trigger]
        agrees(md) == crate::descriptor::consistent_message(md) by {
        lemma_agrees(md);
    }
    if pool_admitted(messages, enums, extensions) {
        assert forall|i: int, j: int|
            0 <= i < messages.len() && 0 <= j < messages[i].fields@.len() implies is_sound(
            messages.len(),
            enums,
            #[trigger] messages[i].fields@[j],
        ) by {
            assert(crate::descriptor::message_admitted(messages.len(), enums, messages[i]));
            assert(crate::descriptor::field_admitted(
                messages.len(),
                enums,
                messages[i].fields@[j],
            ));
        }
        assert forall|i: int| 0 <= i < messages.len() implies agrees(#[trigger] messages[i]) by {
            assert(crate::descriptor::message_admitted(messages.len(), enums, messages[i]));
        }
        assert forall|i: int| 0 <= i < extensions.len() implies is_sound(
            messages.len(),
            enums,
            (#[trigger] extensions[i]).field,
        ) && extensions[i].field.oneof_index is None by {
            assert(crate::descriptor::extension_admitted(messages.len(), enums, extensions[i]));
        }
    }
}

proof fn lemma_agrees(md: MessageDescriptor)
    ensures
        agrees(md) == crate::descriptor::consistent_message(md),
{
    if agrees(md) {
        assert forall|k: int| 0 <= k < md.fields@.len() implies
            crate::descriptor::listed_in_oneof(
            md,
            #[trigger] md.fields@[k].oneof_index,
            k,
        ) by {
            let f = md.fields@[k];
        }
        assert forall|o: int, j: int|
            0 <= o < md.oneofs@.len() && 0 <= j < md.oneofs@[o].field_indices@.len() implies
            crate::descriptor::names_oneof(
            md,
            o,
            #[trigger] md.oneofs@[o].field_indices@[j],
        ) by {}
    }
    if crate::descriptor::consistent_message(md) {
        assert forall|k: int|
            0 <= k < md.fields@.len() && (#[trigger] md.fields@[k]).oneof_index is Some implies
            is_listed(md, md.fields@[k].oneof_index->Some_0 as int, k) by {
            assert(crate::descriptor::listed_in_oneof(md, md.fields@[k].oneof_index, k));
        }
        assert forall|o: int, j: int|
            0 <= o < md.oneofs@.len() && 0 <= j < md.oneofs@[o].field_indices@.len() implies {
            let k = #[trigger] md.oneofs@[o].field_indices@[j];
            k < md.fields@.len() && md.fields@[k as int].kind is Singular && (
            md.fields@[k as int].oneof_index matches Some(x) && x == o)
        } by {
            assert(crate::descriptor::names_oneof(md, o, md.oneofs@[o].field_indices@[j]));
        }
        assert forall|k: int, l: int|
            0 <= k < md.fields@.len() && 0 <= l < md.fields@.len() && (
            #[trigger] md.fields@[k]).number == (#[trigger] md.fields@[l]).number implies k
            == l by {
            if k < l {
                assert(md.fields@[k].number != md.fields@[l].number);
            } else if l < k {
                assert(md.fields@[l].number != md.fields@[k].number);
            }
        }
    }
}

} // verus!
