//! Messages from JSON.
use std::sync::Arc;
use vstd::prelude::*;
use crate::any::{any_type, resolve_any_type};
use crate::buffered::{
    buffer_members, buffered_members, height, lemma_buffered_members_height, lemma_element_height,
    lemma_member_at, lemma_member_height, lemma_remove_height, member_at, remove_member,
};
use crate::descriptor::{
    index_of, kind_linked, pool_of, share_pool, singular_linked, DescriptorPool, EnumIndex,
    EnumValueDescriptor, FieldDescriptor, FieldKind, MessageIndex, ScalarType, SingularKind,
};
use crate::encode::message_bytes;
use crate::json::{
    deserialize_scalar, input_scalar, inputs_view, members_view, InputModel, JsonError, JsonInput,
    JsonInteger,
};
use crate::map::{normal_entries, MapValue};
use crate::merge::clear_oneof;
use crate::scalar::value_key;
use crate::text::{join2, join3, quoted, quoted_text, same_text};
use crate::to_json::unknown_url;
use crate::value::{
    empty_message, entries_view, items_view, with_field, DynamicMessage, KeyModel, MapKey,
    MessageModel, Value, ValueModel,
};
use crate::wire::MAX_MESSAGE_BYTES;
use crate::wkt::{
    mask_paths, parse_duration, parse_field_mask, parse_timestamp, parsed_duration,
    parsed_timestamp, strings_view, wkt_of, WktKind,
};

verus! {

// ── What JSON says ──────────────────────────────────────────────────────────

/// The position, from `i` on, of the first field that has the key in JSON or
/// as its name.
pub open spec fn field_named(fields: Seq<FieldDescriptor>, key: Seq<char>, i: nat) -> Option<nat>
    decreases fields.len() - i,
{
    if i >= fields.len() {
        None
    } else if fields[i as int].json_name@ == key || fields[i as int].name@ == key {
        Some(i)
    } else {
        field_named(fields, key, i + 1)
    }
}

/// The position, from `i` on, of the first number under the name.
pub open spec fn name_at(values: Seq<EnumValueDescriptor>, name: Seq<char>, i: nat) -> Option<nat>
    decreases values.len() - i,
{
    if i >= values.len() {
        None
    } else if values[i as int].name@ == name {
        Some(i)
    } else {
        name_at(values, name, i + 1)
    }
}

/// What an enum value is in JSON: a name, a number or, for
/// `google.protobuf.NullValue`, null.
pub open spec fn enum_from(pool: DescriptorPool, e: EnumIndex, j: InputModel) -> Result<
    ValueModel,
    Seq<char>,
> {
    let ed = pool.enum_seq()[e.0 as int];
    match j {
        InputModel::Null => if ed.full_name@ == "google.protobuf.NullValue"@ {
            Ok(ValueModel::EnumNumber(0))
        } else {
            Err("expected an enum name or number"@)
        },
        InputModel::Text(t) => match name_at(ed.values@, t, 0) {
            Some(i) => Ok(ValueModel::EnumNumber(ed.values@[i as int].number)),
            None => Err("unknown enum value "@ + quoted_text(t) + " for "@ + ed.full_name@),
        },
        InputModel::Number(n) => match n.integer {
            Some(JsonInteger::Signed(x)) => if i32::MIN <= x <= i32::MAX {
                Ok(ValueModel::EnumNumber(x as i32))
            } else {
                Err("expected an enum name or number"@)
            },
            Some(JsonInteger::Unsigned(x)) => if x <= i32::MAX {
                Ok(ValueModel::EnumNumber(x as i32))
            } else {
                Err("expected an enum name or number"@)
            },
            None => Err("expected an enum name or number"@),
        },
        _ => Err("expected an enum name or number"@),
    }
}

/// The map key that the key of an object spells.
pub open spec fn key_from(s: ScalarType, t: Seq<char>) -> Result<KeyModel, Seq<char>> {
    if s is Bool {
        if t == "true"@ {
            Ok(KeyModel::Bool(true))
        } else if t == "false"@ {
            Ok(KeyModel::Bool(false))
        } else {
            Err("expected \"true\" or \"false\""@)
        }
    } else {
        match input_scalar(s, InputModel::Text(t)) {
            Ok(v) => Ok(value_key(v)),
            Err(e) => Err(e),
        }
    }
}

/// Null is a value of the element, not the absence of one.
pub open spec fn takes_null(pool: DescriptorPool, kind: SingularKind) -> bool {
    match kind {
        SingularKind::Scalar(_) => false,
        SingularKind::Enum(e) => pool.enum_seq()[e.0 as int].full_name@
            == "google.protobuf.NullValue"@,
        SingularKind::Message(m) => wkt_of(pool.message_seq()[m.0 as int].full_name@) == Some(
            WktKind::JsonValue,
        ),
    }
}

/// A message of two numbers, each left out where it is zero.
pub open spec fn two_fields(pool: DescriptorPool, index: MessageIndex, secs: i64, nanos: i32) ->
    MessageModel {
    let m = empty_message(pool, index);
    let m = if secs != 0 {
        with_field(m, 1, ValueModel::I64(secs))
    } else {
        m
    };
    if nanos != 0 {
        with_field(m, 2, ValueModel::I32(nanos))
    } else {
        m
    }
}

/// Strings as the values of a list.
pub open spec fn text_values(s: Seq<Seq<char>>) -> Seq<ValueModel> {
    Seq::new(s.len(), |i: int| ValueModel::Text(s[i]))
}

/// The message that a JSON value stands for. Keys that the message does not
/// have are passed over where `lenient`.
pub open spec fn message_from(
    pool: DescriptorPool,
    index: MessageIndex,
    j: InputModel,
    lenient: bool,
) -> Result<MessageModel, Seq<char>>
    decreases height(j), 6nat, 0nat,
{
    match wkt_of(pool.message_seq()[index.0 as int].full_name@) {
        Some(w) => wkt_from(w, pool, index, j, lenient),
        None => match j {
            InputModel::Object(o) => plain_from(empty_message(pool, index), o, 0, lenient),
            _ => Err("expected a JSON object"@),
        },
    }
}

/// The message with what the members, from the `i`-th on, set in it.
pub open spec fn plain_from(
    m: MessageModel,
    o: Seq<(Seq<char>, InputModel)>,
    i: nat,
    lenient: bool,
) -> Result<MessageModel, Seq<char>>
    decreases height(InputModel::Object(o)), 3nat, o.len() - i,
{
    let fields = m.pool.message_seq()[m.index.0 as int].fields@;
    if i >= o.len() {
        Ok(m)
    } else {
        proof {
            lemma_member_height(o, i as int);
        }
        match field_named(fields, o[i as int].0, 0) {
            None => if lenient {
                plain_from(m, o, i + 1, lenient)
            } else {
                Err("unknown field "@ + quoted_text(o[i as int].0))
            },
            Some(k) => {
                let fd = fields[k as int];
                match field_from(m.pool, fd.kind, o[i as int].1, lenient) {
                    Err(e) => Err(e),
                    Ok(None) => plain_from(m, o, i + 1, lenient),
                    Ok(Some(v)) => plain_from(
                        with_field(clear_oneof(m, fd.oneof_index, fd.number), fd.number, v),
                        o,
                        i + 1,
                        lenient,
                    ),
                }
            },
        }
    }
}

/// The value of a field; none where null leaves it out.
pub open spec fn field_from(
    pool: DescriptorPool,
    kind: FieldKind,
    j: InputModel,
    lenient: bool,
) -> Result<Option<ValueModel>, Seq<char>>
    decreases height(j), 9nat, 0nat,
{
    match kind {
        FieldKind::Singular(k) => if j is Null && !takes_null(pool, k) {
            Ok(None)
        } else {
            match element_from(pool, k, j, lenient) {
                Ok(v) => Ok(Some(v)),
                Err(e) => Err(e),
            }
        },
        FieldKind::List(k) => match j {
            InputModel::Null => Ok(None),
            InputModel::Array(a) => match items_from(pool, k, a, 0, lenient) {
                Ok(l) => Ok(Some(ValueModel::List(l))),
                Err(e) => Err(e),
            },
            _ => Err("expected a JSON array"@),
        },
        FieldKind::Mapping { key, value } => match j {
            InputModel::Null => Ok(None),
            InputModel::Object(o) => match entries_from(pool, key, value, o, 0, lenient) {
                Ok(e) => Ok(Some(ValueModel::Mapping(normal_entries(e)))),
                Err(e) => Err(e),
            },
            _ => Err("expected a JSON object"@),
        },
    }
}

/// An element.
pub open spec fn element_from(
    pool: DescriptorPool,
    kind: SingularKind,
    j: InputModel,
    lenient: bool,
) -> Result<ValueModel, Seq<char>>
    decreases height(j), 7nat, 0nat,
{
    if j is Null && !takes_null(pool, kind) {
        Err("null is no element"@)
    } else {
        match kind {
            SingularKind::Scalar(s) => input_scalar(s, j),
            SingularKind::Enum(e) => enum_from(pool, e, j),
            SingularKind::Message(i) => match message_from(pool, i, j, lenient) {
                Ok(m) => Ok(ValueModel::Message(m)),
                Err(e) => Err(e),
            },
        }
    }
}

/// The elements of a list, from the `i`-th on.
pub open spec fn items_from(
    pool: DescriptorPool,
    kind: SingularKind,
    a: Seq<InputModel>,
    i: nat,
    lenient: bool,
) -> Result<Seq<ValueModel>, Seq<char>>
    decreases height(InputModel::Array(a)), 8nat, a.len() - i,
{
    if i >= a.len() {
        Ok(Seq::empty())
    } else {
        proof {
            lemma_element_height(a, i as int);
        }
        match element_from(pool, kind, a[i as int], lenient) {
            Err(e) => Err(e),
            Ok(v) => match items_from(pool, kind, a, i + 1, lenient) {
                Err(e) => Err(e),
                Ok(rest) => Ok(seq![v] + rest),
            },
        }
    }
}

/// The entries of a map, from the `i`-th on, as they were given.
pub open spec fn entries_from(
    pool: DescriptorPool,
    key: ScalarType,
    kind: SingularKind,
    o: Seq<(Seq<char>, InputModel)>,
    i: nat,
    lenient: bool,
) -> Result<Seq<(KeyModel, ValueModel)>, Seq<char>>
    decreases height(InputModel::Object(o)), 8nat, o.len() - i,
{
    if i >= o.len() {
        Ok(Seq::empty())
    } else {
        proof {
            lemma_member_height(o, i as int);
        }
        match key_from(key, o[i as int].0) {
            Err(e) => Err(e),
            Ok(k) => match element_from(pool, kind, o[i as int].1, lenient) {
                Err(e) => Err(e),
                Ok(v) => match entries_from(pool, key, kind, o, i + 1, lenient) {
                    Err(e) => Err(e),
                    Ok(rest) => Ok(seq![(k, v)] + rest),
                },
            },
        }
    }
}

/// The message of a well-known type that a JSON value stands for.
pub open spec fn wkt_from(
    w: WktKind,
    pool: DescriptorPool,
    index: MessageIndex,
    j: InputModel,
    lenient: bool,
) -> Result<MessageModel, Seq<char>>
    decreases height(j), 5nat, 0nat,
{
    match w {
        WktKind::Any => match j {
            InputModel::Object(o) => any_from(pool, index, o, lenient),
            _ => Err("expected a JSON object"@),
        },
        WktKind::Timestamp => match j {
            InputModel::Text(s) => match parsed_timestamp(s) {
                Ok(p) => Ok(two_fields(pool, index, p.0, p.1)),
                Err(e) => Err(e),
            },
            _ => Err("expected a string"@),
        },
        WktKind::Duration => match j {
            InputModel::Text(s) => match parsed_duration(s) {
                Ok(p) => Ok(two_fields(pool, index, p.0, p.1)),
                Err(e) => Err(e),
            },
            _ => Err("expected a string"@),
        },
        WktKind::FieldMask => match j {
            InputModel::Text(s) => match mask_paths(s) {
                Ok(p) => Ok(
                    with_field(empty_message(pool, index), 1, ValueModel::List(text_values(p))),
                ),
                Err(e) => Err(e),
            },
            _ => Err("expected a string"@),
        },
        WktKind::Empty => match j {
            InputModel::Object(o) => empty_from(pool, index, o),
            _ => Err("expected an empty object"@),
        },
        WktKind::Wrapper(s) => match input_scalar(s, j) {
            Ok(v) => Ok(with_field(empty_message(pool, index), 1, v)),
            Err(e) => Err(e),
        },
        WktKind::Struct => match j {
            InputModel::Object(o) => struct_from(pool, index, o),
            _ => Err("expected a JSON object"@),
        },
        WktKind::ListValue => match j {
            InputModel::Array(a) => list_from(pool, index, a),
            _ => Err("expected a JSON array"@),
        },
        WktKind::JsonValue => dynamic_from(pool, index, j),
    }
}

/// An `Empty`: an object without members.
pub open spec fn empty_from(
    pool: DescriptorPool,
    index: MessageIndex,
    o: Seq<(Seq<char>, InputModel)>,
) -> Result<MessageModel, Seq<char>> {
    if o.len() == 0 {
        Ok(empty_message(pool, index))
    } else {
        Err("unexpected field on Empty"@)
    }
}

/// A `google.protobuf.Value`: any JSON value.
pub open spec fn dynamic_from(pool: DescriptorPool, index: MessageIndex, j: InputModel) -> Result<
    MessageModel,
    Seq<char>,
>
    decreases height(j), 4nat, 0nat,
{
    let m = empty_message(pool, index);
    match j {
        InputModel::Null => Ok(with_field(m, 1, ValueModel::EnumNumber(0))),
        InputModel::Bool(b) => Ok(with_field(m, 4, ValueModel::Bool(b))),
        InputModel::Number(n) => Ok(with_field(m, 2, ValueModel::F64(n.double))),
        InputModel::Text(s) => Ok(with_field(m, 3, ValueModel::Text(s))),
        InputModel::Array(a) => match index_of(pool, "google.protobuf.ListValue"@) {
            None => Err("ListValue not in pool"@),
            Some(i) => match list_from(pool, i, a) {
                Ok(x) => Ok(with_field(m, 6, ValueModel::Message(x))),
                Err(e) => Err(e),
            },
        },
        InputModel::Object(o) => match index_of(pool, "google.protobuf.Struct"@) {
            None => Err("Struct not in pool"@),
            Some(i) => match struct_from(pool, i, o) {
                Ok(x) => Ok(with_field(m, 5, ValueModel::Message(x))),
                Err(e) => Err(e),
            },
        },
    }
}

/// A `Struct`: an object of any JSON values.
pub open spec fn struct_from(
    pool: DescriptorPool,
    index: MessageIndex,
    o: Seq<(Seq<char>, InputModel)>,
) -> Result<MessageModel, Seq<char>>
    decreases height(InputModel::Object(o)), 3nat, 0nat,
{
    match index_of(pool, "google.protobuf.Value"@) {
        None => Err("Value not in pool"@),
        Some(v) => match struct_entries(pool, v, o, 0) {
            Ok(e) => Ok(
                with_field(
                    empty_message(pool, index),
                    1,
                    ValueModel::Mapping(normal_entries(e)),
                ),
            ),
            Err(e) => Err(e),
        },
    }
}

/// The entries of a `Struct`, from the `i`-th on, as they were given.
pub open spec fn struct_entries(
    pool: DescriptorPool,
    v: MessageIndex,
    o: Seq<(Seq<char>, InputModel)>,
    i: nat,
) -> Result<Seq<(KeyModel, ValueModel)>, Seq<char>>
    decreases height(InputModel::Object(o)), 2nat, o.len() - i,
{
    if i >= o.len() {
        Ok(Seq::empty())
    } else {
        proof {
            lemma_member_height(o, i as int);
        }
        match message_from(pool, v, o[i as int].1, false) {
            Err(e) => Err(e),
            Ok(x) => match struct_entries(pool, v, o, i + 1) {
                Err(e) => Err(e),
                Ok(rest) => Ok(
                    seq![(KeyModel::Text(o[i as int].0), ValueModel::Message(x))] + rest,
                ),
            },
        }
    }
}

/// A `ListValue`: an array of any JSON values.
pub open spec fn list_from(pool: DescriptorPool, index: MessageIndex, a: Seq<InputModel>) -> Result<
    MessageModel,
    Seq<char>,
>
    decreases height(InputModel::Array(a)), 3nat, 0nat,
{
    match index_of(pool, "google.protobuf.Value"@) {
        None => Err("Value not in pool"@),
        Some(v) => match list_items(pool, v, a, 0) {
            Ok(l) => Ok(with_field(empty_message(pool, index), 1, ValueModel::List(l))),
            Err(e) => Err(e),
        },
    }
}

/// The elements of a `ListValue`, from the `i`-th on.
pub open spec fn list_items(pool: DescriptorPool, v: MessageIndex, a: Seq<InputModel>, i: nat) ->
    Result<Seq<ValueModel>, Seq<char>>
    decreases height(InputModel::Array(a)), 2nat, a.len() - i,
{
    if i >= a.len() {
        Ok(Seq::empty())
    } else {
        proof {
            lemma_element_height(a, i as int);
        }
        match message_from(pool, v, a[i as int], false) {
            Err(e) => Err(e),
            Ok(x) => match list_items(pool, v, a, i + 1) {
                Err(e) => Err(e),
                Ok(rest) => Ok(seq![ValueModel::Message(x)] + rest),
            },
        }
    }
}

/// An `Any`: an object that names a type under `"@type"`, wherever that stands
/// in it, and holds the fields of the type beside it, or the whole of the type
/// under `"value"` where that has a form of its own.
pub open spec fn any_from(
    pool: DescriptorPool,
    index: MessageIndex,
    o: Seq<(Seq<char>, InputModel)>,
    lenient: bool,
) -> Result<MessageModel, Seq<char>>
    decreases height(InputModel::Object(o)), 4nat, 0nat,
{
    let all = buffered_members(o);
    let at = member_at(all, "@type"@, 0);
    if all.len() == 0 {
        Ok(empty_message(pool, index))
    } else if at is None || !(all[at->Some_0 as int].1 is Text) {
        Err("Any object missing string \"@type\""@)
    } else {
        let url = all[at->Some_0 as int].1->Text_0;
        let rest = all.remove(at->Some_0 as int);
        proof {
            lemma_any_heights(o);
        }
        match any_type(pool, url) {
            None => Err(unknown_url(url)),
            Some(i) => match wkt_of(pool.message_seq()[i.0 as int].full_name@) {
                Some(WktKind::Empty) => any_with(pool, index, url, empty_from(pool, i, rest)),
                Some(_) => {
                    let v = member_at(rest, "value"@, 0);
                    if v is None {
                        Err("Any with WKT type "@ + quoted_text(url) + " requires a \"value\" key"@)
                    } else {
                        let more = rest.remove(v->Some_0 as int);
                        if !lenient && more.len() > 0 {
                            Err(
                                "unknown field "@ + quoted_text(more[0].0) + " in Any wrapper for "@
                                    + quoted_text(url),
                            )
                        } else {
                            any_with(
                                pool,
                                index,
                                url,
                                message_from(pool, i, rest[v->Some_0 as int].1, lenient),
                            )
                        }
                    }
                },
                None => any_with(
                    pool,
                    index,
                    url,
                    plain_from(empty_message(pool, i), rest, 0, lenient),
                ),
            },
        }
    }
}

/// The `Any` with the `type_url` and what its payload was read as.
pub open spec fn any_with(
    pool: DescriptorPool,
    index: MessageIndex,
    url: Seq<char>,
    inner: Result<MessageModel, Seq<char>>,
) -> Result<MessageModel, Seq<char>> {
    match inner {
        Err(e) => Err("Any inner deserialize failed: "@ + e),
        Ok(x) => if message_bytes(x).len() > MAX_MESSAGE_BYTES {
            Err(
                "Any inner re-encode failed: "@
                    + "message encoded size exceeds the 2 GiB protobuf limit"@,
            )
        } else {
            Ok(
                with_field(
                    with_field(empty_message(pool, index), 1, ValueModel::Text(url)),
                    2,
                    ValueModel::Bytes(message_bytes(x)),
                ),
            )
        },
    }
}

/// What is read of an `Any` nests less deep than its object, or no deeper.
pub proof fn lemma_any_heights(o: Seq<(Seq<char>, InputModel)>)
    ensures
        ({
            let all = buffered_members(o);
            member_at(all, "@type"@, 0) matches Some(p) ==> {
                let rest = all.remove(p as int);
                &&& height(InputModel::Object(rest)) <= height(InputModel::Object(o))
                &&& member_at(rest, "value"@, 0) matches Some(q) ==> height(rest[q as int].1)
                    < height(InputModel::Object(o))
            }
        }),
{
    let all = buffered_members(o);
    lemma_buffered_members_height(o);
    lemma_member_at(all, "@type"@, 0);
    if let Some(p) = member_at(all, "@type"@, 0) {
        let rest = all.remove(p as int);
        lemma_remove_height(all, p as int);
        lemma_member_at(rest, "value"@, 0);
        if let Some(q) = member_at(rest, "value"@, 0) {
            lemma_member_height(rest, q as int);
        }
    }
}

/// `r` is the executable form of `m`.
pub open spec fn reads_message(
    r: Result<DynamicMessage, JsonError>,
    m: Result<MessageModel, Seq<char>>,
) -> bool {
    match m {
        Ok(x) => r is Ok && r->Ok_0@ == x,
        Err(e) => r is Err && r->Err_0@ == e,
    }
}

/// `r` is the executable form of `m`.
pub open spec fn reads_element(
    r: Result<Value, JsonError>,
    m: Result<ValueModel, Seq<char>>,
) -> bool {
    match m {
        Ok(x) => r is Ok && r->Ok_0@ == x,
        Err(e) => r is Err && r->Err_0@ == e,
    }
}

// ── Reading ─────────────────────────────────────────────────────────────────

fn deserialize_enum(pool: &DescriptorPool, e: EnumIndex, j: &JsonInput) -> (r: Result<
    Value,
    JsonError,
>)
    requires
        e.0 < pool.enum_seq().len(),
    ensures
        reads_element(r, enum_from(*pool, e, j@)),
{
    let ed = pool.enumeration(e);
    match j {
        JsonInput::Null => {
            if same_text(ed.full_name.as_str(), "google.protobuf.NullValue") {
                return Ok(Value::EnumNumber(0));
            }
        },
        JsonInput::Text(t) => {
            let mut i: usize = 0;
            while i < ed.values.len()
                invariant
                    i <= ed.values@.len(),
                    *ed == pool.enum_seq()[e.0 as int],
                    j@ == InputModel::Text(t@),
                    name_at(ed.values@, t@, 0) == name_at(ed.values@, t@, i as nat),
                decreases ed.values@.len() - i,
            {
                if same_text(ed.values[i].name.as_str(), t.as_str()) {
                    return Ok(Value::EnumNumber(ed.values[i].number));
                }
                i = i + 1;
            }
            let front = join3("unknown enum value ", quoted(t.as_str()).as_str(), " for ");
            return Err(JsonError { text: join2(front.as_str(), ed.full_name.as_str()) });
        },
        JsonInput::Number(n) => match n.integer {
            Some(JsonInteger::Signed(x)) => {
                if -0x8000_0000 <= x && x <= 0x7fff_ffff {
                    return Ok(Value::EnumNumber(x as i32));
                }
            },
            Some(JsonInteger::Unsigned(x)) => {
                if x <= 0x7fff_ffff {
                    return Ok(Value::EnumNumber(x as i32));
                }
            },
            None => {},
        },
        _ => {},
    }
    Err(JsonError::new("expected an enum name or number"))
}

fn deserialize_key(s: ScalarType, t: &String) -> (r: Result<MapKey, JsonError>)
    ensures
        match key_from(s, t@) {
            Ok(k) => r is Ok && r->Ok_0@ == k,
            Err(e) => r is Err && r->Err_0@ == e,
        },
{
    if let ScalarType::Bool = s {
        if same_text(t.as_str(), "true") {
            return Ok(MapKey::Bool(true));
        }
        if same_text(t.as_str(), "false") {
            return Ok(MapKey::Bool(false));
        }
        return Err(JsonError::new("expected \"true\" or \"false\""));
    }
    match deserialize_scalar(s, &JsonInput::Text(t.clone())) {
        Err(e) => Err(e),
        Ok(v) => Ok(
            match v {
                Value::Bool(x) => MapKey::Bool(x),
                Value::I32(x) => MapKey::I32(x),
                Value::I64(x) => MapKey::I64(x),
                Value::U32(x) => MapKey::U32(x),
                Value::U64(x) => MapKey::U64(x),
                Value::String(x) => MapKey::String(x),
                _ => MapKey::Bool(false),
            },
        ),
    }
}

fn null_is_value(pool: &DescriptorPool, kind: SingularKind) -> (r: bool)
    requires
        singular_linked(*pool, kind),
    ensures
        r == takes_null(*pool, kind),
{
    match kind {
        SingularKind::Scalar(_) => false,
        SingularKind::Enum(e) => same_text(
            pool.enumeration(e).full_name.as_str(),
            "google.protobuf.NullValue",
        ),
        SingularKind::Message(m) => match WktKind::from_full_name(
            pool.message(m).full_name.as_str(),
        ) {
            Some(WktKind::JsonValue) => true,
            _ => false,
        },
    }
}

fn make_two_field(pool: &Arc<DescriptorPool>, index: MessageIndex, secs: i64, nanos: i32) -> (r:
    DynamicMessage)
    requires
        index.0 < pool.message_seq().len(),
    ensures
        r@ == two_fields(**pool, index, secs, nanos),
{
    let mut m = DynamicMessage::new(share_pool(pool), index);
    if secs != 0 {
        m.insert_value(1, Value::I64(secs));
    }
    if nanos != 0 {
        m.insert_value(2, Value::I32(nanos));
    }
    m
}

impl DynamicMessage {
    /// Reads a message from JSON. Keys that a message does not have are an
    /// error, unless `ignore_unknown`.
    pub fn from_json(
        pool: Arc<DescriptorPool>,
        index: MessageIndex,
        j: &JsonInput,
        ignore_unknown: bool,
    ) -> (r: Result<DynamicMessage, JsonError>)
        requires
            index.0 < pool.message_seq().len(),
        ensures
            reads_message(r, message_from(*pool, index, j@, ignore_unknown)),
    {
        deserialize_message(&pool, index, j, ignore_unknown)
    }
}

/// Reads a message.
pub fn deserialize_message(
    pool: &Arc<DescriptorPool>,
    index: MessageIndex,
    j: &JsonInput,
    ignore_unknown: bool,
) -> (r: Result<DynamicMessage, JsonError>)
    requires
        index.0 < pool.message_seq().len(),
    ensures
        reads_message(r, message_from(**pool, index, j@, ignore_unknown)),
    decreases height(j@), 6nat, 0nat,
{
    match WktKind::from_full_name(pool.message(index).full_name.as_str()) {
        Some(w) => w.deserialize_message(pool, index, j, ignore_unknown),
        None => match j {
            JsonInput::Object(o) => {
                let m = DynamicMessage::new(share_pool(pool), index);
                deserialize_members(m, o, ignore_unknown)
            },
            _ => Err(JsonError::new("expected a JSON object")),
        },
    }
}

/// The position of the first field that has the key in JSON or as its name.
fn find_field(fields: &Vec<FieldDescriptor>, key: &str) -> (r: Option<usize>)
    ensures
        match field_named(fields@, key@, 0) {
            Some(k) => r is Some && r->Some_0 == k && k < fields@.len(),
            None => r is None,
        },
{
    let mut k: usize = 0;
    while k < fields.len()
        invariant
            k <= fields@.len(),
            field_named(fields@, key@, 0) == field_named(fields@, key@, k as nat),
        decreases fields@.len() - k,
    {
        if same_text(fields[k].json_name.as_str(), key) || same_text(fields[k].name.as_str(), key) {
            return Some(k);
        }
        k = k + 1;
    }
    None
}

/// Sets what the members of an object say.
fn deserialize_members(
    msg: DynamicMessage,
    o: &Vec<(String, JsonInput)>,
    ignore_unknown: bool,
) -> (r: Result<DynamicMessage, JsonError>)
    ensures
        reads_message(r, plain_from(msg@, members_view(o@), 0, ignore_unknown)),
    decreases height(InputModel::Object(members_view(o@))), 4nat, 0nat,
{
    let ghost all = members_view(o@);
    let ghost goal = plain_from(msg@, all, 0, ignore_unknown);
    let mut m = msg;
    let pool = share_pool(m.pool());
    let mut i: usize = 0;
    while i < o.len()
        invariant
            all == members_view(o@),
            m@.pool == *pool,
            i <= o@.len(),
            goal == plain_from(m@, all, i as nat, ignore_unknown),
            goal == plain_from(msg@, members_view(o@), 0, ignore_unknown),
        decreases o@.len() - i,
    {
        proof {
            lemma_member_height(all, i as int);
            assert(all[i as int] == (o@[i as int].0@, o@[i as int].1@));
        }
        let fields = &m.message_descriptor().fields;
        let found = match find_field(fields, o[i].0.as_str()) {
            Some(k) => Some((fields[k].kind, fields[k].oneof_index, fields[k].number)),
            None => None,
        };
        match found {
            None => {
                if !ignore_unknown {
                    let text = join2("unknown field ", quoted(o[i].0.as_str()).as_str());
                    return Err(JsonError { text });
                }
            },
            Some((kind, oneof_index, number)) => match deserialize_field(
                &pool,
                kind,
                &o[i].1,
                ignore_unknown,
            ) {
                Err(e) => return Err(e),
                Ok(None) => {},
                Ok(Some(v)) => {
                    m.clear_other_oneof_members(oneof_index, number);
                    m.insert_value(number, v);
                },
            },
        }
        i = i + 1;
    }
    Ok(m)
}

/// Reads the value of a field.
fn deserialize_field(
    pool: &Arc<DescriptorPool>,
    kind: FieldKind,
    j: &JsonInput,
    ignore_unknown: bool,
) -> (r: Result<Option<Value>, JsonError>)
    requires
        kind_linked(**pool, kind),
    ensures
        match field_from(**pool, kind, j@, ignore_unknown) {
            Ok(Some(v)) => r is Ok && (r->Ok_0 matches Some(x) && x@ == v),
            Ok(None) => r is Ok && r->Ok_0 is None,
            Err(e) => r is Err && r->Err_0@ == e,
        },
    decreases height(j@), 9nat, 0nat,
{
    let ghost p = pool_of(pool);
    match kind {
        FieldKind::Singular(k) => {
            if let JsonInput::Null = j {
                if !null_is_value(pool, k) {
                    return Ok(None);
                }
            }
            match deserialize_element(pool, k, j, ignore_unknown) {
                Ok(v) => Ok(Some(v)),
                Err(e) => Err(e),
            }
        },
        FieldKind::List(k) => match j {
            JsonInput::Null => Ok(None),
            JsonInput::Array(a) => {
                let ghost all = inputs_view(a@);
                let ghost goal = items_from(p, k, all, 0, ignore_unknown);
                let mut out: Vec<Value> = Vec::new();
                let mut i: usize = 0;
                proof {
                    if goal is Ok {
                        assert(items_view(out@) + goal->Ok_0 =~= goal->Ok_0);
                    }
                }
                while i < a.len()
                    invariant
                        p == **pool,
                        kind == FieldKind::List(k),
                        j@ == InputModel::Array(all),
                        singular_linked(p, k),
                        all == inputs_view(a@),
                        i <= a@.len(),
                        match items_from(p, k, all, i as nat, ignore_unknown) {
                            Ok(rest) => goal is Ok && goal->Ok_0 == items_view(out@) + rest,
                            Err(e) => goal == Err::<Seq<ValueModel>, Seq<char>>(e),
                        },
                        goal == items_from(p, k, all, 0, ignore_unknown),
                    decreases a@.len() - i,
                {
                    proof {
                        lemma_element_height(all, i as int);
                        assert(all[i as int] == a@[i as int]@);
                    }
                    match deserialize_element(pool, k, &a[i], ignore_unknown) {
                        Err(e) => return Err(e),
                        Ok(v) => {
                            let ghost was = items_view(out@);
                            let ghost v0 = v@;
                            out.push(v);
                            proof {
                                assert(items_view(out@) =~= was.push(v0));
                                if let Ok(rest) = items_from(
                                    p,
                                    k,
                                    all,
                                    (i + 1) as nat,
                                    ignore_unknown,
                                ) {
                                    assert(was + (seq![v0] + rest) =~= items_view(out@) + rest);
                                }
                            }
                        },
                    }
                    i = i + 1;
                }
                assert(items_view(out@) + Seq::<ValueModel>::empty() =~= items_view(out@));
                Ok(Some(Value::List(out)))
            },
            _ => Err(JsonError::new("expected a JSON array")),
        },
        FieldKind::Mapping { key, value } => match j {
            JsonInput::Null => Ok(None),
            JsonInput::Object(o) => {
                let ghost all = members_view(o@);
                let ghost goal = entries_from(p, key, value, all, 0, ignore_unknown);
                let mut out: Vec<(MapKey, Value)> = Vec::new();
                let mut i: usize = 0;
                proof {
                    if goal is Ok {
                        assert(entries_view(out@) + goal->Ok_0 =~= goal->Ok_0);
                    }
                }
                while i < o.len()
                    invariant
                        p == **pool,
                        kind == (FieldKind::Mapping { key, value }),
                        j@ == InputModel::Object(all),
                        singular_linked(p, value),
                        all == members_view(o@),
                        i <= o@.len(),
                        match entries_from(p, key, value, all, i as nat, ignore_unknown) {
                            Ok(rest) => goal is Ok && goal->Ok_0 == entries_view(out@) + rest,
                            Err(e) => goal == Err::<Seq<(KeyModel, ValueModel)>, Seq<char>>(e),
                        },
                        goal == entries_from(p, key, value, all, 0, ignore_unknown),
                    decreases o@.len() - i,
                {
                    proof {
                        lemma_member_height(all, i as int);
                        assert(all[i as int] == (o@[i as int].0@, o@[i as int].1@));
                    }
                    let k = match deserialize_key(key, &o[i].0) {
                        Err(e) => return Err(e),
                        Ok(k) => k,
                    };
                    match deserialize_element(pool, value, &o[i].1, ignore_unknown) {
                        Err(e) => return Err(e),
                        Ok(v) => {
                            let ghost was = entries_view(out@);
                            let ghost e0 = (k@, v@);
                            out.push((k, v));
                            proof {
                                assert(entries_view(out@) =~= was.push(e0));
                                if let Ok(rest) = entries_from(
                                    p,
                                    key,
                                    value,
                                    all,
                                    (i + 1) as nat,
                                    ignore_unknown,
                                ) {
                                    assert(was + (seq![e0] + rest) =~= entries_view(out@) + rest);
                                }
                            }
                        },
                    }
                    i = i + 1;
                }
                assert(entries_view(out@) + Seq::<(KeyModel, ValueModel)>::empty()
                    =~= entries_view(out@));
                Ok(Some(Value::Mapping(MapValue::from_entries(out))))
            },
            _ => Err(JsonError::new("expected a JSON object")),
        },
    }
}

/// Reads an element.
fn deserialize_element(
    pool: &Arc<DescriptorPool>,
    kind: SingularKind,
    j: &JsonInput,
    ignore_unknown: bool,
) -> (r: Result<Value, JsonError>)
    requires
        singular_linked(**pool, kind),
    ensures
        reads_element(r, element_from(**pool, kind, j@, ignore_unknown)),
    decreases height(j@), 7nat, 0nat,
{
    if let JsonInput::Null = j {
        if !null_is_value(pool, kind) {
            return Err(JsonError::new("null is no element"));
        }
    }
    match kind {
        SingularKind::Scalar(s) => deserialize_scalar(s, j),
        SingularKind::Enum(e) => deserialize_enum(pool, e, j),
        SingularKind::Message(i) => match deserialize_message(pool, i, j, ignore_unknown) {
            Ok(m) => Ok(Value::Message(m)),
            Err(e) => Err(e),
        },
    }
}

impl WktKind {
    /// Reads a message of this well-known type. `ignore_unknown` counts for
    /// what an `Any` wraps; the other types have no keys to pass over.
    pub fn deserialize_message(
        self,
        pool: &Arc<DescriptorPool>,
        index: MessageIndex,
        j: &JsonInput,
        ignore_unknown: bool,
    ) -> (r: Result<DynamicMessage, JsonError>)
        requires
            index.0 < pool.message_seq().len(),
        ensures
            reads_message(r, wkt_from(self, **pool, index, j@, ignore_unknown)),
        decreases height(j@), 5nat, 0nat,
    {
        match self {
            WktKind::Any => match j {
                JsonInput::Object(o) => deserialize_any(pool, index, o, ignore_unknown),
                _ => Err(JsonError::new("expected a JSON object")),
            },
            WktKind::Timestamp => match j {
                JsonInput::Text(s) => match parse_timestamp(s.as_str()) {
                    Ok((secs, nanos)) => Ok(make_two_field(pool, index, secs, nanos)),
                    Err(e) => Err(JsonError::new(e)),
                },
                _ => Err(JsonError::new("expected a string")),
            },
            WktKind::Duration => match j {
                JsonInput::Text(s) => match parse_duration(s.as_str()) {
                    Ok((secs, nanos)) => Ok(make_two_field(pool, index, secs, nanos)),
                    Err(e) => Err(JsonError::new(e)),
                },
                _ => Err(JsonError::new("expected a string")),
            },
            WktKind::FieldMask => match j {
                JsonInput::Text(s) => match parse_field_mask(s.as_str()) {
                    Ok(paths) => {
                        let mut m = DynamicMessage::new(share_pool(pool), index);
                        m.insert_value(1, Value::List(string_values(paths)));
                        Ok(m)
                    },
                    Err(e) => Err(JsonError::new(e)),
                },
                _ => Err(JsonError::new("expected a string")),
            },
            WktKind::Empty => match j {
                JsonInput::Object(o) => deserialize_empty(pool, index, o),
                _ => Err(JsonError::new("expected an empty object")),
            },
            WktKind::Wrapper(s) => match deserialize_scalar(s, j) {
                Ok(v) => {
                    let mut m = DynamicMessage::new(share_pool(pool), index);
                    m.insert_value(1, v);
                    Ok(m)
                },
                Err(e) => Err(e),
            },
            WktKind::Struct => match j {
                JsonInput::Object(o) => deserialize_struct(pool, index, o),
                _ => Err(JsonError::new("expected a JSON object")),
            },
            WktKind::ListValue => match j {
                JsonInput::Array(a) => deserialize_list_value(pool, index, a),
                _ => Err(JsonError::new("expected a JSON array")),
            },
            WktKind::JsonValue => deserialize_json_value(pool, index, j),
        }
    }
}

fn string_values(paths: Vec<String>) -> (r: Vec<Value>)
    ensures
        items_view(r@) == text_values(strings_view(paths@)),
{
    let mut out: Vec<Value> = Vec::new();
    let mut i: usize = 0;
    while i < paths.len()
        invariant
            i <= paths@.len(),
            out@.len() == i,
            forall|k: int| 0 <= k < i ==> (#[trigger] out@[k])@ == ValueModel::Text(paths@[k]@),
        decreases paths@.len() - i,
    {
        out.push(Value::String(paths[i].clone()));
        i = i + 1;
    }
    assert(items_view(out@) =~= text_values(strings_view(paths@)));
    out
}

/// Reads an `Empty`.
fn deserialize_empty(
    pool: &Arc<DescriptorPool>,
    index: MessageIndex,
    o: &Vec<(String, JsonInput)>,
) -> (r: Result<DynamicMessage, JsonError>)
    requires
        index.0 < pool.message_seq().len(),
    ensures
        reads_message(r, empty_from(**pool, index, members_view(o@))),
{
    if o.len() > 0 {
        return Err(JsonError::new("unexpected field on Empty"));
    }
    Ok(DynamicMessage::new(share_pool(pool), index))
}

/// Reads a `google.protobuf.Value`.
fn deserialize_json_value(pool: &Arc<DescriptorPool>, index: MessageIndex, j: &JsonInput) -> (r:
    Result<DynamicMessage, JsonError>)
    requires
        index.0 < pool.message_seq().len(),
    ensures
        reads_message(r, dynamic_from(**pool, index, j@)),
    decreases height(j@), 4nat, 0nat,
{
    let mut m = DynamicMessage::new(share_pool(pool), index);
    match j {
        JsonInput::Null => {
            m.insert_value(1, Value::EnumNumber(0));
        },
        JsonInput::Bool(b) => {
            m.insert_value(4, Value::Bool(*b));
        },
        JsonInput::Number(n) => {
            m.insert_value(2, Value::F64(n.double));
        },
        JsonInput::Text(s) => {
            m.insert_value(3, Value::String(s.clone()));
        },
        JsonInput::Array(a) => {
            let i = match pool.message_index("google.protobuf.ListValue") {
                Some(i) => i,
                None => return Err(JsonError::new("ListValue not in pool")),
            };
            match deserialize_list_value(pool, i, a) {
                Ok(x) => m.insert_value(6, Value::Message(x)),
                Err(e) => return Err(e),
            }
        },
        JsonInput::Object(o) => {
            let i = match pool.message_index("google.protobuf.Struct") {
                Some(i) => i,
                None => return Err(JsonError::new("Struct not in pool")),
            };
            match deserialize_struct(pool, i, o) {
                Ok(x) => m.insert_value(5, Value::Message(x)),
                Err(e) => return Err(e),
            }
        },
    }
    Ok(m)
}

/// Reads a `Struct`.
fn deserialize_struct(
    pool: &Arc<DescriptorPool>,
    index: MessageIndex,
    o: &Vec<(String, JsonInput)>,
) -> (r: Result<DynamicMessage, JsonError>)
    requires
        index.0 < pool.message_seq().len(),
    ensures
        reads_message(r, struct_from(**pool, index, members_view(o@))),
    decreases height(InputModel::Object(members_view(o@))), 3nat, 0nat,
{
    let ghost p = pool_of(pool);
    let value = match pool.message_index("google.protobuf.Value") {
        Some(i) => i,
        None => return Err(JsonError::new("Value not in pool")),
    };
    let ghost all = members_view(o@);
    let ghost goal = struct_entries(p, value, all, 0);
    let mut out: Vec<(MapKey, Value)> = Vec::new();
    let mut i: usize = 0;
    proof {
        if goal is Ok {
            assert(entries_view(out@) + goal->Ok_0 =~= goal->Ok_0);
        }
    }
    while i < o.len()
        invariant
            p == **pool,
            value.0 < p.message_seq().len(),
            index_of(p, "google.protobuf.Value"@) == Some(value),
            all == members_view(o@),
            i <= o@.len(),
            match struct_entries(p, value, all, i as nat) {
                Ok(rest) => goal is Ok && goal->Ok_0 == entries_view(out@) + rest,
                Err(e) => goal == Err::<Seq<(KeyModel, ValueModel)>, Seq<char>>(e),
            },
            goal == struct_entries(p, value, all, 0),
        decreases o@.len() - i,
    {
        proof {
            lemma_member_height(all, i as int);
            assert(all[i as int] == (o@[i as int].0@, o@[i as int].1@));
        }
        match deserialize_message(pool, value, &o[i].1, false) {
            Err(e) => return Err(e),
            Ok(x) => {
                let ghost was = entries_view(out@);
                let ghost e0 = (KeyModel::Text(o@[i as int].0@), ValueModel::Message(x@));
                out.push((MapKey::String(o[i].0.clone()), Value::Message(x)));
                proof {
                    assert(entries_view(out@) =~= was.push(e0));
                    if let Ok(rest) = struct_entries(p, value, all, (i + 1) as nat) {
                        assert(was + (seq![e0] + rest) =~= entries_view(out@) + rest);
                    }
                }
            },
        }
        i = i + 1;
    }
    assert(entries_view(out@) + Seq::<(KeyModel, ValueModel)>::empty() =~= entries_view(out@));
    let mut m = DynamicMessage::new(share_pool(pool), index);
    m.insert_value(1, Value::Mapping(MapValue::from_entries(out)));
    Ok(m)
}

/// Reads a `ListValue`.
fn deserialize_list_value(
    pool: &Arc<DescriptorPool>,
    index: MessageIndex,
    a: &Vec<JsonInput>,
) -> (r: Result<DynamicMessage, JsonError>)
    requires
        index.0 < pool.message_seq().len(),
    ensures
        reads_message(r, list_from(**pool, index, inputs_view(a@))),
    decreases height(InputModel::Array(inputs_view(a@))), 3nat, 0nat,
{
    let ghost p = pool_of(pool);
    let value = match pool.message_index("google.protobuf.Value") {
        Some(i) => i,
        None => return Err(JsonError::new("Value not in pool")),
    };
    let ghost all = inputs_view(a@);
    let ghost goal = list_items(p, value, all, 0);
    let mut out: Vec<Value> = Vec::new();
    let mut i: usize = 0;
    proof {
        if goal is Ok {
            assert(items_view(out@) + goal->Ok_0 =~= goal->Ok_0);
        }
    }
    while i < a.len()
        invariant
            p == **pool,
            value.0 < p.message_seq().len(),
            index_of(p, "google.protobuf.Value"@) == Some(value),
            all == inputs_view(a@),
            i <= a@.len(),
            match list_items(p, value, all, i as nat) {
                Ok(rest) => goal is Ok && goal->Ok_0 == items_view(out@) + rest,
                Err(e) => goal == Err::<Seq<ValueModel>, Seq<char>>(e),
            },
            goal == list_items(p, value, all, 0),
        decreases a@.len() - i,
    {
        proof {
            lemma_element_height(all, i as int);
            assert(all[i as int] == a@[i as int]@);
        }
        match deserialize_message(pool, value, &a[i], false) {
            Err(e) => return Err(e),
            Ok(x) => {
                let ghost was = items_view(out@);
                let ghost v0 = ValueModel::Message(x@);
                out.push(Value::Message(x));
                proof {
                    assert(items_view(out@) =~= was.push(v0));
                    if let Ok(rest) = list_items(p, value, all, (i + 1) as nat) {
                        assert(was + (seq![v0] + rest) =~= items_view(out@) + rest);
                    }
                }
            },
        }
        i = i + 1;
    }
    assert(items_view(out@) + Seq::<ValueModel>::empty() =~= items_view(out@));
    let mut m = DynamicMessage::new(share_pool(pool), index);
    m.insert_value(1, Value::List(out));
    Ok(m)
}

/// Reads an `Any`. The object is read as a whole first, since `"@type"` may
/// stand anywhere in it.
fn deserialize_any(
    pool: &Arc<DescriptorPool>,
    index: MessageIndex,
    o: &Vec<(String, JsonInput)>,
    ignore_unknown: bool,
) -> (r: Result<DynamicMessage, JsonError>)
    requires
        index.0 < pool.message_seq().len(),
    ensures
        reads_message(r, any_from(**pool, index, members_view(o@), ignore_unknown)),
    decreases height(InputModel::Object(members_view(o@))), 4nat, 1nat,
{
    proof {
        lemma_any_heights(members_view(o@));
    }
    let mut obj = buffer_members(o);
    if obj.len() == 0 {
        return Ok(DynamicMessage::new(share_pool(pool), index));
    }
    let type_url = match remove_member(&mut obj, "@type") {
        Some(JsonInput::Text(url)) => url,
        _ => return Err(JsonError::new("Any object missing string \"@type\"")),
    };
    let inner_index = match resolve_any_type(pool, type_url.as_str()) {
        Some(i) => i,
        None => {
            let text = join3(
                "Any type_url ",
                quoted(type_url.as_str()).as_str(),
                " not registered in the descriptor pool",
            );
            return Err(JsonError { text });
        },
    };
    let inner = match WktKind::from_full_name(pool.message(inner_index).full_name.as_str()) {
        Some(WktKind::Empty) => deserialize_empty(pool, inner_index, &obj),
        Some(_) => {
            let value = match remove_member(&mut obj, "value") {
                Some(v) => v,
                None => {
                    let text = join3(
                        "Any with WKT type ",
                        quoted(type_url.as_str()).as_str(),
                        " requires a \"value\" key",
                    );
                    return Err(JsonError { text });
                },
            };
            if !ignore_unknown && obj.len() > 0 {
                let front = join3(
                    "unknown field ",
                    quoted(obj[0].0.as_str()).as_str(),
                    " in Any wrapper for ",
                );
                let text = join2(front.as_str(), quoted(type_url.as_str()).as_str());
                return Err(JsonError { text });
            }
            deserialize_message(pool, inner_index, &value, ignore_unknown)
        },
        None => {
            let m = DynamicMessage::new(share_pool(pool), inner_index);
            deserialize_members(m, &obj, ignore_unknown)
        },
    };
    deserialize_any_payload(pool, index, type_url, inner)
}

/// Wraps what the payload of an `Any` was read as.
pub fn deserialize_any_payload(
    pool: &Arc<DescriptorPool>,
    index: MessageIndex,
    type_url: String,
    inner: Result<DynamicMessage, JsonError>,
) -> (r: Result<DynamicMessage, JsonError>)
    requires
        index.0 < pool.message_seq().len(),
    ensures
        match inner {
            Ok(x) => reads_message(r, any_with(**pool, index, type_url@, Ok(x@))),
            Err(e) => reads_message(r, any_with(**pool, index, type_url@, Err(e@))),
        },
{
    let inner = match inner {
        Ok(x) => x,
        Err(e) => {
            let text = join2("Any inner deserialize failed: ", e.text.as_str());
            return Err(JsonError { text });
        },
    };
    let bytes = match inner.try_encode_to_vec() {
        Ok(b) => b,
        Err(e) => {
            let text = join2("Any inner re-encode failed: ", e.text().as_str());
            return Err(JsonError { text });
        },
    };
    let mut any = DynamicMessage::new(share_pool(pool), index);
    any.insert_value(1, Value::String(type_url));
    any.insert_value(2, Value::Bytes(bytes));
    Ok(any)
}

} // verus!
